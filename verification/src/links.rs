//! Symlink materialization, modeled as a plan. The engine turns a database
//! into a sequence of per-name actions — point the link at the winner's
//! target, or remove the link of a group left without records — and the
//! caller carries each action out in the link directory with an atomic
//! replace. The directory itself is modeled as a map from link name to
//! target, so that what a plan does to it can be stated and proved.

use vstd::prelude::*;
use crate::group::{GroupView, current_of};

verus! {

/// The target the group's current selection points at, if any.
pub open spec fn resolved(g: GroupView) -> Option<Seq<u8>> {
    match current_of(g.records) {
        Some(r) => Some(r.target),
        None => None,
    }
}

/// The materialization plan of a database: one action per group, in order.
/// `(name, Some(target))` points the link at the target; `(name, None)`
/// removes the link.
pub open spec fn plan_of(gs: Seq<GroupView>) -> Seq<(Seq<u8>, Option<Seq<u8>>)> {
    gs.map_values(|g: GroupView| (g.name, resolved(g)))
}

/// The view of one executable plan entry.
pub open spec fn act_view(a: (Vec<u8>, Option<Vec<u8>>)) -> (Seq<u8>, Option<Seq<u8>>) {
    (
        a.0@,
        match a.1 {
            Some(t) => Some(t@),
            None => None,
        },
    )
}

/// The views of a whole executable plan.
pub open spec fn plan_views(p: Seq<(Vec<u8>, Option<Vec<u8>>)>) -> Seq<(Seq<u8>, Option<Seq<u8>>)> {
    p.map_values(|a: (Vec<u8>, Option<Vec<u8>>)| act_view(a))
}

/// Effect of one action on a link directory.
pub open spec fn apply_act(
    m: Map<Seq<u8>, Seq<u8>>,
    a: (Seq<u8>, Option<Seq<u8>>),
) -> Map<Seq<u8>, Seq<u8>> {
    match a.1 {
        Some(t) => m.insert(a.0, t),
        None => m.remove(a.0),
    }
}

/// Effect of a whole plan, applied in order.
pub open spec fn apply_plan(
    m: Map<Seq<u8>, Seq<u8>>,
    p: Seq<(Seq<u8>, Option<Seq<u8>>)>,
) -> Map<Seq<u8>, Seq<u8>>
    decreases p.len(),
{
    if p.len() == 0 {
        m
    } else {
        apply_plan(apply_act(m, p[0]), p.skip(1))
    }
}

/// No two actions of the plan touch the same link name.
pub open spec fn plan_names_distinct(p: Seq<(Seq<u8>, Option<Seq<u8>>)>) -> bool {
    forall|i: int, j: int| 0 <= i < j < p.len() ==> p[i].0 != p[j].0
}

/// A link no action names keeps its binding.
pub proof fn lemma_apply_plan_untouched(
    m: Map<Seq<u8>, Seq<u8>>,
    p: Seq<(Seq<u8>, Option<Seq<u8>>)>,
    k: Seq<u8>,
)
    requires
        forall|i: int| 0 <= i < p.len() ==> (#[trigger] p[i]).0 != k,
    ensures
        apply_plan(m, p).contains_key(k) == m.contains_key(k),
        m.contains_key(k) ==> apply_plan(m, p)[k] == m[k],
    decreases p.len(),
{
    if p.len() > 0 {
        let m1 = apply_act(m, p[0]);
        assert(m1.contains_key(k) == m.contains_key(k));
        assert(m.contains_key(k) ==> m1[k] == m[k]);
        assert forall|i: int| 0 <= i < p.skip(1).len() implies (#[trigger] p.skip(1)[i]).0 != k by {
            assert(p.skip(1)[i] == p[i + 1]);
        }
        lemma_apply_plan_untouched(m1, p.skip(1), k);
    }
}

/// Applying a plan with distinct names a second time changes nothing: each
/// action finds the binding it already made, untouched by the others.
pub proof fn lemma_apply_plan_idem(m: Map<Seq<u8>, Seq<u8>>, p: Seq<(Seq<u8>, Option<Seq<u8>>)>)
    requires
        plan_names_distinct(p),
    ensures
        apply_plan(apply_plan(m, p), p) == apply_plan(m, p),
    decreases p.len(),
{
    if p.len() > 0 {
        let a = p[0];
        let m1 = apply_act(m, a);
        let rest = p.skip(1);
        assert forall|i: int| 0 <= i < rest.len() implies (#[trigger] rest[i]).0 != a.0 by {
            assert(rest[i] == p[i + 1]);
        }
        assert(plan_names_distinct(rest)) by {
            assert forall|i: int, j: int| 0 <= i < j < rest.len()
                implies rest[i].0 != rest[j].0 by {
                assert(rest[i] == p[i + 1]);
                assert(rest[j] == p[j + 1]);
            }
        }
        let big = apply_plan(m1, rest);
        lemma_apply_plan_untouched(m1, rest, a.0);
        match a.1 {
            Some(t) => {
                assert(m1.contains_key(a.0) && m1[a.0] == t);
                assert(big.contains_key(a.0) && big[a.0] == t);
                assert(apply_act(big, a) =~= big);
            },
            None => {
                assert(!m1.contains_key(a.0));
                assert(!big.contains_key(a.0));
                assert(apply_act(big, a) =~= big);
            },
        }
        lemma_apply_plan_idem(m1, rest);
        assert(apply_plan(big, p) == apply_plan(apply_act(big, a), rest));
        assert(apply_plan(apply_act(big, a), rest) == apply_plan(big, rest));
        assert(apply_plan(big, rest) == big);
    }
}

} // verus!
