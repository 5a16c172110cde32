//! An alternative group owns the set of records registered under one name,
//! with at most one record per distinct target, and computes the current
//! winner: the record of maximum priority, ties broken toward the
//! lexicographically smallest target.

use vstd::prelude::*;
use vstd::pervasive::VecAdditionalExecFns;
use crate::order::bytes_eq;
use crate::record::{
    Record, RecordView, no_newline, beats, record_beats, lemma_beats_total,
    lemma_beats_asymmetric, lemma_beats_transitive,
};

verus! {

/// No two records share a target.
pub open spec fn targets_distinct(rs: Seq<RecordView>) -> bool {
    forall|i: int, j: int| 0 <= i < j < rs.len() ==> rs[i].target != rs[j].target
}

/// Well-formed record set: targets are pairwise distinct and each is free of
/// newlines, so every record can be stored on its own line.
pub open spec fn records_wf(rs: Seq<RecordView>) -> bool {
    &&& targets_distinct(rs)
    &&& forall|i: int| 0 <= i < rs.len() ==> no_newline(#[trigger] rs[i].target)
}

/// Some record is registered for `t`.
pub open spec fn has_target(rs: Seq<RecordView>, t: Seq<u8>) -> bool {
    exists|i: int| 0 <= i < rs.len() && rs[i].target == t
}

/// The exact record `(t, p)` is registered.
pub open spec fn has_exact(rs: Seq<RecordView>, t: Seq<u8>, p: int) -> bool {
    exists|i: int| 0 <= i < rs.len() && rs[i] == (RecordView { target: t, priority: p })
}

/// Index of the first record for `t` at or after position `i`, if any.
pub open spec fn find_target_from(rs: Seq<RecordView>, t: Seq<u8>, i: int) -> Option<int>
    decreases rs.len() - i,
{
    if i >= rs.len() {
        None
    } else if rs[i].target == t {
        Some(i)
    } else {
        find_target_from(rs, t, i + 1)
    }
}

/// Index of the record for `t`, if any.
pub open spec fn find_target(rs: Seq<RecordView>, t: Seq<u8>) -> Option<int> {
    find_target_from(rs, t, 0)
}

/// Effect of registering `(t, p)`: replaces the priority of the existing
/// record for `t`, or appends a new record.
pub open spec fn add_rec(rs: Seq<RecordView>, t: Seq<u8>, p: int) -> Seq<RecordView> {
    match find_target(rs, t) {
        Some(i) => rs.update(i, RecordView { target: t, priority: p }),
        None => rs.push(RecordView { target: t, priority: p }),
    }
}

/// Effect of deleting the record for `t`, if present.
pub open spec fn remove_rec(rs: Seq<RecordView>, t: Seq<u8>) -> Seq<RecordView> {
    match find_target(rs, t) {
        Some(i) => rs.remove(i),
        None => rs,
    }
}

/// The winning record of a non-empty record set.
pub open spec fn max_rec(rs: Seq<RecordView>) -> RecordView
    recommends
        rs.len() > 0,
    decreases rs.len(),
{
    if rs.len() <= 1 {
        rs[0]
    } else {
        let m = max_rec(rs.drop_last());
        if beats(rs.last(), m) {
            rs.last()
        } else {
            m
        }
    }
}

/// The current selection: the winning record, or `None` for an empty set.
pub open spec fn current_of(rs: Seq<RecordView>) -> Option<RecordView> {
    if rs.len() == 0 {
        None
    } else {
        Some(max_rec(rs))
    }
}

/// What `find_target_from` returns: the first index at or after `i` whose
/// record is for `t`, or `None` when there is none.
pub proof fn lemma_find_target_spec(rs: Seq<RecordView>, t: Seq<u8>, i: int)
    requires
        0 <= i,
    ensures
        match find_target_from(rs, t, i) {
            Some(j) => i <= j < rs.len() && rs[j].target == t
                && (forall|k: int| i <= k < j ==> rs[k].target != t),
            None => forall|k: int| i <= k < rs.len() ==> rs[k].target != t,
        },
    decreases rs.len() - i,
{
    if i < rs.len() && rs[i].target != t {
        lemma_find_target_spec(rs, t, i + 1);
    }
}

/// `has_target` holds exactly when `find_target` finds an index.
pub proof fn lemma_find_target_has(rs: Seq<RecordView>, t: Seq<u8>)
    ensures
        has_target(rs, t) <==> find_target(rs, t) is Some,
{
    lemma_find_target_spec(rs, t, 0);
    if find_target(rs, t) is None && has_target(rs, t) {
        let i = choose|i: int| 0 <= i < rs.len() && rs[i].target == t;
        assert(rs[i].target != t);
    }
}

/// Shape of a record set after an `add`: targets stay distinct, `t` is
/// registered exactly once with priority `p`, and the length grows only when
/// `t` was new.
pub proof fn lemma_add_rec_shape(rs: Seq<RecordView>, t: Seq<u8>, p: int)
    requires
        targets_distinct(rs),
    ensures
        ({
            let rs2 = add_rec(rs, t, p);
            &&& targets_distinct(rs2)
            &&& has_target(rs2, t)
            &&& forall|i: int| 0 <= i < rs2.len() && (#[trigger] rs2[i]).target == t
                ==> rs2[i] == (RecordView { target: t, priority: p })
            &&& rs2.len() == if has_target(rs, t) { rs.len() } else { rs.len() + 1 }
        }),
{
    lemma_find_target_spec(rs, t, 0);
    lemma_find_target_has(rs, t);
    let rs2 = add_rec(rs, t, p);
    match find_target(rs, t) {
        Some(j) => {
            assert(rs2 == rs.update(j, RecordView { target: t, priority: p }));
            assert forall|i: int| 0 <= i < rs2.len() && (#[trigger] rs2[i]).target == t
                implies rs2[i] == (RecordView { target: t, priority: p }) by {
                if i != j {
                    assert(rs2[i] == rs[i]);
                    assert(rs[j].target == t);
                }
            }
            assert(targets_distinct(rs2)) by {
                assert forall|a: int, b: int| 0 <= a < b < rs2.len()
                    implies rs2[a].target != rs2[b].target by {
                    assert(rs2[a].target == rs[a].target);
                    assert(rs2[b].target == rs[b].target);
                }
            }
        },
        None => {
            assert(rs2 == rs.push(RecordView { target: t, priority: p }));
            assert(rs2[rs.len() as int].target == t);
            assert(targets_distinct(rs2)) by {
                assert forall|a: int, b: int| 0 <= a < b < rs2.len()
                    implies rs2[a].target != rs2[b].target by {
                    if b < rs.len() {
                        assert(rs2[a] == rs[a]);
                        assert(rs2[b] == rs[b]);
                    } else {
                        assert(rs2[a] == rs[a]);
                        assert(rs2[b].target == t);
                        assert(rs[a].target != t);
                    }
                }
            }
        },
    }
}

/// An `add` keeps every record well formed when the new target is storable.
pub proof fn lemma_add_rec_wf(rs: Seq<RecordView>, t: Seq<u8>, p: int)
    requires
        records_wf(rs),
        no_newline(t),
    ensures
        records_wf(add_rec(rs, t, p)),
{
    lemma_add_rec_shape(rs, t, p);
    let rs2 = add_rec(rs, t, p);
    lemma_find_target_spec(rs, t, 0);
    assert forall|i: int| 0 <= i < rs2.len() implies no_newline(#[trigger] rs2[i].target) by {
        match find_target(rs, t) {
            Some(j) => {
                if i != j {
                    assert(rs2[i] == rs[i]);
                }
            },
            None => {
                if i < rs.len() {
                    assert(rs2[i] == rs[i]);
                }
            },
        }
    }
}

/// A removal keeps the remaining records well formed.
pub proof fn lemma_remove_rec_wf(rs: Seq<RecordView>, t: Seq<u8>)
    requires
        records_wf(rs),
    ensures
        records_wf(remove_rec(rs, t)),
{
    lemma_find_target_spec(rs, t, 0);
    match find_target(rs, t) {
        Some(j) => {
            let rs2 = rs.remove(j);
            assert forall|a: int, b: int| 0 <= a < b < rs2.len()
                implies rs2[a].target != rs2[b].target by {
                let a0: int = if a < j { a } else { a + 1 };
                let b0: int = if b < j { b } else { b + 1 };
                assert(rs2[a] == rs[a0]);
                assert(rs2[b] == rs[b0]);
            }
            assert forall|k: int| 0 <= k < rs2.len() implies no_newline(#[trigger] rs2[k].target) by {
                let k0: int = if k < j { k } else { k + 1 };
                assert(rs2[k] == rs[k0]);
            }
        },
        None => {},
    }
}

/// Removing a target that is not registered changes nothing: the record set
/// is left exactly as it was.
pub proof fn lemma_remove_absent(rs: Seq<RecordView>, t: Seq<u8>)
    requires
        !has_target(rs, t),
    ensures
        remove_rec(rs, t) == rs,
{
    lemma_find_target_has(rs, t);
}

/// Registering the same target twice leaves exactly one record for it,
/// carrying the second priority.
pub proof fn lemma_add_twice_single_record(rs: Seq<RecordView>, t: Seq<u8>, p1: int, p2: int)
    requires
        targets_distinct(rs),
    ensures
        ({
            let rs2 = add_rec(add_rec(rs, t, p1), t, p2);
            &&& has_target(rs2, t)
            &&& forall|i: int| 0 <= i < rs2.len() && (#[trigger] rs2[i]).target == t
                ==> rs2[i] == (RecordView { target: t, priority: p2 })
            &&& targets_distinct(rs2)
            &&& rs2.len() == add_rec(rs, t, p1).len()
        }),
{
    lemma_add_rec_shape(rs, t, p1);
    lemma_add_rec_shape(add_rec(rs, t, p1), t, p2);
}

/// The winner of a non-empty, target-distinct record set is a member that
/// wins over every other record.
pub proof fn lemma_max_rec_wins(rs: Seq<RecordView>)
    requires
        rs.len() > 0,
        targets_distinct(rs),
    ensures
        rs.contains(max_rec(rs)),
        forall|i: int| 0 <= i < rs.len() && rs[i] != max_rec(rs) ==> beats(max_rec(rs), #[trigger] rs[i]),
    decreases rs.len(),
{
    if rs.len() == 1 {
        assert(rs[0] == rs[0]);
        assert(rs.contains(rs[0]));
    } else {
        let prefix = rs.drop_last();
        assert(targets_distinct(prefix)) by {
            assert forall|a: int, b: int| 0 <= a < b < prefix.len()
                implies prefix[a].target != prefix[b].target by {
                assert(prefix[a] == rs[a]);
                assert(prefix[b] == rs[b]);
            }
        }
        lemma_max_rec_wins(prefix);
        let m = max_rec(prefix);
        let l = rs.last();
        let mi = choose|mi: int| 0 <= mi < prefix.len() && prefix[mi] == m;
        assert(rs[mi] == m);
        assert(l == rs[rs.len() - 1]);
        assert(m.target != l.target);
        if beats(l, m) {
            assert(max_rec(rs) == l);
            assert(rs.contains(l));
            assert forall|i: int| 0 <= i < rs.len() && rs[i] != l implies beats(l, #[trigger] rs[i]) by {
                if i < rs.len() - 1 {
                    assert(prefix[i] == rs[i]);
                    if rs[i] != m {
                        lemma_beats_transitive(l, m, rs[i]);
                    }
                }
            }
        } else {
            lemma_beats_total(l, m);
            assert(beats(m, l));
            assert(max_rec(rs) == m);
            assert(rs.contains(m));
            assert forall|i: int| 0 <= i < rs.len() && rs[i] != m implies beats(m, #[trigger] rs[i]) by {
                if i < rs.len() - 1 {
                    assert(prefix[i] == rs[i]);
                }
            }
        }
    }
}

/// Any member that wins over every other record is the winner.
pub proof fn lemma_winner_unique(rs: Seq<RecordView>, w: RecordView)
    requires
        targets_distinct(rs),
        rs.contains(w),
        forall|i: int| 0 <= i < rs.len() && rs[i] != w ==> beats(w, #[trigger] rs[i]),
    ensures
        rs.len() > 0,
        w == max_rec(rs),
{
    lemma_max_rec_wins(rs);
    let m = max_rec(rs);
    if w != m {
        let wi = choose|wi: int| 0 <= wi < rs.len() && rs[wi] == w;
        let mi = choose|mi: int| 0 <= mi < rs.len() && rs[mi] == m;
        assert(beats(w, rs[mi]));
        assert(beats(m, rs[wi]));
        lemma_beats_asymmetric(w, m);
        assert(false);
    }
}

/// However a record set was reached by `add` and `remove` operations, as long
/// as its targets stay distinct, its current selection is exactly the unique
/// record that wins over every other: maximum priority, ties broken toward
/// the lexicographically smallest target.
pub proof fn lemma_current_unique_winner(rs: Seq<RecordView>)
    requires
        targets_distinct(rs),
        rs.len() > 0,
    ensures
        ({
            let w = max_rec(rs);
            &&& current_of(rs) == Some(w)
            &&& rs.contains(w)
            &&& forall|i: int| 0 <= i < rs.len() && rs[i] != w ==> beats(w, #[trigger] rs[i])
            &&& forall|v: RecordView|
                #[trigger] rs.contains(v)
                    && (forall|i: int| 0 <= i < rs.len() && rs[i] != v ==> beats(v, #[trigger] rs[i]))
                    ==> v == max_rec(rs)
        }),
{
    lemma_max_rec_wins(rs);
    assert forall|v: RecordView|
        #[trigger] rs.contains(v)
            && (forall|i: int| 0 <= i < rs.len() && rs[i] != v ==> beats(v, #[trigger] rs[i]))
            implies v == max_rec(rs) by {
        lemma_winner_unique(rs, v);
    }
}

/// Folds a sequence of records into a set by registering them in order.
/// Later records for an already-seen target replace its priority.
pub open spec fn add_all(acc: Seq<RecordView>, rs: Seq<RecordView>) -> Seq<RecordView>
    decreases rs.len(),
{
    if rs.len() == 0 {
        acc
    } else {
        add_all(add_rec(acc, rs[0].target, rs[0].priority), rs.skip(1))
    }
}

/// Registering records whose targets are fresh and pairwise distinct appends
/// them in order.
pub proof fn lemma_add_all_fresh(acc: Seq<RecordView>, rs: Seq<RecordView>)
    requires
        targets_distinct(acc + rs),
    ensures
        add_all(acc, rs) == acc + rs,
    decreases rs.len(),
{
    if rs.len() == 0 {
        assert(acc + rs =~= acc);
    } else {
        let r = rs[0];
        lemma_find_target_has(acc, r.target);
        if has_target(acc, r.target) {
            let i = choose|i: int| 0 <= i < acc.len() && acc[i].target == r.target;
            assert((acc + rs)[i] == acc[i]);
            assert((acc + rs)[acc.len() as int] == r);
            assert(false);
        }
        assert((RecordView { target: r.target, priority: r.priority }) == r);
        assert(add_rec(acc, r.target, r.priority) == acc.push(r));
        assert(acc.push(r) + rs.skip(1) =~= acc + rs);
        lemma_add_all_fresh(acc.push(r), rs.skip(1));
    }
}

/// The record views held in a vector of records.
pub open spec fn views_of(rs: Seq<Record>) -> Seq<RecordView> {
    rs.map_values(|r: Record| r@)
}

/// The set of records registered under one shared name.
pub struct Group {
    name: Vec<u8>,
    records: Vec<Record>,
}

/// Mathematical model of a [`Group`].
#[verifier::ext_equal]
pub ghost struct GroupView {
    pub name: Seq<u8>,
    pub records: Seq<RecordView>,
}

impl View for Group {
    type V = GroupView;

    closed spec fn view(&self) -> GroupView {
        GroupView { name: self.name@, records: views_of(self.records@) }
    }
}

impl Group {
    /// The group's records are well formed.
    pub open spec fn inv(&self) -> bool {
        records_wf(self@.records)
    }

    /// Creates an empty group for `name`.
    pub fn new(name: Vec<u8>) -> (g: Group)
        ensures
            g@.name == name@,
            g@.records == Seq::<RecordView>::empty(),
            g.inv(),
    {
        let g = Group { name, records: Vec::new() };
        proof {
            assert(views_of(g.records@) =~= Seq::<RecordView>::empty());
        }
        g
    }

    /// Builds a group for `name` by registering `recs` in order, so that a
    /// duplicated target keeps only its last priority.
    pub fn from_records(name: Vec<u8>, recs: &Vec<Record>) -> (g: Group)
        requires
            forall|i: int| 0 <= i < recs@.len()
                ==> no_newline(#[trigger] views_of(recs@)[i].target),
        ensures
            g.inv(),
            g@.name == name@,
            g@.records == add_all(Seq::empty(), views_of(recs@)),
    {
        let ghost n = name@;
        let ghost rvs = views_of(recs@);
        let mut g = Group::new(name);
        let mut i: usize = 0;
        proof {
            assert(rvs.skip(0) =~= rvs);
        }
        while i < recs.len()
            invariant
                0 <= i <= recs@.len(),
                rvs == views_of(recs@),
                rvs.len() == recs@.len(),
                forall|k: int| 0 <= k < rvs.len() ==> no_newline(#[trigger] rvs[k].target),
                g.inv(),
                g@.name == n,
                add_all(Seq::empty(), rvs) == add_all(g@.records, rvs.skip(i as int)),
            decreases recs@.len() - i,
        {
            let r = &recs[i];
            let t = vstd::slice::slice_to_vec(r.target().as_slice());
            let p = r.priority();
            proof {
                assert(rvs[i as int] == recs@[i as int]@);
                assert(t@ == rvs[i as int].target);
                assert(no_newline(t@));
                assert(rvs.skip(i as int)[0] == rvs[i as int]);
                assert(rvs.skip(i as int).skip(1) =~= rvs.skip(i as int + 1));
            }
            let _ = g.add(t, p);
            i = i + 1;
        }
        proof {
            assert(rvs.skip(rvs.len() as int) =~= Seq::<RecordView>::empty());
        }
        g
    }

    /// The shared name the records compete under.
    pub fn name(&self) -> (r: &Vec<u8>)
        ensures
            r@ == self@.name,
    {
        &self.name
    }

    /// All registered records, in stored order.
    pub fn records(&self) -> (r: &Vec<Record>)
        ensures
            views_of(r@) == self@.records,
    {
        &self.records
    }

    /// All (target, priority) pairs, in stored order: a finite, restartable
    /// listing of the group's records.
    pub fn all(&self) -> (r: Vec<(Vec<u8>, i32)>)
        ensures
            r@.len() == self@.records.len(),
            forall|i: int| 0 <= i < r@.len()
                ==> (#[trigger] r@[i]).0@ == self@.records[i].target
                    && r@[i].1 as int == self@.records[i].priority,
    {
        let mut out: Vec<(Vec<u8>, i32)> = Vec::new();
        let mut i: usize = 0;
        while i < self.records.len()
            invariant
                0 <= i <= self.records@.len(),
                self@.records.len() == self.records@.len(),
                out@.len() == i,
                forall|k: int| 0 <= k < i
                    ==> (#[trigger] out@[k]).0@ == self@.records[k].target
                        && out@[k].1 as int == self@.records[k].priority,
            decreases self.records@.len() - i,
        {
            let r = &self.records[i];
            out.push((vstd::slice::slice_to_vec(r.target().as_slice()), r.priority()));
            proof {
                assert(self@.records[i as int] == self.records@[i as int]@);
            }
            i = i + 1;
        }
        out
    }

    /// How many records are registered.
    pub fn len(&self) -> (r: usize)
        ensures
            r == self@.records.len(),
    {
        self.records.len()
    }

    /// Index of the record for `target`, if one is registered.
    fn find(&self, target: &[u8]) -> (r: Option<usize>)
        ensures
            match r {
                Some(i) => i < self@.records.len()
                    && find_target(self@.records, target@) == Some(i as int),
                None => find_target(self@.records, target@) is None,
            },
    {
        let mut i: usize = 0;
        while i < self.records.len()
            invariant
                0 <= i <= self.records.len(),
                find_target(self@.records, target@)
                    == find_target_from(self@.records, target@, i as int),
            decreases self.records.len() - i,
        {
            if bytes_eq(self.records[i].target().as_slice(), target) {
                return Some(i);
            }
            i = i + 1;
        }
        None
    }

    /// Registers `(target, priority)`: replaces the priority of the existing
    /// record for `target`, or appends a new record. Reports whether the
    /// observable state changed; it never fails for a storable target.
    pub fn add(&mut self, target: Vec<u8>, priority: i32) -> (changed: bool)
        requires
            old(self).inv(),
            no_newline(target@),
        ensures
            final(self).inv(),
            final(self)@.name == old(self)@.name,
            final(self)@.records == add_rec(old(self)@.records, target@, priority as int),
            changed == !has_exact(old(self)@.records, target@, priority as int),
    {
        let ghost rs0 = self@.records;
        proof {
            lemma_find_target_spec(rs0, target@, 0);
            lemma_add_rec_wf(rs0, target@, priority as int);
        }
        match self.find(target.as_slice()) {
            Some(i) => {
                let ghost j = i as int;
                if self.records[i].priority() == priority {
                    proof {
                        assert(rs0[j] == (RecordView { target: target@, priority: priority as int }));
                        assert(add_rec(rs0, target@, priority as int) =~= rs0);
                        assert(has_exact(rs0, target@, priority as int));
                    }
                    false
                } else {
                    self.records.set(i, Record::from_parts(target, priority));
                    proof {
                        assert(self@.records =~= add_rec(rs0, target@, priority as int));
                        if has_exact(rs0, target@, priority as int) {
                            let k = choose|k: int| 0 <= k < rs0.len()
                                && rs0[k] == (RecordView { target: target@, priority: priority as int });
                            assert(rs0[k].target == target@);
                            assert(k == j);
                            assert(false);
                        }
                    }
                    true
                }
            },
            None => {
                self.records.push(Record::from_parts(target, priority));
                proof {
                    assert(self@.records =~= add_rec(rs0, target@, priority as int));
                    if has_exact(rs0, target@, priority as int) {
                        let k = choose|k: int| 0 <= k < rs0.len()
                            && rs0[k] == (RecordView { target: target@, priority: priority as int });
                        assert(rs0[k].target == target@);
                        assert(false);
                    }
                }
                true
            },
        }
    }

    /// Deletes the record for `target` if present; reports whether a record
    /// was removed. Removing an unregistered target is a no-op, not an error.
    pub fn remove(&mut self, target: &[u8]) -> (changed: bool)
        requires
            old(self).inv(),
        ensures
            final(self).inv(),
            final(self)@.name == old(self)@.name,
            final(self)@.records == remove_rec(old(self)@.records, target@),
            changed == has_target(old(self)@.records, target@),
    {
        let ghost rs0 = self@.records;
        proof {
            lemma_find_target_spec(rs0, target@, 0);
            lemma_find_target_has(rs0, target@);
            lemma_remove_rec_wf(rs0, target@);
        }
        match self.find(target) {
            Some(i) => {
                self.records.remove(i);
                proof {
                    assert(self@.records =~= remove_rec(rs0, target@));
                }
                true
            },
            None => false,
        }
    }

    /// The current selection: the record with maximum priority, ties broken
    /// toward the lexicographically smallest target; `None` when the group
    /// is empty. Recomputed from the stored set on every call, so it can
    /// never be stale.
    pub fn current(&self) -> (r: Option<&Record>)
        ensures
            match r {
                None => self@.records.len() == 0,
                Some(w) => current_of(self@.records) == Some(w@),
            },
    {
        if self.records.len() == 0 {
            return None;
        }
        let ghost rs = self@.records;
        let mut best: usize = 0;
        let mut i: usize = 1;
        proof {
            assert(rs.take(1) =~= seq![rs[0]]);
        }
        while i < self.records.len()
            invariant
                1 <= i <= self.records.len(),
                0 <= best < i,
                rs == self@.records,
                rs.len() == self.records.len(),
                max_rec(rs.take(i as int)) == rs[best as int],
            decreases self.records.len() - i,
        {
            let wins = record_beats(&self.records[i], &self.records[best]);
            proof {
                assert(rs.take(i as int + 1).drop_last() =~= rs.take(i as int));
                assert(rs.take(i as int + 1).last() == rs[i as int]);
            }
            if wins {
                best = i;
            }
            i = i + 1;
        }
        proof {
            assert(rs.take(rs.len() as int) =~= rs);
        }
        Some(&self.records[best])
    }
}

} // verus!
