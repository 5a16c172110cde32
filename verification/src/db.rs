//! The database: a mapping from name to alternative group. It is loaded
//! from and persisted to a storage directory, one file per name; file
//! contents pass through here as plain (name, content) byte pairs, while
//! reading and writing the directory itself is the caller's concern.

use vstd::prelude::*;
use vstd::slice::slice_to_vec;
use crate::order::bytes_eq;
use crate::record::{RecordView, no_newline};
use crate::group::{
    Group, GroupView, records_wf, targets_distinct, add_rec, remove_rec, has_target, has_exact,
    add_all, views_of, current_of, lemma_add_all_fresh,
};
use crate::codec::{
    parse_content, encode_records, parse_records, encode_group, encodable,
    lemma_parse_content_targets_storable, lemma_encode_parse_round_trip,
};
use crate::links::{
    plan_of, plan_views, act_view, resolved, apply_plan, plan_names_distinct,
    lemma_apply_plan_idem,
};

verus! {

/// The group views held in a vector of groups.
pub open spec fn group_views_of(gs: Seq<Group>) -> Seq<GroupView> {
    gs.map_values(|g: Group| g@)
}

/// The byte-string views held in a vector of byte strings.
pub open spec fn byte_views(ws: Seq<Vec<u8>>) -> Seq<Seq<u8>> {
    ws.map_values(|w: Vec<u8>| w@)
}

/// The (name, content) views held in a vector of storage entries.
pub open spec fn entry_views(es: Seq<(Vec<u8>, Vec<u8>)>) -> Seq<(Seq<u8>, Seq<u8>)> {
    es.map_values(|e: (Vec<u8>, Vec<u8>)| (e.0@, e.1@))
}

/// No two groups share a name.
pub open spec fn names_distinct(gs: Seq<GroupView>) -> bool {
    forall|i: int, j: int| 0 <= i < j < gs.len() ==> gs[i].name != gs[j].name
}

/// Well-formed database: distinct names, every group well formed.
pub open spec fn db_wf(gs: Seq<GroupView>) -> bool {
    &&& names_distinct(gs)
    &&& forall|i: int| 0 <= i < gs.len() ==> records_wf((#[trigger] gs[i]).records)
}

/// Some group is registered under `n`.
pub open spec fn has_name(gs: Seq<GroupView>, n: Seq<u8>) -> bool {
    exists|i: int| 0 <= i < gs.len() && gs[i].name == n
}

/// Index of the first group named `n` at or after position `i`.
pub open spec fn find_name_from(gs: Seq<GroupView>, n: Seq<u8>, i: int) -> Option<int>
    decreases gs.len() - i,
{
    if i >= gs.len() {
        None
    } else if gs[i].name == n {
        Some(i)
    } else {
        find_name_from(gs, n, i + 1)
    }
}

/// Index of the group named `n`, if any.
pub open spec fn find_name(gs: Seq<GroupView>, n: Seq<u8>) -> Option<int> {
    find_name_from(gs, n, 0)
}

/// What `find_name_from` returns.
pub proof fn lemma_find_name_spec(gs: Seq<GroupView>, n: Seq<u8>, i: int)
    requires
        0 <= i,
    ensures
        match find_name_from(gs, n, i) {
            Some(j) => i <= j < gs.len() && gs[j].name == n
                && (forall|k: int| i <= k < j ==> gs[k].name != n),
            None => forall|k: int| i <= k < gs.len() ==> gs[k].name != n,
        },
    decreases gs.len() - i,
{
    if i < gs.len() && gs[i].name != n {
        lemma_find_name_spec(gs, n, i + 1);
    }
}

/// `has_name` holds exactly when `find_name` finds an index.
pub proof fn lemma_find_name_has(gs: Seq<GroupView>, n: Seq<u8>)
    ensures
        has_name(gs, n) <==> find_name(gs, n) is Some,
{
    lemma_find_name_spec(gs, n, 0);
    if find_name(gs, n) is None && has_name(gs, n) {
        let i = choose|i: int| 0 <= i < gs.len() && gs[i].name == n;
        assert(gs[i].name != n);
    }
}

/// Effect of `add` on the database: extends the group for `name`, creating
/// it first when absent.
pub open spec fn db_add(gs: Seq<GroupView>, name: Seq<u8>, t: Seq<u8>, p: int) -> Seq<GroupView> {
    match find_name(gs, name) {
        Some(i) => gs.update(
            i,
            GroupView { name: gs[i].name, records: add_rec(gs[i].records, t, p) },
        ),
        None => gs.push(
            GroupView { name, records: seq![RecordView { target: t, priority: p }] },
        ),
    }
}

/// Effect of `remove` on the database: deletes the record for `t` from the
/// group for `name`; with no such group, the database is unchanged.
pub open spec fn db_remove(gs: Seq<GroupView>, name: Seq<u8>, t: Seq<u8>) -> Seq<GroupView> {
    match find_name(gs, name) {
        Some(i) => gs.update(
            i,
            GroupView { name: gs[i].name, records: remove_rec(gs[i].records, t) },
        ),
        None => gs,
    }
}

/// The exact record `(t, p)` is registered under `name`.
pub open spec fn db_has_exact(gs: Seq<GroupView>, name: Seq<u8>, t: Seq<u8>, p: int) -> bool {
    exists|i: int| 0 <= i < gs.len() && (#[trigger] gs[i]).name == name
        && has_exact(gs[i].records, t, p)
}

/// Some record for `t` is registered under `name`.
pub open spec fn db_has_target(gs: Seq<GroupView>, name: Seq<u8>, t: Seq<u8>) -> bool {
    exists|i: int| 0 <= i < gs.len() && (#[trigger] gs[i]).name == name
        && has_target(gs[i].records, t)
}

/// The group one storage file denotes, by name and content; `None` for a
/// file that does not parse.
pub open spec fn load_entry(name: Seq<u8>, content: Seq<u8>) -> Option<GroupView> {
    match parse_content(content) {
        Some(rs) => Some(GroupView { name, records: add_all(Seq::empty(), rs) }),
        None => None,
    }
}

/// The database and warning list a storage directory denotes. Entries are
/// taken in order; a file that does not parse, or whose name was already
/// loaded, contributes one warning and never aborts the rest of the load.
pub open spec fn load_spec(entries: Seq<(Seq<u8>, Seq<u8>)>) -> (Seq<GroupView>, Seq<Seq<u8>>)
    decreases entries.len(),
{
    if entries.len() == 0 {
        (Seq::empty(), Seq::empty())
    } else {
        let prev = load_spec(entries.drop_last());
        let gs = prev.0;
        let ws = prev.1;
        let name = entries.last().0;
        let content = entries.last().1;
        if has_name(gs, name) {
            (gs, ws.push(name))
        } else {
            match load_entry(name, content) {
                Some(g) => (gs.push(g), ws),
                None => (gs, ws.push(name)),
            }
        }
    }
}

/// The mapping from name to alternative group, loaded at process start,
/// mutated in memory, and written back wholesale on commit.
pub struct Database {
    groups: Vec<Group>,
}

impl View for Database {
    type V = Seq<GroupView>;

    closed spec fn view(&self) -> Seq<GroupView> {
        group_views_of(self.groups@)
    }
}

impl Database {
    /// The database is well formed.
    pub open spec fn inv(&self) -> bool {
        db_wf(self@)
    }

    /// An empty database.
    pub fn new() -> (db: Database)
        ensures
            db@ == Seq::<GroupView>::empty(),
            db.inv(),
    {
        let db = Database { groups: Vec::new() };
        proof {
            assert(group_views_of(db.groups@) =~= Seq::<GroupView>::empty());
        }
        db
    }

    /// How many groups are registered.
    pub fn num_groups(&self) -> (r: usize)
        ensures
            r == self@.len(),
    {
        self.groups.len()
    }

    /// All groups, in stable load order.
    pub fn groups(&self) -> (r: &Vec<Group>)
        ensures
            group_views_of(r@) == self@,
    {
        &self.groups
    }

    /// Index of the group named `name`, if one is registered.
    fn find(&self, name: &[u8]) -> (r: Option<usize>)
        ensures
            match r {
                Some(i) => i < self@.len() && find_name(self@, name@) == Some(i as int),
                None => find_name(self@, name@) is None,
            },
    {
        let mut i: usize = 0;
        while i < self.groups.len()
            invariant
                0 <= i <= self.groups@.len(),
                self@.len() == self.groups@.len(),
                find_name(self@, name@) == find_name_from(self@, name@, i as int),
            decreases self.groups@.len() - i,
        {
            if bytes_eq(self.groups[i].name().as_slice(), name) {
                return Some(i);
            }
            i = i + 1;
        }
        None
    }

    /// The group registered under `name`, or `None`.
    pub fn lookup(&self, name: &[u8]) -> (r: Option<&Group>)
        ensures
            match r {
                Some(g) => ({
                    &&& has_name(self@, name@)
                    &&& g@.name == name@
                    &&& find_name(self@, name@) is Some
                    &&& g@ == self@[find_name(self@, name@)->Some_0]
                }),
                None => !has_name(self@, name@),
            },
    {
        proof {
            lemma_find_name_spec(self@, name@, 0);
            lemma_find_name_has(self@, name@);
        }
        match self.find(name) {
            Some(i) => Some(&self.groups[i]),
            None => None,
        }
    }

    /// Registers `(target, priority)` under `name`, creating the group when
    /// absent; never fails for a storable target. Reports whether the
    /// observable state changed, so the caller knows whether to persist.
    pub fn add(&mut self, name: Vec<u8>, target: Vec<u8>, priority: i32) -> (changed: bool)
        requires
            old(self).inv(),
            no_newline(target@),
        ensures
            final(self).inv(),
            final(self)@ == db_add(old(self)@, name@, target@, priority as int),
            changed == !db_has_exact(old(self)@, name@, target@, priority as int),
    {
        let ghost gs0 = self@;
        proof {
            lemma_find_name_spec(gs0, name@, 0);
        }
        match self.find(name.as_slice()) {
            Some(i) => {
                let ghost j = i as int;
                let mut g = self.groups.remove(i);
                let changed = g.add(target, priority);
                let ghost gv = g@;
                self.groups.insert(i, g);
                proof {
                    assert(self@ =~= db_add(gs0, name@, target@, priority as int)) by {
                        assert(self.groups@ == old(self).groups@.remove(j).insert(j, g));
                        assert forall|k: int| 0 <= k < self@.len() implies
                            self@[k] == db_add(gs0, name@, target@, priority as int)[k] by {
                            if k < j {
                                assert(self.groups@[k] == old(self).groups@[k]);
                            } else if k == j {
                                assert(self.groups@[k] == g);
                            } else {
                                assert(self.groups@[k] == old(self).groups@.remove(j)[k - 1]);
                                assert(old(self).groups@.remove(j)[k - 1] == old(self).groups@[k]);
                            }
                        }
                    }
                    assert(final(self).inv()) by {
                        let gs1 = db_add(gs0, name@, target@, priority as int);
                        assert forall|a: int, b: int| 0 <= a < b < gs1.len()
                            implies gs1[a].name != gs1[b].name by {
                            assert(gs1[a].name == gs0[a].name);
                            assert(gs1[b].name == gs0[b].name);
                        }
                        assert forall|k: int| 0 <= k < gs1.len()
                            implies records_wf((#[trigger] gs1[k]).records) by {
                            if k != j {
                                assert(gs1[k] == gs0[k]);
                            } else {
                                assert(gs1[k].records == gv.records);
                            }
                        }
                    }
                    assert(changed == !db_has_exact(gs0, name@, target@, priority as int)) by {
                        if db_has_exact(gs0, name@, target@, priority as int) {
                            let k = choose|k: int| 0 <= k < gs0.len()
                                && (#[trigger] gs0[k]).name == name@
                                && has_exact(gs0[k].records, target@, priority as int);
                            if k != j {
                                assert(gs0[k].name == gs0[j].name);
                                assert(false);
                            }
                        }
                    }
                }
                changed
            },
            None => {
                let mut g = Group::new(name);
                let _ = g.add(target, priority);
                let ghost gv = g@;
                self.groups.push(g);
                proof {
                    assert(gv.records =~= seq![RecordView { target: target@, priority: priority as int }]);
                    assert(self@ =~= db_add(gs0, name@, target@, priority as int)) by {
                        assert forall|k: int| 0 <= k < self@.len() implies
                            self@[k] == db_add(gs0, name@, target@, priority as int)[k] by {
                            if k < gs0.len() {
                                assert(self.groups@[k] == old(self).groups@[k]);
                            }
                        }
                    }
                    assert(final(self).inv()) by {
                        let gs1 = db_add(gs0, name@, target@, priority as int);
                        assert forall|a: int, b: int| 0 <= a < b < gs1.len()
                            implies gs1[a].name != gs1[b].name by {
                            if b < gs0.len() {
                                assert(gs1[a] == gs0[a]);
                                assert(gs1[b] == gs0[b]);
                            } else {
                                assert(gs1[a] == gs0[a]);
                                assert(gs1[b].name == name@);
                                assert(gs0[a].name != name@);
                            }
                        }
                        assert forall|k: int| 0 <= k < gs1.len()
                            implies records_wf((#[trigger] gs1[k]).records) by {
                            if k < gs0.len() {
                                assert(gs1[k] == gs0[k]);
                            } else {
                                assert(gs1[k].records == gv.records);
                            }
                        }
                    }
                    assert(!db_has_exact(gs0, name@, target@, priority as int)) by {
                        if db_has_exact(gs0, name@, target@, priority as int) {
                            let k = choose|k: int| 0 <= k < gs0.len()
                                && (#[trigger] gs0[k]).name == name@
                                && has_exact(gs0[k].records, target@, priority as int);
                            assert(gs0[k].name != name@);
                        }
                    }
                }
                true
            },
        }
    }

    /// Deletes the record for `target` from the group for `name`; an unknown
    /// name or target is a no-op reported as `false`, not an error.
    pub fn remove(&mut self, name: &[u8], target: &[u8]) -> (changed: bool)
        requires
            old(self).inv(),
        ensures
            final(self).inv(),
            final(self)@ == db_remove(old(self)@, name@, target@),
            changed == db_has_target(old(self)@, name@, target@),
    {
        let ghost gs0 = self@;
        proof {
            lemma_find_name_spec(gs0, name@, 0);
        }
        match self.find(name) {
            Some(i) => {
                let ghost j = i as int;
                let mut g = self.groups.remove(i);
                let changed = g.remove(target);
                let ghost gv = g@;
                self.groups.insert(i, g);
                proof {
                    assert(self@ =~= db_remove(gs0, name@, target@)) by {
                        assert forall|k: int| 0 <= k < self@.len() implies
                            self@[k] == db_remove(gs0, name@, target@)[k] by {
                            if k < j {
                                assert(self.groups@[k] == old(self).groups@[k]);
                            } else if k == j {
                                assert(self.groups@[k] == g);
                            } else {
                                assert(self.groups@[k] == old(self).groups@.remove(j)[k - 1]);
                                assert(old(self).groups@.remove(j)[k - 1] == old(self).groups@[k]);
                            }
                        }
                    }
                    assert(final(self).inv()) by {
                        let gs1 = db_remove(gs0, name@, target@);
                        assert forall|a: int, b: int| 0 <= a < b < gs1.len()
                            implies gs1[a].name != gs1[b].name by {
                            assert(gs1[a].name == gs0[a].name);
                            assert(gs1[b].name == gs0[b].name);
                        }
                        assert forall|k: int| 0 <= k < gs1.len()
                            implies records_wf((#[trigger] gs1[k]).records) by {
                            if k != j {
                                assert(gs1[k] == gs0[k]);
                            } else {
                                assert(gs1[k].records == gv.records);
                            }
                        }
                    }
                    assert(changed == db_has_target(gs0, name@, target@)) by {
                        if db_has_target(gs0, name@, target@) {
                            let k = choose|k: int| 0 <= k < gs0.len()
                                && (#[trigger] gs0[k]).name == name@
                                && has_target(gs0[k].records, target@);
                            if k != j {
                                assert(gs0[k].name == gs0[j].name);
                                assert(false);
                            }
                        }
                        if changed {
                            assert(gs0[j].name == name@);
                            assert(has_target(gs0[j].records, target@));
                        }
                    }
                }
                changed
            },
            None => {
                proof {
                    if db_has_target(gs0, name@, target@) {
                        let k = choose|k: int| 0 <= k < gs0.len()
                            && (#[trigger] gs0[k]).name == name@
                            && has_target(gs0[k].records, target@);
                        assert(gs0[k].name != name@);
                    }
                }
                false
            },
        }
    }

    /// Loads a database from a storage directory's (file name, content)
    /// entries. A file that does not parse, or whose name was already
    /// loaded, contributes one warning and never aborts the rest of the
    /// load; an empty file yields an empty group, not an error.
    pub fn from_entries(entries: &Vec<(Vec<u8>, Vec<u8>)>) -> (r: (Database, Vec<Vec<u8>>))
        ensures
            r.0.inv(),
            r.0@ == load_spec(entry_views(entries@)).0,
            byte_views(r.1@) == load_spec(entry_views(entries@)).1,
    {
        let ghost ev = entry_views(entries@);
        let mut db = Database::new();
        let mut warnings: Vec<Vec<u8>> = Vec::new();
        let mut i: usize = 0;
        proof {
            assert(ev.take(0) =~= Seq::<(Seq<u8>, Seq<u8>)>::empty());
            assert(byte_views(warnings@) =~= Seq::<Seq<u8>>::empty());
        }
        while i < entries.len()
            invariant
                0 <= i <= entries@.len(),
                ev == entry_views(entries@),
                ev.len() == entries@.len(),
                db.inv(),
                db@ == load_spec(ev.take(i as int)).0,
                byte_views(warnings@) == load_spec(ev.take(i as int)).1,
            decreases entries@.len() - i,
        {
            let ghost gs = db@;
            let ghost ws = byte_views(warnings@);
            proof {
                assert(ev.take(i as int + 1).drop_last() =~= ev.take(i as int));
                assert(ev.take(i as int + 1).last() == ev[i as int]);
                assert(ev[i as int] == (entries@[i as int].0@, entries@[i as int].1@));
                lemma_find_name_has(gs, entries@[i as int].0@);
            }
            let e = &entries[i];
            match db.find(e.0.as_slice()) {
                Some(_) => {
                    warnings.push(slice_to_vec(e.0.as_slice()));
                    proof {
                        assert(has_name(gs, ev[i as int].0));
                        assert(byte_views(warnings@) =~= ws.push(ev[i as int].0));
                    }
                },
                None => {
                    proof {
                        assert(!has_name(gs, ev[i as int].0));
                        lemma_find_name_spec(gs, ev[i as int].0, 0);
                    }
                    match parse_records(e.1.as_slice()) {
                        Some(recs) => {
                            proof {
                                lemma_parse_content_targets_storable(e.1@);
                            }
                            let g = Group::from_records(slice_to_vec(e.0.as_slice()), &recs);
                            let ghost gv = g@;
                            db.groups.push(g);
                            proof {
                                assert(parse_content(ev[i as int].1) == Some(views_of(recs@)));
                                assert(gv =~= (GroupView {
                                    name: ev[i as int].0,
                                    records: add_all(Seq::empty(), views_of(recs@)),
                                }));
                                assert(load_entry(ev[i as int].0, ev[i as int].1) == Some(gv));
                                assert(db@ =~= gs.push(gv));
                                assert(db.inv()) by {
                                    let gs1 = gs.push(gv);
                                    assert forall|a: int, b: int| 0 <= a < b < gs1.len()
                                        implies gs1[a].name != gs1[b].name by {
                                        if b < gs.len() {
                                            assert(gs1[a] == gs[a]);
                                            assert(gs1[b] == gs[b]);
                                        } else {
                                            assert(gs1[a] == gs[a]);
                                            assert(gs[a].name != ev[i as int].0);
                                        }
                                    }
                                    assert forall|k: int| 0 <= k < gs1.len()
                                        implies records_wf((#[trigger] gs1[k]).records) by {
                                        if k < gs.len() {
                                            assert(gs1[k] == gs[k]);
                                        } else {
                                            assert(gs1[k] == gv);
                                        }
                                    }
                                }
                            }
                        },
                        None => {
                            warnings.push(slice_to_vec(e.0.as_slice()));
                            proof {
                                assert(parse_content(ev[i as int].1) is None);
                                assert(load_entry(ev[i as int].0, ev[i as int].1) is None);
                                assert(byte_views(warnings@) =~= ws.push(ev[i as int].0));
                            }
                        },
                    }
                },
            }
            i = i + 1;
        }
        proof {
            assert(ev.take(ev.len() as int) =~= ev);
        }
        (db, warnings)
    }

    /// Serializes every group to its (file name, content) pair, in stable
    /// order: the whole database, written back wholesale.
    pub fn to_entries(&self) -> (r: Vec<(Vec<u8>, Vec<u8>)>)
        ensures
            r@.len() == self@.len(),
            forall|i: int| 0 <= i < r@.len()
                ==> (#[trigger] r@[i]).0@ == self@[i].name
                    && r@[i].1@ == encode_records(self@[i].records),
    {
        let mut out: Vec<(Vec<u8>, Vec<u8>)> = Vec::new();
        let mut i: usize = 0;
        while i < self.groups.len()
            invariant
                0 <= i <= self.groups@.len(),
                self@.len() == self.groups@.len(),
                out@.len() == i,
                forall|k: int| 0 <= k < i
                    ==> (#[trigger] out@[k]).0@ == self@[k].name
                        && out@[k].1@ == encode_records(self@[k].records),
            decreases self.groups@.len() - i,
        {
            let g = &self.groups[i];
            let name_copy = slice_to_vec(g.name().as_slice());
            let content = encode_group(g.records());
            out.push((name_copy, content));
            proof {
                assert(self@[i as int] == self.groups@[i as int]@);
            }
            i = i + 1;
        }
        out
    }

    /// The materialization plan: one action per group, in order — point the
    /// link named after the group at its winner's target, or remove the
    /// link of a group left without records.
    pub fn link_plan(&self) -> (r: Vec<(Vec<u8>, Option<Vec<u8>>)>)
        ensures
            plan_views(r@) == plan_of(self@),
    {
        let mut out: Vec<(Vec<u8>, Option<Vec<u8>>)> = Vec::new();
        let mut i: usize = 0;
        while i < self.groups.len()
            invariant
                0 <= i <= self.groups@.len(),
                self@.len() == self.groups@.len(),
                out@.len() == i,
                forall|k: int| 0 <= k < i
                    ==> act_view(#[trigger] out@[k]) == (self@[k].name, resolved(self@[k])),
            decreases self.groups@.len() - i,
        {
            let g = &self.groups[i];
            let name_copy = slice_to_vec(g.name().as_slice());
            let act: Option<Vec<u8>> = match g.current() {
                Some(rec) => Some(slice_to_vec(rec.target().as_slice())),
                None => None,
            };
            out.push((name_copy, act));
            proof {
                assert(self@[i as int] == self.groups@[i as int]@);
                assert(act_view(out@[i as int]) == (self@[i as int].name, resolved(self@[i as int])));
            }
            i = i + 1;
        }
        proof {
            assert(plan_views(out@) =~= plan_of(self@));
        }
        out
    }
}

/// Every record of the group fits the line format.
pub open spec fn group_encodable(g: GroupView) -> bool {
    forall|j: int| 0 <= j < g.records.len() ==> encodable(#[trigger] g.records[j])
}

/// Persisting one group and loading the file back reproduces exactly the
/// same sequence of records — and with it the same set of
/// (target, priority) pairs, independent of the order they were inserted in.
pub proof fn lemma_group_round_trip(g: GroupView)
    requires
        targets_distinct(g.records),
        group_encodable(g),
    ensures
        load_entry(g.name, encode_records(g.records)) == Some(g),
{
    lemma_encode_parse_round_trip(g.records);
    assert(Seq::<RecordView>::empty() + g.records =~= g.records);
    lemma_add_all_fresh(Seq::empty(), g.records);
    assert(add_all(Seq::empty(), g.records) == g.records);
    assert((GroupView { name: g.name, records: g.records }) =~= g);
}

/// The (file name, content) pairs that persisting a database writes.
pub open spec fn entries_of(gs: Seq<GroupView>) -> Seq<(Seq<u8>, Seq<u8>)> {
    gs.map_values(|g: GroupView| (g.name, encode_records(g.records)))
}

/// Persisting a well-formed database and loading the files back reproduces
/// it exactly, with no warnings.
pub proof fn lemma_db_round_trip(gs: Seq<GroupView>)
    requires
        db_wf(gs),
        forall|i: int| 0 <= i < gs.len() ==> group_encodable(#[trigger] gs[i]),
    ensures
        load_spec(entries_of(gs)).0 == gs,
        load_spec(entries_of(gs)).1 == Seq::<Seq<u8>>::empty(),
    decreases gs.len(),
{
    let es = entries_of(gs);
    if gs.len() == 0 {
        assert(es =~= Seq::<(Seq<u8>, Seq<u8>)>::empty());
    } else {
        let prefix = gs.drop_last();
        let last = gs.last();
        assert(db_wf(prefix)) by {
            assert forall|a: int, b: int| 0 <= a < b < prefix.len()
                implies prefix[a].name != prefix[b].name by {
                assert(prefix[a] == gs[a]);
                assert(prefix[b] == gs[b]);
            }
            assert forall|k: int| 0 <= k < prefix.len()
                implies records_wf((#[trigger] prefix[k]).records) by {
                assert(prefix[k] == gs[k]);
            }
        }
        assert forall|k: int| 0 <= k < prefix.len()
            implies group_encodable(#[trigger] prefix[k]) by {
            assert(prefix[k] == gs[k]);
        }
        lemma_db_round_trip(prefix);
        assert(es.drop_last() =~= entries_of(prefix));
        assert(es.last() == (last.name, encode_records(last.records)));
        assert(!has_name(prefix, last.name)) by {
            if has_name(prefix, last.name) {
                let k = choose|k: int| 0 <= k < prefix.len() && prefix[k].name == last.name;
                assert(gs[k].name == gs[gs.len() - 1].name);
                assert(false);
            }
        }
        assert(targets_distinct(last.records));
        lemma_group_round_trip(last);
        assert(load_spec(es).0 == prefix.push(last));
        assert(prefix.push(last) =~= gs);
    }
}

/// Materializing twice in a row with no intervening mutation produces the
/// same final link state: re-applying the plan of a database whose group
/// names are distinct changes nothing. The plan itself is a pure function
/// of the database, so the second call plans the very same actions.
pub proof fn lemma_materialize_idempotent(m: Map<Seq<u8>, Seq<u8>>, gs: Seq<GroupView>)
    requires
        names_distinct(gs),
    ensures
        apply_plan(apply_plan(m, plan_of(gs)), plan_of(gs)) == apply_plan(m, plan_of(gs)),
{
    assert(plan_names_distinct(plan_of(gs))) by {
        assert forall|i: int, j: int| 0 <= i < j < plan_of(gs).len()
            implies plan_of(gs)[i].0 != plan_of(gs)[j].0 by {
            assert(plan_of(gs)[i].0 == gs[i].name);
            assert(plan_of(gs)[j].0 == gs[j].name);
        }
    }
    lemma_apply_plan_idem(m, plan_of(gs));
}

} // verus!
