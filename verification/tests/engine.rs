use update_alternatives::db::Database;
use update_alternatives::group::Group;
use update_alternatives::record::target_storable;
use std::collections::HashMap;

fn b(s: &str) -> Vec<u8> {
    s.as_bytes().to_vec()
}

fn pairs_of(g: &Group) -> Vec<(Vec<u8>, i32)> {
    g.records()
        .iter()
        .map(|r| (r.target().clone(), r.priority()))
        .collect()
}

#[test]
fn current_is_max_priority() {
    let mut g = Group::new(b("editor"));
    assert!(g.add(b("/usr/bin/vim"), 50));
    assert!(g.add(b("/usr/bin/nano"), 10));
    assert!(g.add(b("/usr/bin/emacs"), 30));
    let cur = g.current().expect("group is not empty");
    assert_eq!(cur.target().as_slice(), b"/usr/bin/vim");
    assert_eq!(cur.priority(), 50);
}

#[test]
fn tie_break_is_lexicographic() {
    let mut g = Group::new(b("editor"));
    g.add(b("/usr/bin/vim"), 50);
    g.add(b("/usr/bin/emacs"), 50);
    g.add(b("/usr/bin/nano"), 50);
    let cur = g.current().expect("group is not empty");
    assert_eq!(cur.target().as_slice(), b"/usr/bin/emacs");
}

#[test]
fn current_of_empty_group_is_none() {
    let g = Group::new(b("pager"));
    assert!(g.current().is_none());
    assert_eq!(g.len(), 0);
}

#[test]
fn add_twice_keeps_one_record() {
    let mut db = Database::new();
    assert!(db.add(b("editor"), b("/usr/bin/vim"), 1));
    assert!(db.add(b("editor"), b("/usr/bin/vim"), 99));
    let g = db.lookup(b"editor").expect("group exists");
    let ps = pairs_of(g);
    assert_eq!(ps, vec![(b("/usr/bin/vim"), 99)]);
}

#[test]
fn add_same_pair_reports_no_change() {
    let mut db = Database::new();
    assert!(db.add(b("editor"), b("/usr/bin/vim"), 7));
    assert!(!db.add(b("editor"), b("/usr/bin/vim"), 7));
    let g = db.lookup(b"editor").expect("group exists");
    assert_eq!(pairs_of(g), vec![(b("/usr/bin/vim"), 7)]);
}

#[test]
fn remove_absent_target_is_noop() {
    let mut db = Database::new();
    db.add(b("editor"), b("/usr/bin/vim"), 50);
    let before = pairs_of(db.lookup(b"editor").unwrap());
    assert!(!db.remove(b"editor", b"/usr/bin/nano"));
    let after = pairs_of(db.lookup(b"editor").unwrap());
    assert_eq!(before, after);
}

#[test]
fn remove_unknown_name_is_noop() {
    let mut db = Database::new();
    db.add(b("editor"), b("/usr/bin/vim"), 50);
    assert!(!db.remove(b"pager", b"/usr/bin/less"));
    assert_eq!(db.num_groups(), 1);
}

#[test]
fn lookup_unknown_name_is_none() {
    let db = Database::new();
    assert!(db.lookup(b"editor").is_none());
}

#[test]
fn end_to_end_editor() {
    let mut db = Database::new();
    assert!(db.add(b("editor"), b("/usr/bin/vim"), 50));
    assert!(db.add(b("editor"), b("/usr/bin/nvim"), 100));
    let cur = db.lookup(b"editor").unwrap().current().unwrap().target().clone();
    assert_eq!(cur, b("/usr/bin/nvim"));

    assert!(db.remove(b"editor", b"/usr/bin/nvim"));
    let cur = db.lookup(b"editor").unwrap().current().unwrap().target().clone();
    assert_eq!(cur, b("/usr/bin/vim"));

    assert!(db.remove(b"editor", b"/usr/bin/vim"));
    assert!(db.lookup(b"editor").unwrap().current().is_none());

    let plan = db.link_plan();
    assert_eq!(plan.len(), 1);
    assert_eq!(plan[0].0, b("editor"));
    assert!(plan[0].1.is_none());
}

#[test]
fn persist_then_load_round_trips() {
    let mut db = Database::new();
    db.add(b("editor"), b("/usr/bin/vim"), 50);
    db.add(b("editor"), b("/opt/my editor/bin"), -3);
    db.add(b("pager"), b("/usr/bin/less"), 0);
    let entries = db.to_entries();
    let (loaded, warnings) = Database::from_entries(&entries);
    assert!(warnings.is_empty());
    assert_eq!(loaded.num_groups(), 2);
    for g in db.groups().iter() {
        let g2 = loaded.lookup(g.name().as_slice()).expect("group survives");
        assert_eq!(pairs_of(g), pairs_of(g2));
    }
}

#[test]
fn round_trip_is_insertion_order_independent() {
    let mut db1 = Database::new();
    db1.add(b("editor"), b("/usr/bin/vim"), 50);
    db1.add(b("editor"), b("/usr/bin/nano"), 10);
    let mut db2 = Database::new();
    db2.add(b("editor"), b("/usr/bin/nano"), 10);
    db2.add(b("editor"), b("/usr/bin/vim"), 50);

    let (l1, w1) = Database::from_entries(&db1.to_entries());
    let (l2, w2) = Database::from_entries(&db2.to_entries());
    assert!(w1.is_empty() && w2.is_empty());
    let mut p1 = pairs_of(l1.lookup(b"editor").unwrap());
    let mut p2 = pairs_of(l2.lookup(b"editor").unwrap());
    p1.sort();
    p2.sort();
    assert_eq!(p1, p2);
    // And the winner is the same whatever the stored order was.
    assert_eq!(
        l1.lookup(b"editor").unwrap().current().unwrap().target(),
        l2.lookup(b"editor").unwrap().current().unwrap().target()
    );
}

#[test]
fn load_skips_corrupted_file() {
    let entries = vec![
        (b("editor"), b("/usr/bin/vim 50\n")),
        (b("broken"), b("this is not a record\n")),
    ];
    let (db, warnings) = Database::from_entries(&entries);
    assert_eq!(db.num_groups(), 1);
    assert!(db.lookup(b"editor").is_some());
    assert!(db.lookup(b"broken").is_none());
    assert_eq!(warnings, vec![b("broken")]);
}

#[test]
fn load_empty_file_gives_empty_group() {
    let entries = vec![(b("editor"), Vec::new())];
    let (db, warnings) = Database::from_entries(&entries);
    assert!(warnings.is_empty());
    let g = db.lookup(b"editor").expect("empty file still names a group");
    assert_eq!(g.len(), 0);
    assert!(g.current().is_none());
}

#[test]
fn load_duplicate_name_warns_and_keeps_first() {
    let entries = vec![
        (b("editor"), b("/usr/bin/vim 50\n")),
        (b("editor"), b("/usr/bin/nano 10\n")),
    ];
    let (db, warnings) = Database::from_entries(&entries);
    assert_eq!(db.num_groups(), 1);
    assert_eq!(pairs_of(db.lookup(b"editor").unwrap()), vec![(b("/usr/bin/vim"), 50)]);
    assert_eq!(warnings, vec![b("editor")]);
}

#[test]
fn load_duplicate_target_keeps_last_priority() {
    let entries = vec![(b("editor"), b("/usr/bin/vim 1\n/usr/bin/vim 2\n"))];
    let (db, warnings) = Database::from_entries(&entries);
    assert!(warnings.is_empty());
    assert_eq!(pairs_of(db.lookup(b"editor").unwrap()), vec![(b("/usr/bin/vim"), 2)]);
}

#[test]
fn materialize_plan_is_deterministic_and_idempotent() {
    let mut db = Database::new();
    db.add(b("editor"), b("/usr/bin/vim"), 50);
    db.add(b("pager"), b("/usr/bin/less"), 1);
    db.add(b("viewer"), b("/usr/bin/eog"), 3);
    db.remove(b"viewer", b"/usr/bin/eog");

    let plan1 = db.link_plan();
    let plan2 = db.link_plan();
    assert_eq!(plan1, plan2);

    // Apply the plan twice to a model link directory: the second pass must
    // leave the state of the first pass unchanged.
    let mut links: HashMap<Vec<u8>, Vec<u8>> = HashMap::new();
    links.insert(b("viewer"), b("/usr/bin/stale"));
    for (name, act) in &plan1 {
        match act {
            Some(t) => {
                links.insert(name.clone(), t.clone());
            }
            None => {
                links.remove(name);
            }
        }
    }
    let after_once = links.clone();
    for (name, act) in &plan2 {
        match act {
            Some(t) => {
                links.insert(name.clone(), t.clone());
            }
            None => {
                links.remove(name);
            }
        }
    }
    assert_eq!(after_once, links);
    assert_eq!(links.get(&b("editor")), Some(&b("/usr/bin/vim")));
    assert!(!links.contains_key(&b("viewer")));
}

#[test]
fn all_lists_pairs_in_stored_order() {
    let mut g = Group::new(b("editor"));
    g.add(b("/usr/bin/vim"), 50);
    g.add(b("/usr/bin/nano"), 10);
    g.add(b("/usr/bin/vim"), 60);
    assert_eq!(
        g.all(),
        vec![(b("/usr/bin/vim"), 60), (b("/usr/bin/nano"), 10)]
    );
}

#[test]
fn storable_targets_are_recognised() {
    assert!(target_storable(b"/usr/bin/vim"));
    assert!(target_storable(b"/opt/my editor/bin"));
    assert!(target_storable(b""));
    assert!(!target_storable(b"/usr/bin/vim\n"));
    assert!(!target_storable(b"\n"));
}
