use name_index::event::{ChangeEvent, Entity};
use name_index::maintain::NameTableBookkeeping;
use name_index::name::Name;
use name_index::store::NameStore;
use name_index::table::NameTable;

fn snapshot(table: &NameTable) -> Vec<(String, u64)> {
    let mut pairs: Vec<(String, u64)> = table
        .iter()
        .into_iter()
        .map(|(name, ent)| (name.as_str().to_string(), ent.id))
        .collect();
    // iteration order is unspecified: sort at the test boundary
    pairs.sort();
    pairs
}

#[test]
fn two_inserts_land_under_their_texts() {
    let mut store = NameStore::new();
    let mut table = NameTable::default();
    let mut keeper = NameTableBookkeeping::new(&store);
    store.insert(1, Name::new("a".to_string()));
    store.insert(2, Name::new("b".to_string()));
    let warnings = keeper.run(&store, &mut table);
    assert!(warnings.is_empty());
    assert_eq!(table.get("a"), Some(Entity { id: 1 }));
    assert_eq!(table.get("b"), Some(Entity { id: 2 }));
    assert_eq!(snapshot(&table), vec![("a".to_string(), 1), ("b".to_string(), 2)]);
}

#[test]
fn modify_rekeys_under_the_new_text() {
    let mut store = NameStore::new();
    let mut table = NameTable::default();
    let mut keeper = NameTableBookkeeping::new(&store);
    store.insert(1, Name::new("a".to_string()));
    assert!(keeper.run(&store, &mut table).is_empty());
    assert_eq!(table.get("a"), Some(Entity { id: 1 }));
    // an in-place overwrite is observed as one Modified event
    store.insert(1, Name::new("c".to_string()));
    let warnings = keeper.run(&store, &mut table);
    assert!(warnings.is_empty());
    assert_eq!(table.get("c"), Some(Entity { id: 1 }));
    // the removal pass evicts by the handle's current (post-change) text, so
    // the entry under the old text is out of its reach and stays behind
    assert_eq!(table.get("a"), Some(Entity { id: 1 }));
}

#[test]
fn same_step_collision_is_reported_once() {
    let mut store = NameStore::new();
    let mut table = NameTable::default();
    let mut keeper = NameTableBookkeeping::new(&store);
    store.insert(1, Name::new("x".to_string()));
    store.insert(2, Name::new("x".to_string()));
    let warnings = keeper.run(&store, &mut table);
    assert_eq!(warnings.len(), 1);
    assert_eq!(warnings[0].incoming, Entity { id: 2 });
    assert_eq!(warnings[0].name.as_str(), "x");
    assert_eq!(warnings[0].previous, Entity { id: 1 });
    // the later write of the pass is the final occupant
    assert_eq!(table.get("x"), Some(Entity { id: 2 }));
    assert_eq!(snapshot(&table).len(), 1);
}

#[test]
fn stacked_collisions_are_reported_in_pass_order() {
    let mut store = NameStore::new();
    let mut table = NameTable::default();
    let mut keeper = NameTableBookkeeping::new(&store);
    store.insert(1, Name::new("x".to_string()));
    store.insert(2, Name::new("x".to_string()));
    store.insert(3, Name::new("x".to_string()));
    let warnings = keeper.run(&store, &mut table);
    assert_eq!(warnings.len(), 2);
    assert_eq!(warnings[0].incoming, Entity { id: 2 });
    assert_eq!(warnings[0].previous, Entity { id: 1 });
    assert_eq!(warnings[1].incoming, Entity { id: 3 });
    assert_eq!(warnings[1].previous, Entity { id: 2 });
    assert_eq!(table.get("x"), Some(Entity { id: 3 }));
}

#[test]
fn true_deletion_leaves_a_stale_entry() {
    let mut store = NameStore::new();
    let mut table = NameTable::default();
    let mut keeper = NameTableBookkeeping::new(&store);
    store.insert(1, Name::new("x".to_string()));
    assert!(keeper.run(&store, &mut table).is_empty());
    assert_eq!(table.get("x"), Some(Entity { id: 1 }));
    // deleting the attribute outright leaves the handle with no current
    // value, so the removal pass cannot locate the entry: it persists
    store.remove(1);
    let warnings = keeper.run(&store, &mut table);
    assert!(warnings.is_empty());
    assert_eq!(table.get("x"), Some(Entity { id: 1 }));
}

#[test]
fn empty_step_changes_nothing() {
    let mut store = NameStore::new();
    let mut table = NameTable::default();
    let mut keeper = NameTableBookkeeping::new(&store);
    store.insert(1, Name::new("a".to_string()));
    store.insert(2, Name::new("b".to_string()));
    keeper.run(&store, &mut table);
    let before = snapshot(&table);
    let warnings = keeper.run(&store, &mut table);
    assert!(warnings.is_empty());
    assert_eq!(snapshot(&table), before);
}

#[test]
fn same_step_changes_to_one_handle_collapse() {
    let mut store = NameStore::new();
    let mut table = NameTable::default();
    let mut keeper = NameTableBookkeeping::new(&store);
    store.insert(1, Name::new("a".to_string()));
    store.insert(1, Name::new("b".to_string()));
    let warnings = keeper.run(&store, &mut table);
    assert!(warnings.is_empty());
    // only the end-of-step value is written; "a" was never in the table
    assert_eq!(table.get("a"), None);
    assert_eq!(table.get("b"), Some(Entity { id: 1 }));
    assert_eq!(snapshot(&table).len(), 1);
}

#[test]
fn eviction_goes_by_text_alone() {
    let mut store = NameStore::new();
    let mut table = NameTable::default();
    let mut keeper = NameTableBookkeeping::new(&store);
    store.insert(1, Name::new("a".to_string()));
    store.insert(2, Name::new("x".to_string()));
    assert!(keeper.run(&store, &mut table).is_empty());
    // handle 1 now claims "x": the removal pass reads handle 1's current
    // text and evicts whatever entry that text keys — handle 2's mapping
    store.insert(1, Name::new("x".to_string()));
    let warnings = keeper.run(&store, &mut table);
    // the eviction empties the slot first, so no collision is reported
    assert!(warnings.is_empty());
    assert_eq!(table.get("x"), Some(Entity { id: 1 }));
    assert_eq!(table.get("a"), Some(Entity { id: 1 }));
}

#[test]
fn cursor_consumes_each_event_exactly_once() {
    let mut store = NameStore::new();
    let mut table = NameTable::default();
    // events appended before the maintainer registers are never seen
    store.insert(1, Name::new("early".to_string()));
    let mut keeper = NameTableBookkeeping::new(&store);
    assert!(keeper.run(&store, &mut table).is_empty());
    assert_eq!(table.get("early"), None);
    store.insert(2, Name::new("late".to_string()));
    keeper.run(&store, &mut table);
    assert_eq!(table.get("late"), Some(Entity { id: 2 }));
}

#[test]
fn explicit_event_batches_drive_a_step() {
    let mut current = NameStore::new();
    current.insert(5, Name::new("q".to_string()));
    current.insert(6, Name::new("r".to_string()));
    let mut table = NameTable::default();
    let mut keeper = NameTableBookkeeping::new(&NameStore::new());
    let events = vec![ChangeEvent::Inserted(5), ChangeEvent::Inserted(6), ChangeEvent::Removed(9)];
    let warnings = keeper.step(&events, &current, &mut table);
    assert!(warnings.is_empty());
    assert_eq!(table.get("q"), Some(Entity { id: 5 }));
    assert_eq!(table.get("r"), Some(Entity { id: 6 }));
    assert_eq!(snapshot(&table).len(), 2);
}
