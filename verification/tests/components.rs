use name_index::event::{ChangeEvent, Entity};
use name_index::name::Name;
use name_index::store::NameStore;
use name_index::table::NameTable;

#[test]
fn name_keeps_its_text() {
    let n = Name::new("Hello World".to_string());
    assert_eq!(n.as_str(), "Hello World");
    assert!(n.text_is(&"Hello World".to_string()));
    assert!(!n.text_is(&"hello world".to_string()));
}

#[test]
fn name_equality_is_text_equality() {
    let a = Name::new("abc".to_string());
    let b = Name::new("abc".to_string());
    let c = Name::new("Abc".to_string());
    let d = Name::new(" abc".to_string());
    assert_eq!(a, b);
    assert!(a != c);
    assert!(a != d);
    let e = a.clone();
    assert_eq!(e, b);
}

#[test]
fn empty_table_has_no_matches() {
    let table = NameTable::default();
    assert_eq!(table.get("anything"), None);
    assert!(table.iter().is_empty());
}

#[test]
fn store_tracks_current_values() {
    let mut store = NameStore::new();
    assert!(store.current_value(7).is_none());
    store.insert(7, Name::new("first".to_string()));
    assert_eq!(store.current_value(7).unwrap().as_str(), "first");
    store.insert(7, Name::new("second".to_string()));
    assert_eq!(store.current_value(7).unwrap().as_str(), "second");
    store.remove(7);
    assert!(store.current_value(7).is_none());
}

#[test]
fn store_logs_every_change() {
    let mut store = NameStore::new();
    assert_eq!(store.log_len(), 0);
    store.insert(1, Name::new("a".to_string()));
    store.insert(1, Name::new("b".to_string()));
    store.insert(2, Name::new("c".to_string()));
    store.remove(1);
    // removing a handle that is not live appends nothing
    store.remove(9);
    assert_eq!(store.log_len(), 4);
    assert_eq!(store.log_at(0), ChangeEvent::Inserted(1));
    assert_eq!(store.log_at(1), ChangeEvent::Modified(1));
    assert_eq!(store.log_at(2), ChangeEvent::Inserted(2));
    assert_eq!(store.log_at(3), ChangeEvent::Removed(1));
}

#[test]
fn entities_compare_by_id() {
    assert_eq!(Entity { id: 3 }, Entity { id: 3 });
    assert!(Entity { id: 3 } != Entity { id: 4 });
}
