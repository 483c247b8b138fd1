use iddqd::id_btree_map::{IdBTreeMap, IdBTreeMapEntry, IdBTreeMapEntryMut};
use iddqd::internal::ValidateCompact;

#[derive(Debug, PartialEq, Eq, Clone)]
struct Entry {
    id: u64,
    name: &'static str,
}

impl IdBTreeMapEntry for Entry {
    fn key_of(&self) -> u64 {
        self.id
    }

    fn key(&self) -> u64 {
        self.id
    }
}

impl IdBTreeMapEntryMut for Entry {
    fn owned_key(&self) -> u64 {
        self.id
    }
}

fn entry(id: u64, name: &'static str) -> Entry {
    Entry { id, name }
}

#[test]
fn id_btree_map_orders_by_key() {
    let map = IdBTreeMap::from_vec(vec![entry(3, "c"), entry(1, "a"), entry(2, "b")]);
    let names: Vec<&str> = map.iter().iter().map(|e| e.name).collect();
    assert_eq!(names, vec!["a", "b", "c"]);
    assert_eq!(map.len(), 3);
    assert_eq!(map.get(2).unwrap().owned_key(), 2);
}

#[test]
fn id_btree_map_unique_and_overwrite() {
    let mut map = IdBTreeMap::new();
    map.insert_unique(entry(1, "a")).unwrap();
    let err = map.insert_unique(entry(1, "b")).unwrap_err();
    assert_eq!(err.duplicates(), &[&entry(1, "a")]);
    assert_eq!(map.insert_overwrite(entry(1, "b")), Some(entry(1, "a")));
    assert_eq!(map.remove(1), Some(entry(1, "b")));
    assert!(map.is_empty());
}

#[test]
fn id_btree_map_from_iter_unique_and_validate() {
    assert!(IdBTreeMap::from_iter_unique(vec![entry(1, "a"), entry(1, "b")]).is_err());
    let mut map = IdBTreeMap::from_iter_unique(vec![entry(1, "a"), entry(2, "b")]).unwrap();
    assert!(map.validate(ValidateCompact::Compact).is_ok());
    map.remove(1);
    assert!(map.validate(ValidateCompact::Compact).is_err());
    assert!(map.eq(&IdBTreeMap::from_vec(vec![entry(2, "b")])));
}

#[test]
fn id_btree_map_holds_boxed_and_shared_items() {
    let mut boxed: IdBTreeMap<Box<Entry>> = IdBTreeMap::new();
    boxed.insert_unique(Box::new(entry(4, "d"))).unwrap();
    boxed.insert_unique(Box::new(entry(2, "b"))).unwrap();
    let names: Vec<&str> = boxed.iter().iter().map(|e| e.name).collect();
    assert_eq!(names, vec!["b", "d"]);

    let mut shared: IdBTreeMap<std::sync::Arc<Entry>> = IdBTreeMap::new();
    shared.insert_unique(std::sync::Arc::new(entry(1, "a"))).unwrap();
    assert!(shared.insert_unique(std::sync::Arc::new(entry(1, "z"))).is_err());
}

#[test]
fn id_btree_map_entry_api() {
    let mut map = IdBTreeMap::new();
    map.insert_unique(entry(1, "a")).unwrap();
    assert_eq!(map.entry(2).or_insert_ref(entry(2, "b")), &entry(2, "b"));
    assert_eq!(map.entry(1).or_insert_ref(entry(1, "z")), &entry(1, "a"));
    match map.entry(1) {
        iddqd::id_btree_map::Entry::Occupied(o) => assert_eq!(o.remove(), entry(1, "a")),
        iddqd::id_btree_map::Entry::Vacant(_) => panic!("key 1 is present"),
    }
    let names: Vec<&str> = map.iter().iter().map(|e| e.name).collect();
    assert_eq!(names, vec!["b"]);
}
