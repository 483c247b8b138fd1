use iddqd::id_hash_map::{Entry, IdHashItem, IdHashMap};
use iddqd::internal::ValidateCompact;

#[derive(Debug, PartialEq, Eq, Clone)]
struct Item {
    id: u64,
    value: u32,
}

impl IdHashItem for Item {
    fn key_of(&self) -> u64 {
        self.id
    }

    fn key(&self) -> u64 {
        self.id
    }
}

fn item(id: u64, value: u32) -> Item {
    Item { id, value }
}

#[test]
fn id_hash_map_insert_and_get() {
    let mut map = IdHashMap::new();
    map.insert_unique(item(1, 42)).unwrap();
    map.insert_unique(item(2, 20)).unwrap();
    assert_eq!(map.get(1).unwrap().value, 42);
    assert_eq!(map.get(2).unwrap().value, 20);
    assert!(map.get(3).is_none());
    assert_eq!(map.len(), 2);
    assert!(!map.is_empty());
}

#[test]
fn id_hash_map_new_is_empty() {
    let map: IdHashMap<Item> = IdHashMap::new();
    assert!(map.is_empty());
    assert_eq!(map.len(), 0);
    let map: IdHashMap<Item> = IdHashMap::with_capacity(10);
    assert!(map.capacity() >= 10);
    assert!(map.is_empty());
}

#[test]
fn id_hash_map_insert_unique_rejects_duplicates() {
    let mut map = IdHashMap::new();
    assert!(map.insert_unique(item(1, 42)).is_ok());
    assert!(map.insert_unique(item(2, 20)).is_ok());
    let err = map.insert_unique(item(1, 100)).unwrap_err();
    assert_eq!(err.new_item(), &item(1, 100));
    assert_eq!(err.duplicates(), &[&item(1, 42)]);
    assert_eq!(map.len(), 2);
}

#[test]
fn id_hash_map_insert_overwrite_returns_old() {
    let mut map = IdHashMap::new();
    assert!(map.insert_overwrite(item(1, 42)).is_none());
    let old = map.insert_overwrite(item(1, 100));
    assert_eq!(old.unwrap().value, 42);
    assert_eq!(map.get(1).unwrap().value, 100);
    assert_eq!(map.len(), 1);
}

#[test]
fn id_hash_map_remove() {
    let mut map = IdHashMap::new();
    map.insert_unique(item(1, 42)).unwrap();
    assert!(map.contains_key(1));
    assert!(!map.contains_key(2));
    let removed = map.remove(1);
    assert_eq!(removed.unwrap().value, 42);
    assert!(map.is_empty());
    assert!(map.remove(2).is_none());
}

#[test]
fn id_hash_map_iter_holds_every_item() {
    let mut map = IdHashMap::new();
    map.insert_unique(item(1, 42)).unwrap();
    map.insert_unique(item(2, 20)).unwrap();
    let mut values: Vec<u32> = map.iter().iter().map(|item| item.value).collect();
    values.sort();
    assert_eq!(values, vec![20, 42]);
}

#[test]
fn id_hash_map_extend_overwrites() {
    let mut map = IdHashMap::new();
    map.insert_unique(item(1, 42)).unwrap();
    map.extend(vec![item(1, 100), item(2, 20)]);
    assert_eq!(map.len(), 2);
    assert_eq!(map.get(1).unwrap().value, 100);
    assert_eq!(map.get(2).unwrap().value, 20);
}

#[test]
fn id_hash_map_from_vec_later_wins() {
    let map = IdHashMap::from_vec(vec![item(1, 1), item(1, 2), item(3, 3)]);
    assert_eq!(map.len(), 2);
    assert_eq!(map.get(1).unwrap().value, 2);
}

#[test]
fn id_hash_map_validate_compactness() {
    let mut map = IdHashMap::new();
    map.insert_unique(item(1, 1)).unwrap();
    map.insert_unique(item(2, 2)).unwrap();
    map.insert_unique(item(3, 3)).unwrap();
    assert!(map.validate(ValidateCompact::Compact).is_ok());
    map.remove(1);
    assert!(map.validate(ValidateCompact::Compact).is_err());
    assert!(map.validate(ValidateCompact::NonCompact).is_ok());
    map.insert_unique(item(4, 4)).unwrap();
    assert!(map.validate(ValidateCompact::Compact).is_ok());
}

#[test]
fn id_hash_map_eq_ignores_insertion_order() {
    let mut a = IdHashMap::new();
    a.insert_unique(item(1, 1)).unwrap();
    a.insert_unique(item(2, 2)).unwrap();
    let mut b = IdHashMap::new();
    b.insert_unique(item(2, 2)).unwrap();
    b.insert_unique(item(1, 1)).unwrap();
    assert!(a.eq(&b));
    assert!(b.eq(&a));
    b.insert_overwrite(item(1, 5));
    assert!(!a.eq(&b));
    b.remove(1);
    assert!(!a.eq(&b));
}

#[test]
fn id_hash_map_replace_and_remove_by_index() {
    let mut map = IdHashMap::new();
    map.insert_unique(item(7, 1)).unwrap();
    assert_eq!(map.get_by_index(0), Some(&item(7, 1)));
    assert_eq!(map.replace_at_index(0, item(7, 2)), item(7, 1));
    assert_eq!(map.get(7), Some(&item(7, 2)));
    assert_eq!(map.remove_by_index(0), Some(item(7, 2)));
    assert_eq!(map.remove_by_index(0), None);
    assert!(map.is_empty());
}

#[test]
fn id_hash_map_diff() {
    let mut before = IdHashMap::new();
    before.insert_unique(item(1, 1)).unwrap();
    before.insert_unique(item(2, 2)).unwrap();
    before.insert_unique(item(3, 3)).unwrap();
    let mut after = IdHashMap::new();
    after.insert_unique(item(2, 2)).unwrap();
    after.insert_unique(item(3, 30)).unwrap();
    after.insert_unique(item(4, 4)).unwrap();
    let diff = before.diff(&after);
    assert_eq!(diff.common.len(), 2);
    assert_eq!(diff.added.len(), 1);
    assert_eq!(diff.removed.len(), 1);
    assert!(diff.removed.contains_key(1));
    assert!(diff.added.contains_key(4));
    assert!(diff.is_unchanged(2));
    assert!(!diff.is_unchanged(3));
    assert!(diff.is_modified(3));
    assert_eq!(diff.get_unchanged(2), Some(&item(2, 2)));
    assert_eq!(diff.get_unchanged(3), None);
    let modified = diff.get_modified(3).unwrap();
    assert_eq!(modified.before(), &&item(3, 3));
    assert_eq!(modified.after(), &&item(3, 30));
    assert_eq!(diff.unchanged().len(), 1);
    assert_eq!(diff.modified().len(), 1);
}

#[test]
fn id_hash_map_default_is_empty_and_entry_finds_slot() {
    let mut map: IdHashMap<Item> = IdHashMap::default();
    assert!(map.is_empty());
    assert!(matches!(map.entry(5), Entry::Vacant(_)));
    map.insert_unique(item(5, 50)).unwrap();
    map.insert_unique(item(6, 60)).unwrap();
    assert!(matches!(map.entry(6), Entry::Occupied(_)));
    assert_eq!(map.get_by_index(1), Some(&item(6, 60)));
}

#[test]
fn id_hash_map_entry_api() {
    let mut map = IdHashMap::new();
    map.insert_unique(item(1, 10)).unwrap();

    assert_eq!(map.entry(2).or_insert(item(2, 20)), &item(2, 20));
    assert_eq!(map.entry(1).or_insert(item(1, 99)), &item(1, 10));
    assert_eq!(map.entry(3).or_insert_with(|| item(3, 30)).value, 30);
    assert_eq!(map.len(), 3);

    match map.entry(1) {
        Entry::Occupied(mut o) => {
            assert_eq!(o.insert(item(1, 11)), item(1, 10));
            assert_eq!(o.get(), &item(1, 11));
        }
        Entry::Vacant(_) => panic!("key 1 is present"),
    }
    match map.entry(3) {
        Entry::Occupied(o) => assert_eq!(o.remove(), item(3, 30)),
        Entry::Vacant(_) => panic!("key 3 is present"),
    }
    match map.entry(7) {
        Entry::Vacant(v) => assert_eq!(v.insert(item(7, 70)), &item(7, 70)),
        Entry::Occupied(_) => panic!("key 7 is absent"),
    }
    assert_eq!(map.get(1), Some(&item(1, 11)));
    assert!(!map.contains_key(3));
    assert_eq!(map.get(7), Some(&item(7, 70)));
}
