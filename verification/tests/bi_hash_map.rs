use iddqd::bi_hash_map::{
    BiHashItem, BiHashMap, DisjointKeys, Entry, EntryIndexes, OccupiedEntryRef,
};
use iddqd::internal::ValidateCompact;

#[derive(Debug, PartialEq, Eq, Clone)]
struct Pair {
    k1: u64,
    k2: u64,
    value: &'static str,
}

impl BiHashItem for Pair {
    fn key1_of(&self) -> u64 {
        self.k1
    }

    fn key2_of(&self) -> u64 {
        self.k2
    }

    fn key1(&self) -> u64 {
        self.k1
    }

    fn key2(&self) -> u64 {
        self.k2
    }
}

fn pair(k1: u64, k2: u64, value: &'static str) -> Pair {
    Pair { k1, k2, value }
}

#[test]
fn bi_hash_map_lookup_by_either_key() {
    let mut map = BiHashMap::new();
    map.insert_unique(pair(1, 10, "a")).unwrap();
    map.insert_unique(pair(2, 20, "b")).unwrap();
    assert_eq!(map.get1(1).unwrap().value, "a");
    assert_eq!(map.get2(20).unwrap().value, "b");
    assert!(map.contains_key1(2));
    assert!(map.contains_key2(10));
    assert!(!map.contains_key1(10));
    assert!(map.get2(1).is_none());
    assert_eq!(map.len(), 2);
    assert!(!map.is_empty());
}

#[test]
fn bi_hash_map_insert_unique_reports_conflicts_in_slot_order() {
    let mut map = BiHashMap::new();
    map.insert_unique(pair(1, 10, "a")).unwrap();
    map.insert_unique(pair(2, 20, "b")).unwrap();
    // Conflicts with slot 1 by key1 and slot 0 by key2.
    let err = map.insert_unique(pair(2, 10, "c")).unwrap_err();
    assert_eq!(err.new_item(), &pair(2, 10, "c"));
    assert_eq!(err.duplicates(), &[&pair(1, 10, "a"), &pair(2, 20, "b")]);
    // Conflicts with the same item through both keys.
    let err = map.insert_unique(pair(1, 10, "d")).unwrap_err();
    assert_eq!(err.duplicates(), &[&pair(1, 10, "a")]);
    // Conflicts by the second key only.
    let err = map.insert_unique(pair(3, 20, "e")).unwrap_err();
    assert_eq!(err.duplicates(), &[&pair(2, 20, "b")]);
    assert_eq!(map.len(), 2);
}

#[test]
fn bi_hash_map_insert_overwrite_removes_both_conflicts() {
    let mut map = BiHashMap::new();
    map.insert_unique(pair(1, 10, "a")).unwrap();
    map.insert_unique(pair(2, 20, "b")).unwrap();
    let removed = map.insert_overwrite(pair(1, 20, "c"));
    assert_eq!(removed, vec![pair(1, 10, "a"), pair(2, 20, "b")]);
    assert_eq!(map.len(), 1);
    assert_eq!(map.get1(1).unwrap().value, "c");
    assert_eq!(map.get2(20).unwrap().value, "c");
    assert!(map.get2(10).is_none());
    let removed = map.insert_overwrite(pair(1, 20, "d"));
    assert_eq!(removed, vec![pair(1, 20, "c")]);
    assert!(map.insert_overwrite(pair(5, 50, "e")).is_empty());
}

#[test]
fn bi_hash_map_remove_by_either_key() {
    let mut map = BiHashMap::new();
    map.insert_unique(pair(1, 10, "a")).unwrap();
    map.insert_unique(pair(2, 20, "b")).unwrap();
    assert_eq!(map.remove1(1), Some(pair(1, 10, "a")));
    assert!(map.get2(10).is_none());
    assert_eq!(map.remove2(20), Some(pair(2, 20, "b")));
    assert!(map.get1(2).is_none());
    assert!(map.is_empty());
    assert_eq!(map.remove1(1), None);
    assert_eq!(map.remove2(20), None);
}

#[test]
fn bi_hash_map_entry_classification() {
    let mut map = BiHashMap::new();
    map.insert_unique(pair(1, 10, "a")).unwrap();
    map.insert_unique(pair(2, 20, "b")).unwrap();
    assert!(matches!(map.entry(3, 30), Entry::Vacant(_)));
    match map.entry(1, 10) {
        Entry::Occupied(o) => {
            assert!(o.is_unique());
            assert_eq!(o.get().as_unique(), Some(&pair(1, 10, "a")));
        }
        Entry::Vacant(_) => panic!("keys 1 and 10 are present"),
    }
    match map.entry(1, 20) {
        Entry::Occupied(o) => {
            assert!(o.is_non_unique());
            let split = o.get();
            assert_eq!(split.by_key1(), Some(&pair(1, 10, "a")));
            assert_eq!(split.by_key2(), Some(&pair(2, 20, "b")));
        }
        Entry::Vacant(_) => panic!("keys 1 and 20 are present"),
    }
    match map.entry(1, 30) {
        Entry::Occupied(o) => {
            assert!(o.is_non_unique());
            let r = o.into_ref();
            assert_eq!(r.by_key1(), Some(&pair(1, 10, "a")));
            assert_eq!(r.by_key2(), None);
        }
        Entry::Vacant(_) => panic!("key 1 is present"),
    }

    let unique = map.get_by_entry_index(EntryIndexes::Unique(0));
    assert!(unique.is_unique());
    assert!(!unique.is_non_unique());
    assert_eq!(unique.as_unique(), Some(&pair(1, 10, "a")));
    assert_eq!(unique.by_key2(), Some(&pair(1, 10, "a")));

    let split = map.get_by_entry_index(EntryIndexes::NonUnique { index1: Some(0), index2: Some(1) });
    assert!(split.is_non_unique());
    assert_eq!(split.as_unique(), None);
    assert_eq!(split.by_key1(), Some(&pair(1, 10, "a")));
    assert_eq!(split.by_key2(), Some(&pair(2, 20, "b")));
    assert!(matches!(split, OccupiedEntryRef::NonUnique { .. }));
}

#[test]
fn bi_hash_map_entry_indexes_helpers() {
    assert_eq!(EntryIndexes::classify(None, None), None);
    assert_eq!(EntryIndexes::classify(Some(3), Some(3)), Some(EntryIndexes::Unique(3)));
    assert_eq!(
        EntryIndexes::classify(None, Some(4)),
        Some(EntryIndexes::NonUnique { index1: None, index2: Some(4) })
    );
    let e = EntryIndexes::from_non_unique(Some(1), Some(2));
    assert!(!e.is_unique());
    assert_eq!(e.disjoint_keys(), DisjointKeys::Key12([1, 2]));
    assert_eq!(EntryIndexes::Unique(5).disjoint_keys(), DisjointKeys::Unique(5));
    assert_eq!(EntryIndexes::from_non_unique(Some(1), None).disjoint_keys(), DisjointKeys::Key1(1));
    assert_eq!(EntryIndexes::from_non_unique(None, Some(2)).disjoint_keys(), DisjointKeys::Key2(2));
}

#[test]
fn bi_hash_map_replace_and_remove_through_entries() {
    let mut map = BiHashMap::new();
    map.insert_unique(pair(1, 10, "a")).unwrap();
    map.insert_unique(pair(2, 20, "b")).unwrap();

    let (ix, old) = map.replace_at_indexes(EntryIndexes::Unique(0), pair(1, 10, "a2"));
    assert_eq!(ix, 0);
    assert_eq!(old, vec![pair(1, 10, "a")]);
    assert_eq!(map.get1(1).unwrap().value, "a2");

    let (ix, old) = map.replace_at_indexes(
        EntryIndexes::NonUnique { index1: Some(0), index2: Some(1) },
        pair(1, 20, "c"),
    );
    assert_eq!(old, vec![pair(1, 10, "a2"), pair(2, 20, "b")]);
    assert_eq!(map.len(), 1);
    // The slot freed last is filled first.
    assert_eq!(ix, 1);

    assert_eq!(map.remove_by_entry_index(EntryIndexes::Unique(1)), vec![pair(1, 20, "c")]);
    assert!(map.is_empty());
}

#[test]
fn bi_hash_map_entry_api() {
    let mut map = BiHashMap::new();
    map.insert_unique(pair(1, 10, "a")).unwrap();
    map.insert_unique(pair(2, 20, "b")).unwrap();

    // Vacant: both keys absent.
    assert_eq!(map.entry(3, 30).or_insert(pair(3, 30, "c")).as_unique(), Some(&pair(3, 30, "c")));
    assert_eq!(map.entry(4, 40).or_insert_with(|| pair(4, 40, "d")).as_unique().unwrap().value, "d");
    // Occupied: what is there comes back.
    assert_eq!(map.entry(1, 10).or_insert(pair(1, 10, "z")).as_unique(), Some(&pair(1, 10, "a")));
    assert_eq!(map.len(), 4);

    // Inserting through an entry that spans two items replaces both.
    match map.entry(1, 20) {
        Entry::Occupied(mut o) => {
            let old = o.insert(pair(1, 20, "e"));
            assert_eq!(old, vec![pair(1, 10, "a"), pair(2, 20, "b")]);
            assert!(o.is_unique());
            assert_eq!(o.get().as_unique(), Some(&pair(1, 20, "e")));
        }
        Entry::Vacant(_) => panic!("keys 1 and 20 are present"),
    }
    assert_eq!(map.len(), 3);

    match map.entry(3, 40) {
        Entry::Occupied(o) => {
            assert_eq!(o.remove(), vec![pair(3, 30, "c"), pair(4, 40, "d")]);
        }
        Entry::Vacant(_) => panic!("keys 3 and 40 are present"),
    }
    assert_eq!(map.len(), 1);

    match map.entry(5, 50) {
        Entry::Vacant(v) => {
            let o = v.insert_entry(pair(5, 50, "f"));
            assert!(o.is_unique());
            assert_eq!(o.into_ref().by_key2(), Some(&pair(5, 50, "f")));
        }
        Entry::Occupied(_) => panic!("keys 5 and 50 are absent"),
    }
    match map.entry(6, 60) {
        Entry::Vacant(v) => assert_eq!(v.insert(pair(6, 60, "g")), &pair(6, 60, "g")),
        Entry::Occupied(_) => panic!("keys 6 and 60 are absent"),
    }
    assert_eq!(map.get2(60).unwrap().value, "g");
    assert_eq!(map.len(), 3);
}

#[test]
fn bi_hash_map_validate_and_iter() {
    let mut map = BiHashMap::with_capacity(4);
    assert!(map.capacity() >= 4);
    map.insert_unique(pair(1, 10, "a")).unwrap();
    map.insert_unique(pair(2, 20, "b")).unwrap();
    assert!(map.validate(ValidateCompact::Compact).is_ok());
    map.remove1(1);
    assert!(map.validate(ValidateCompact::Compact).is_err());
    assert!(map.validate(ValidateCompact::NonCompact).is_ok());
    let items = map.iter();
    assert_eq!(items, vec![&pair(2, 20, "b")]);
}

#[test]
fn bi_hash_map_eq() {
    let mut a = BiHashMap::new();
    a.insert_unique(pair(1, 10, "a")).unwrap();
    a.insert_unique(pair(2, 20, "b")).unwrap();
    let mut b = BiHashMap::new();
    b.insert_unique(pair(2, 20, "b")).unwrap();
    b.insert_unique(pair(1, 10, "a")).unwrap();
    assert!(a.eq(&b));
    assert!(b.eq(&a));
    let mut c = BiHashMap::new();
    c.insert_unique(pair(1, 20, "a")).unwrap();
    c.insert_unique(pair(2, 10, "b")).unwrap();
    assert!(!a.eq(&c));
}

#[test]
fn bi_hash_map_unique_lookup() {
    let mut map = BiHashMap::new();
    map.insert_unique(pair(1, 10, "a")).unwrap();
    assert_eq!(map.get_unique(1, 10), Some(&pair(1, 10, "a")));
    assert_eq!(map.get_unique(1, 11), None);
    assert!(map.contains_key_unique(1, 10));
    assert!(!map.contains_key_unique(2, 10));
}

#[test]
fn bi_hash_map_diff() {
    let mut before = BiHashMap::new();
    before.insert_unique(pair(1, 10, "a")).unwrap();
    before.insert_unique(pair(2, 20, "b")).unwrap();
    before.insert_unique(pair(3, 30, "c")).unwrap();
    let mut after = BiHashMap::new();
    after.insert_unique(pair(1, 10, "a")).unwrap();
    after.insert_unique(pair(2, 20, "B")).unwrap();
    after.insert_unique(pair(3, 31, "c")).unwrap();
    let diff = before.diff(&after);
    assert_eq!(diff.common.len(), 2);
    assert_eq!(diff.removed.len(), 1);
    assert_eq!(diff.added.len(), 1);
    assert!(diff.is_unchanged1(1));
    assert!(diff.is_unchanged2(10));
    assert!(diff.is_modified1(2));
    assert!(diff.is_modified2(20));
    assert!(!diff.is_modified1(3));
    assert_eq!(diff.get_unchanged1(1), Some(&pair(1, 10, "a")));
    assert_eq!(diff.get_unchanged2(20), None);
    assert_eq!(diff.get_modified1(2).unwrap().after(), &&pair(2, 20, "B"));
    assert_eq!(diff.get_modified2(20).unwrap().before(), &&pair(2, 20, "b"));
    assert_eq!(diff.unchanged(), vec![&pair(1, 10, "a")]);
    assert_eq!(diff.modified().len(), 1);
    assert!(diff.removed.contains_key2(30));
    assert!(diff.added.contains_key2(31));
}

#[test]
fn bi_hash_map_from_vec_overwrites() {
    let map = BiHashMap::from_vec(vec![pair(1, 10, "a"), pair(2, 20, "b"), pair(1, 20, "c")]);
    assert_eq!(map.len(), 1);
    assert_eq!(map.get1(1).unwrap().value, "c");
    assert_eq!(map.get2(20).unwrap().value, "c");
    assert!(map.get1(2).is_none());
    assert!(map.get2(10).is_none());
}

#[test]
fn bi_hash_map_entry_refs_follow_the_keys() {
    let mut map = BiHashMap::new();
    map.insert_unique(pair(1, 10, "foo")).unwrap();
    map.insert_unique(pair(2, 20, "bar")).unwrap();
    // One item matching both keys is listed once.
    assert_eq!(map.insert_unique(pair(1, 10, "x")).unwrap_err().duplicates().len(), 1);
    match map.entry(1, 20) {
        Entry::Occupied(o) => {
            let r = o.get();
            assert!(!r.is_unique());
            assert_eq!(r.by_key1().unwrap().value, "foo");
            assert_eq!(r.by_key2().unwrap().value, "bar");
        }
        Entry::Vacant(_) => panic!("keys 1 and 20 are present"),
    }
    match map.entry(1, 99) {
        Entry::Occupied(mut o) => {
            assert_eq!(o.get().by_key2(), None);
            o.insert(pair(1, 99, "new"));
            assert_eq!(o.get().as_unique().unwrap().value, "new");
        }
        Entry::Vacant(_) => panic!("key 1 is present"),
    }
    assert_eq!(map.len(), 2);
}

#[test]
fn capacity_bound_can_be_tested_first() {
    assert!(iddqd::capacity::capacity_fits_for::<Pair>(10));
    assert!(!iddqd::capacity::capacity_fits_for::<Pair>(usize::MAX));
    let map: BiHashMap<Pair> = BiHashMap::with_capacity(10);
    assert!(map.capacity() >= 10);
}
