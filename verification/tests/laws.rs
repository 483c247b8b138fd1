use iddqd::bi_hash_map::{BiHashItem, BiHashMap};
use iddqd::id_hash_map::{IdHashItem, IdHashMap};
use iddqd::id_index_map::IdIndexMap;
use iddqd::id_ord_map::{IdOrdItem, IdOrdMap};
use iddqd::internal::ValidateCompact;

#[derive(Debug, PartialEq, Eq, Clone)]
struct Item {
    id: u64,
    value: u32,
}

impl IdHashItem for Item {
    fn key_of(&self) -> u64 {
        self.id
    }

    fn key(&self) -> u64 {
        self.id
    }
}

impl IdOrdItem for Item {
    fn key_of(&self) -> u64 {
        self.id
    }

    fn key(&self) -> u64 {
        self.id
    }
}

fn item(id: u64, value: u32) -> Item {
    Item { id, value }
}

#[derive(Debug, PartialEq, Eq, Clone)]
struct Pair {
    k1: u64,
    k2: u64,
    value: u32,
}

impl BiHashItem for Pair {
    fn key1_of(&self) -> u64 {
        self.k1
    }

    fn key2_of(&self) -> u64 {
        self.k2
    }

    fn key1(&self) -> u64 {
        self.k1
    }

    fn key2(&self) -> u64 {
        self.k2
    }
}

fn pair(k1: u64, k2: u64, value: u32) -> Pair {
    Pair { k1, k2, value }
}

fn hash_map_of(items: &[(u64, u32)]) -> IdHashMap<Item> {
    let mut map = IdHashMap::new();
    for &(id, value) in items {
        map.insert_unique(item(id, value)).unwrap();
    }
    map
}

#[test]
fn law_id_hash_remove_undoes_insert_on_values() {
    let before = hash_map_of(&[(1, 10), (2, 20)]);
    let mut map = hash_map_of(&[(1, 10), (2, 20)]);
    map.insert_unique(item(3, 30)).unwrap();
    assert_eq!(map.get(3), Some(&item(3, 30)));
    assert_eq!(map.remove(3), Some(item(3, 30)));
    assert!(map.eq(&before));
    assert!(before.eq(&map));
}

#[test]
fn law_id_ord_remove_undoes_insert_on_values() {
    let mut before = IdOrdMap::new();
    before.insert_unique(item(4, 1)).unwrap();
    before.insert_unique(item(2, 2)).unwrap();
    let mut map = IdOrdMap::new();
    map.insert_unique(item(2, 2)).unwrap();
    map.insert_unique(item(4, 1)).unwrap();
    map.insert_unique(item(3, 9)).unwrap();
    assert_eq!(map.remove(3), Some(item(3, 9)));
    assert!(map.eq(&before));
}

#[test]
fn law_views_match_equivalence_on_values() {
    let a = hash_map_of(&[(1, 1), (2, 2)]);
    let b = hash_map_of(&[(2, 2), (1, 1)]);
    let c = hash_map_of(&[(1, 1), (2, 2)]);
    assert!(a.eq(&a));
    assert!(a.eq(&b) && b.eq(&a));
    assert!(b.eq(&c) && a.eq(&c));
    let d = hash_map_of(&[(1, 1), (2, 3)]);
    assert!(!a.eq(&d) && !d.eq(&a));
}

#[test]
fn law_bi_remove_undoes_insert_on_values() {
    let mut before = BiHashMap::new();
    before.insert_unique(pair(1, 10, 0)).unwrap();
    let mut map = BiHashMap::new();
    map.insert_unique(pair(1, 10, 0)).unwrap();
    map.insert_unique(pair(2, 20, 5)).unwrap();
    assert_eq!(map.remove1(2), Some(pair(2, 20, 5)));
    assert!(map.eq(&before));
    assert!(map.get2(20).is_none());
}

#[test]
fn law_bi_overwrite_reaches_both_keys_on_values() {
    let mut map = BiHashMap::new();
    map.insert_unique(pair(1, 10, 0)).unwrap();
    map.insert_unique(pair(2, 20, 0)).unwrap();
    map.insert_unique(pair(3, 30, 0)).unwrap();
    // Displaces the item with first key 1 and the item with second key 20.
    let displaced = map.insert_overwrite(pair(1, 20, 7));
    assert_eq!(displaced, vec![pair(1, 10, 0), pair(2, 20, 0)]);
    assert_eq!(map.get1(1), Some(&pair(1, 20, 7)));
    assert_eq!(map.get2(20), Some(&pair(1, 20, 7)));
    // One more item than before, less the two displaced.
    assert_eq!(map.len() + displaced.len(), 3 + 1);
    assert!(map.get2(10).is_none());
    assert!(map.get1(2).is_none());
}

#[test]
fn law_hole_free_maps_are_compact() {
    let mut map = hash_map_of(&[(1, 1), (2, 2), (3, 3)]);
    assert!(map.validate(ValidateCompact::Compact).is_ok());
    map.remove(2);
    assert!(map.validate(ValidateCompact::Compact).is_err());
    map.insert_overwrite(item(9, 9));
    assert!(map.validate(ValidateCompact::Compact).is_ok());

    let mut ord = IdOrdMap::from_vec(vec![item(5, 1), item(5, 2), item(6, 3)]);
    assert!(ord.validate(ValidateCompact::Compact, iddqd::internal::ValidateChaos::No).is_ok());
    ord.remove(5);
    ord.insert_unique(item(7, 7)).unwrap();
    assert!(ord.validate(ValidateCompact::Compact, iddqd::internal::ValidateChaos::No).is_ok());
}

fn index_ids(map: &IdIndexMap<Item>) -> Vec<u64> {
    map.iter().iter().map(|i| i.id).collect()
}

fn index_map() -> IdIndexMap<Item> {
    let mut map = IdIndexMap::new();
    for id in [4, 8, 15, 16, 23] {
        map.insert_unique(item(id, 0)).unwrap();
    }
    map
}

#[test]
fn law_index_reverse_twice_on_values() {
    let mut map = index_map();
    map.reverse();
    assert_eq!(index_ids(&map), vec![23, 16, 15, 8, 4]);
    map.reverse();
    assert_eq!(index_ids(&map), vec![4, 8, 15, 16, 23]);
}

#[test]
fn law_index_swap_twice_on_values() {
    let mut map = index_map();
    map.swap_indices(0, 3);
    assert_eq!(index_ids(&map), vec![16, 8, 15, 4, 23]);
    map.swap_indices(0, 3);
    assert_eq!(index_ids(&map), vec![4, 8, 15, 16, 23]);
}

#[test]
fn law_index_move_back_on_values() {
    let mut map = index_map();
    map.move_index(1, 4);
    assert_eq!(index_ids(&map), vec![4, 15, 16, 23, 8]);
    map.move_index(4, 1);
    assert_eq!(index_ids(&map), vec![4, 8, 15, 16, 23]);
}

#[test]
fn law_index_remove_undoes_push_on_values() {
    let mut map = index_map();
    map.insert_unique(item(42, 1)).unwrap();
    assert_eq!(map.shift_remove_index(5), Some(item(42, 1)));
    assert_eq!(index_ids(&map), vec![4, 8, 15, 16, 23]);
}

#[test]
fn law_diff_splits_common_on_values() {
    let a = hash_map_of(&[(1, 1), (2, 2), (3, 3), (4, 4)]);
    let b = hash_map_of(&[(1, 1), (2, 20), (3, 3), (5, 5)]);
    let d = a.diff(&b);
    let unchanged: Vec<u64> = d.unchanged().iter().map(|i| i.id).collect();
    let modified: Vec<u64> = d.modified().iter().map(|l| l.before().id).collect();
    assert_eq!(unchanged.len() + modified.len(), d.common.len());
    for id in [1u64, 2, 3] {
        assert!(unchanged.contains(&id) != modified.contains(&id));
    }
    assert!(modified.contains(&2));

    let mut x = BiHashMap::new();
    x.insert_unique(pair(1, 10, 0)).unwrap();
    x.insert_unique(pair(2, 20, 0)).unwrap();
    let mut y = BiHashMap::new();
    y.insert_unique(pair(1, 10, 0)).unwrap();
    y.insert_unique(pair(2, 20, 9)).unwrap();
    let d = x.diff(&y);
    assert_eq!(d.unchanged().len() + d.modified().len(), d.common.len());
    assert_eq!(d.unchanged(), vec![&pair(1, 10, 0)]);
}
