use iddqd::id_hash_map::IdHashItem;
use iddqd::id_index_map::IdIndexMap;
use iddqd::internal::ValidateCompact;

#[derive(Debug, PartialEq, Eq, Clone)]
struct Item {
    id: u64,
    v: u32,
}

impl IdHashItem for Item {
    fn key_of(&self) -> u64 {
        self.id
    }

    fn key(&self) -> u64 {
        self.id
    }
}

fn item(id: u64, v: u32) -> Item {
    Item { id, v }
}

fn ids(map: &IdIndexMap<Item>) -> Vec<u64> {
    map.iter().iter().map(|i| i.id).collect()
}

fn filled() -> IdIndexMap<Item> {
    let mut map = IdIndexMap::new();
    for id in [5, 3, 9, 1] {
        map.insert_unique(item(id, id as u32)).unwrap();
    }
    map
}

#[test]
fn id_index_map_keeps_insertion_order() {
    let map = filled();
    assert_eq!(ids(&map), vec![5, 3, 9, 1]);
    assert_eq!(map.get_index(2), Some(&item(9, 9)));
    assert_eq!(map.get_index(4), None);
    assert_eq!(map.get_index_of(1), Some(3));
    assert_eq!(map.get(3), Some(&item(3, 3)));
    assert!(map.contains_key(9));
    assert!(!map.contains_key(2));
    assert!(map.validate(ValidateCompact::Compact).is_ok());
}

#[test]
fn id_index_map_insert_overwrite_keeps_position() {
    let mut map = filled();
    assert_eq!(map.insert_overwrite(item(3, 30)), Some(item(3, 3)));
    assert_eq!(ids(&map), vec![5, 3, 9, 1]);
    assert_eq!(map.get(3).unwrap().v, 30);
    assert_eq!(map.insert_overwrite(item(2, 2)), None);
    assert_eq!(ids(&map), vec![5, 3, 9, 1, 2]);
    assert!(map.insert_unique(item(2, 0)).is_err());
}

#[test]
fn id_index_map_shift_remove_index() {
    let mut map = filled();
    assert_eq!(map.shift_remove_index(1), Some(item(3, 3)));
    assert_eq!(ids(&map), vec![5, 9, 1]);
    assert_eq!(map.get_index_of(1), Some(2));
    assert_eq!(map.shift_remove_index(7), None);
    assert!(map.validate(ValidateCompact::NonCompact).is_ok());
}

#[test]
fn id_index_map_swap_remove_index() {
    let mut map = filled();
    assert_eq!(map.swap_remove_index(0), Some(item(5, 5)));
    assert_eq!(ids(&map), vec![1, 3, 9]);
    assert_eq!(map.get_index_of(1), Some(0));
    assert_eq!(map.swap_remove_index(2), Some(item(9, 9)));
    assert_eq!(ids(&map), vec![1, 3]);
}

#[test]
fn id_index_map_move_swap_reverse() {
    let mut map = filled();
    map.move_index(0, 2);
    assert_eq!(ids(&map), vec![3, 9, 5, 1]);
    map.move_index(3, 0);
    assert_eq!(ids(&map), vec![1, 3, 9, 5]);
    map.swap_indices(0, 3);
    assert_eq!(ids(&map), vec![5, 3, 9, 1]);
    map.reverse();
    assert_eq!(ids(&map), vec![1, 9, 3, 5]);
    assert_eq!(map.get_index_of(5), Some(3));
    assert_eq!(map.get_index_of(1), Some(0));
    assert_eq!(map.len(), 4);
}

#[test]
fn id_index_map_default_is_empty() {
    let map: IdIndexMap<Item> = IdIndexMap::default();
    assert!(map.is_empty());
    assert_eq!(map.len(), 0);
}

#[test]
fn id_index_map_entry_api() {
    let mut map = filled(); // 5, 3, 9, 1
    assert_eq!(map.entry(3).index(), 1);
    assert_eq!(map.entry(7).index(), 4);
    assert_eq!(map.entry(7).or_insert(item(7, 70)), &item(7, 70));
    assert_eq!(map.entry(5).or_insert(item(5, 0)), &item(5, 5));
    assert_eq!(map.entry(8).or_insert_with(|| item(8, 80)).v, 80);
    assert_eq!(ids(&map), vec![5, 3, 9, 1, 7, 8]);

    match map.entry(9) {
        iddqd::id_index_map::Entry::Occupied(mut o) => {
            assert_eq!(o.index(), 2);
            assert_eq!(o.insert(item(9, 99)), item(9, 9));
            o.move_to(0);
            assert_eq!(o.index(), 0);
            assert_eq!(o.get(), &item(9, 99));
            o.swap_with(5);
            assert_eq!(o.index(), 5);
        }
        iddqd::id_index_map::Entry::Vacant(_) => panic!("key 9 is present"),
    }
    assert_eq!(ids(&map), vec![8, 5, 3, 1, 7, 9]);

    match map.entry(5) {
        iddqd::id_index_map::Entry::Occupied(o) => assert_eq!(o.shift_remove(), item(5, 5)),
        iddqd::id_index_map::Entry::Vacant(_) => panic!("key 5 is present"),
    }
    assert_eq!(ids(&map), vec![8, 3, 1, 7, 9]);

    match map.entry(8) {
        iddqd::id_index_map::Entry::Occupied(o) => assert_eq!(o.swap_remove(), item(8, 80)),
        iddqd::id_index_map::Entry::Vacant(_) => panic!("key 8 is present"),
    }
    assert_eq!(ids(&map), vec![9, 3, 1, 7]);

    match map.entry(3) {
        iddqd::id_index_map::Entry::Occupied(o) => assert_eq!(o.remove(), item(3, 3)),
        iddqd::id_index_map::Entry::Vacant(_) => panic!("key 3 is present"),
    }
    assert_eq!(ids(&map), vec![9, 7, 1]);

    match map.entry(4) {
        iddqd::id_index_map::Entry::Vacant(v) => {
            assert_eq!(v.index(), 3);
            let o = v.insert_entry(item(4, 40));
            assert_eq!(o.index(), 3);
            assert_eq!(o.into_ref(), &item(4, 40));
        }
        iddqd::id_index_map::Entry::Occupied(_) => panic!("key 4 is absent"),
    }
    assert_eq!(ids(&map), vec![9, 7, 1, 4]);
    assert!(map.validate(ValidateCompact::Compact).is_ok());
}

#[test]
fn id_index_map_extend_and_from_vec() {
    let mut map = filled(); // 5, 3, 9, 1
    map.extend(vec![item(9, 90), item(2, 2), item(5, 50)]);
    assert_eq!(ids(&map), vec![5, 3, 9, 1, 2]);
    assert_eq!(map.get(9), Some(&item(9, 90)));
    assert_eq!(map.get(5), Some(&item(5, 50)));

    let map = IdIndexMap::from_vec(vec![item(4, 1), item(6, 2), item(4, 3)]);
    assert_eq!(ids(&map), vec![4, 6]);
    assert_eq!(map.get(4), Some(&item(4, 3)));
}

#[test]
fn id_index_map_sort_by_key_is_stable() {
    let mut map = IdIndexMap::new();
    for (id, v) in [(5, 2), (3, 1), (9, 2), (1, 0), (7, 1)] {
        map.insert_unique(item(id, v)).unwrap();
    }
    map.sort_by_key(|i| i.v as u64);
    // Equal values keep their insertion order.
    assert_eq!(ids(&map), vec![1, 3, 7, 5, 9]);
    assert_eq!(map.get_index_of(7), Some(2));
    map.sort_by_key(|i| i.id);
    assert_eq!(ids(&map), vec![1, 3, 5, 7, 9]);
    assert!(map.validate(ValidateCompact::Compact).is_ok());
    let mut empty: IdIndexMap<Item> = IdIndexMap::new();
    empty.sort_by_key(|i| i.id);
    assert!(empty.is_empty());
}
