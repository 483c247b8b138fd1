use iddqd::id_ord_map::{Entry, IdOrdItem, IdOrdMap};
use iddqd::internal::{ValidateChaos, ValidateCompact};
use iddqd::records::{RecordLargeOwnedU32, RecordOwnedU32, LARGE_RECORD_PAYLOAD};

#[derive(Debug, PartialEq, Eq, Clone)]
struct User {
    id: u64,
    age: u8,
}

impl IdOrdItem for User {
    fn key_of(&self) -> u64 {
        self.id
    }

    fn key(&self) -> u64 {
        self.id
    }
}

fn user(id: u64, age: u8) -> User {
    User { id, age }
}

#[test]
fn id_ord_map_iterates_in_key_order() {
    let mut users = IdOrdMap::new();
    users.insert_unique(user(30, 1)).unwrap();
    users.insert_unique(user(10, 2)).unwrap();
    users.insert_unique(user(20, 3)).unwrap();
    let ids: Vec<u64> = users.iter().iter().map(|u| u.id).collect();
    assert_eq!(ids, vec![10, 20, 30]);
    assert_eq!(users.get(10).unwrap().age, 2);
    assert!(users.contains_key(20));
    assert!(!users.contains_key(40));
}

#[test]
fn id_ord_map_insert_overwrite_and_remove() {
    let mut users = IdOrdMap::with_capacity(4);
    assert!(users.capacity() >= 4);
    assert!(users.insert_overwrite(user(1, 30)).is_none());
    assert_eq!(users.insert_overwrite(user(1, 31)), Some(user(1, 30)));
    assert!(users.insert_unique(user(1, 32)).is_err());
    assert_eq!(users.len(), 1);
    assert_eq!(users.remove(1), Some(user(1, 31)));
    assert!(users.remove(1).is_none());
    assert!(users.is_empty());
}

#[test]
fn id_ord_map_from_iter_unique() {
    let ok = IdOrdMap::from_iter_unique(vec![user(2, 1), user(1, 2)]).unwrap();
    assert_eq!(ok.len(), 2);
    let err = IdOrdMap::from_iter_unique(vec![user(2, 1), user(1, 2), user(2, 3)]).unwrap_err();
    let (new, dups) = err.into_parts();
    assert_eq!(new, user(2, 3));
    assert_eq!(dups, vec![user(2, 1)]);
}

#[test]
fn id_ord_map_validate_with_and_without_chaos() {
    let mut users = IdOrdMap::from_vec(vec![user(1, 1), user(2, 2), user(3, 3)]);
    assert!(users.validate(ValidateCompact::Compact, ValidateChaos::No).is_ok());
    assert!(users.validate(ValidateCompact::Compact, ValidateChaos::Yes).is_ok());
    users.remove(2);
    assert!(users.validate(ValidateCompact::Compact, ValidateChaos::Yes).is_err());
    assert!(users.validate(ValidateCompact::NonCompact, ValidateChaos::Yes).is_ok());
}

#[test]
fn id_ord_map_eq_follows_key_order() {
    let a = IdOrdMap::from_vec(vec![user(1, 1), user(2, 2)]);
    let b = IdOrdMap::from_vec(vec![user(2, 2), user(1, 1)]);
    let c = IdOrdMap::from_vec(vec![user(1, 1), user(2, 3)]);
    assert!(a.eq(&b));
    assert!(b.eq(&a));
    assert!(!a.eq(&c));
    assert!(!a.eq(&IdOrdMap::new()));
}

#[test]
fn id_ord_map_entry_and_slots() {
    let mut users = IdOrdMap::new();
    users.insert_unique(user(5, 1)).unwrap();
    assert!(matches!(users.entry(5), Entry::Occupied(_)));
    assert!(matches!(users.entry(6), Entry::Vacant(_)));
    assert_eq!(users.get_by_index(0), Some(&user(5, 1)));
    assert_eq!(users.replace_at_index(0, user(5, 2)), user(5, 1));
    assert_eq!(users.remove_by_index(0), Some(user(5, 2)));
    assert_eq!(users.remove_by_index(0), None);
}

#[test]
fn records_are_keyed_by_index() {
    let mut map = IdOrdMap::new();
    map.insert_unique(RecordOwnedU32 { index: 7, data: String::from("seven") }).unwrap();
    map.insert_unique(RecordOwnedU32 { index: 3, data: String::from("three") }).unwrap();
    let data: Vec<&str> = map.iter().iter().map(|r| r.data.as_str()).collect();
    assert_eq!(data, vec!["three", "seven"]);
    let mut large = IdOrdMap::new();
    large.insert_unique(RecordLargeOwnedU32 { index: 1, data: [0u8; LARGE_RECORD_PAYLOAD] }).unwrap();
    assert!(large.contains_key(1));
}

#[test]
fn id_ord_map_holds_boxed_and_shared_items() {
    let mut boxed: IdOrdMap<Box<User>> = IdOrdMap::new();
    boxed.insert_unique(Box::new(user(2, 20))).unwrap();
    boxed.insert_unique(Box::new(user(1, 10))).unwrap();
    assert!(boxed.insert_unique(Box::new(user(2, 99))).is_err());
    let ids: Vec<u64> = boxed.iter().iter().map(|u| u.id).collect();
    assert_eq!(ids, vec![1, 2]);

    let a = user(5, 1);
    let b = user(3, 2);
    let mut refs: IdOrdMap<&User> = IdOrdMap::new();
    refs.insert_unique(&a).unwrap();
    refs.insert_unique(&b).unwrap();
    assert_eq!(refs.get(3).map(|u| u.age), Some(2));

    let mut shared: IdOrdMap<std::rc::Rc<User>> = IdOrdMap::new();
    shared.insert_unique(std::rc::Rc::new(user(9, 9))).unwrap();
    assert!(shared.contains_key(9));
}

#[test]
fn id_ord_map_entry_api() {
    let mut users = IdOrdMap::new();
    users.insert_unique(user(1, 10)).unwrap();

    // A vacant entry inserts; an occupied one hands back what is there.
    assert_eq!(users.entry(2).or_insert_ref(user(2, 20)), &user(2, 20));
    assert_eq!(users.entry(1).or_insert_ref(user(1, 99)), &user(1, 10));
    assert_eq!(users.entry(3).or_insert_with_ref(|| user(3, 30)).age, 30);
    assert_eq!(users.len(), 3);

    match users.entry(1) {
        Entry::Occupied(mut o) => {
            assert_eq!(o.get(), &user(1, 10));
            assert_eq!(o.insert(user(1, 11)), user(1, 10));
            assert_eq!(o.get(), &user(1, 11));
        }
        Entry::Vacant(_) => panic!("key 1 is present"),
    }
    assert_eq!(users.get(1), Some(&user(1, 11)));

    match users.entry(2) {
        Entry::Occupied(o) => assert_eq!(o.remove(), user(2, 20)),
        Entry::Vacant(_) => panic!("key 2 is present"),
    }
    assert!(!users.contains_key(2));

    match users.entry(4) {
        Entry::Vacant(v) => {
            let o = v.insert_entry(user(4, 40));
            assert_eq!(o.into_ref(), &user(4, 40));
        }
        Entry::Occupied(_) => panic!("key 4 is absent"),
    }
    let ids: Vec<u64> = users.iter().iter().map(|u| u.id).collect();
    assert_eq!(ids, vec![1, 3, 4]);
}

#[test]
fn id_ord_map_from_iter_unique_keeps_every_item() {
    let items = vec![user(3, 1), user(1, 2), user(2, 3)];
    let map = IdOrdMap::from_iter_unique(items.clone()).unwrap();
    assert_eq!(map.len(), items.len());
    for u in &items {
        assert_eq!(map.get(u.id), Some(u));
    }
}
