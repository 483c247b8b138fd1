use iddqd::internal::ValidateCompact;
use iddqd::item_set::ItemSet;

#[test]
fn item_set_insert_assigns_dense_indexes() {
    let mut set: ItemSet<u32> = ItemSet::new();
    let a = set.insert(10);
    let b = set.insert(20);
    let c = set.insert(30);
    assert_eq!(a, 0, "first insert lands at index 0");
    assert_eq!(b, 1, "second insert lands at index 1");
    assert_eq!(c, 2, "third insert lands at index 2");
    assert_eq!(set.len(), 3, "three inserts give len 3");
    assert!(set.validate(ValidateCompact::Compact).is_ok(), "a hole-free set is compact");
}

#[test]
fn item_set_remove_then_insert_reuses_freed_slot() {
    for k in 0..3usize {
        let mut set: ItemSet<u32> = ItemSet::new();
        set.insert(10);
        set.insert(20);
        set.insert(30);
        assert!(set.validate(ValidateCompact::Compact).is_ok(), "fresh set is compact");

        let removed = set.remove(k);
        assert!(removed.is_some(), "removed an occupied slot");
        assert_eq!(set.len(), 2, "remove decrements len");
        assert!(
            set.validate(ValidateCompact::NonCompact).is_ok(),
            "one hole is a well-formed non-compact set"
        );

        let reused = set.insert(99);
        assert_eq!(reused, k, "freed slot k is reused");
        assert_eq!(set.len(), 3, "reinsert restores len");
        assert_eq!(set.get(k), Some(&99), "the reused slot holds the new value");
        assert!(
            set.validate(ValidateCompact::Compact).is_ok(),
            "hole is filled, set is compact again"
        );
    }
}

#[test]
fn item_set_hole_in_the_middle_is_not_compact() {
    let mut set: ItemSet<u32> = ItemSet::new();
    set.insert(1);
    set.insert(2);
    set.insert(3);
    assert_eq!(set.remove(0), Some(1));
    assert!(set.validate(ValidateCompact::Compact).is_err());
    assert!(set.validate(ValidateCompact::NonCompact).is_ok());
    assert_eq!(set.next_index(), 0);
}

#[test]
fn item_set_remove_missing_slot() {
    let mut set: ItemSet<u32> = ItemSet::with_capacity(4);
    assert!(set.capacity() >= 4);
    assert!(set.is_empty());
    assert_eq!(set.remove(0), None);
    set.insert(5);
    assert_eq!(set.remove(7), None);
    assert_eq!(set.remove(0), Some(5));
    assert_eq!(set.remove(0), None);
    assert!(set.is_empty());
}

#[test]
fn item_set_freed_slots_are_reused_last_in_first_out() {
    let mut set: ItemSet<u32> = ItemSet::new();
    for v in 0..5 {
        set.insert(v);
    }
    set.remove(1);
    set.remove(3);
    assert_eq!(set.insert(30), 3);
    assert_eq!(set.insert(10), 1);
    assert_eq!(set.insert(50), 5);
    assert_eq!(set.indexes(), vec![0, 1, 2, 3, 4, 5]);
}

#[test]
fn item_set_replace_keeps_slot() {
    let mut set: ItemSet<&str> = ItemSet::new();
    let ix = set.insert("a");
    assert_eq!(set.replace(ix, "b"), "a");
    assert_eq!(set.get(ix), Some(&"b"));
    assert_eq!(set.len(), 1);
}
