use iddqd::errors::DuplicateItem;
use iddqd::internal::{TableValidationError, ValidationError};

#[test]
fn duplicate_item_parts() {
    let a = String::from("a");
    let err: DuplicateItem<String, &String> = DuplicateItem::__internal_new(String::from("b"), vec![&a]);
    assert_eq!(err.new_item(), "b");
    assert_eq!(err.duplicates(), &[&a]);
    let owned = err.into_owned();
    assert_eq!(owned.duplicates(), &[String::from("a")]);
    let (new, dups) = owned.into_parts();
    assert_eq!(new, "b");
    assert_eq!(dups, vec![String::from("a")]);
}

#[test]
fn validation_errors() {
    let e = ValidationError::general(String::from("bad"));
    assert!(!e.is_table());
    assert!(matches!(e, ValidationError::General(ref m) if m == "bad"));
    let t = ValidationError::Table { name: "key_to_item", error: TableValidationError::new(String::from("x")) };
    assert!(t.is_table());
}
