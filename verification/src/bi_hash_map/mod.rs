//! A hash map where items are uniquely indexed by two keys.

mod daft_impls;
mod entry;
mod entry_indexes;
mod imp;

pub use daft_impls::{in_both, Diff};
pub use entry::{Entry, OccupiedEntry, OccupiedEntryRef, VacantEntry, group_entry_resolution};
pub use entry_indexes::{DisjointKeys, EntryIndexes};
pub use imp::{
    bi_key1, bi_key2, bi_overwrite_all, bi_views_match, conflict_slots, overwrite_by_key1, overwrite_by_key2,
    overwritten_items, same_items, without_items1, without_items2, BiHashItem, BiHashMap,
};
