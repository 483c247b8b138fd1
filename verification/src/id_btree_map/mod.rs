//! A B-tree map where keys are part of the values.

mod entry;
mod imp;

pub use entry::{Entry, OccupiedEntry, VacantEntry, group_entry_resolution};

pub use imp::{
    btree_distinct_keys_upto, btree_first_repeat, btree_key, btree_overwrite_all,
    btree_pairwise_eq, IdBTreeMap, IdBTreeMapEntry, IdBTreeMapEntryMut,
};
