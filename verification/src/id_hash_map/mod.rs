//! A hash map where keys are part of the values.

mod daft_impls;
mod entry;
mod imp;

pub use entry::{Entry, OccupiedEntry, VacantEntry, group_entry_resolution};

pub use daft_impls::Diff;
pub use imp::{hash_key, overwrite_all, views_match, IdHashItem, IdHashMap};
