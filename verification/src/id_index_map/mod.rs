//! A map where keys are part of the values and insertion order is kept.

mod entry;
mod imp;

pub use entry::{Entry, OccupiedEntry, VacantEntry, group_entry_resolution};

pub use imp::{
    distinct_keys, index_overwrite, index_overwrite_all, is_permutation, position_of, sorts_stably,
    table_positions, IdIndexMap,
};
