//! An ordered map where keys are part of the values.

mod entry;
mod imp;

pub use entry::{Entry, OccupiedEntry, VacantEntry, group_entry_resolution};

pub use imp::{
    distinct_keys_upto, first_repeat, ord_key, ord_overwrite_all, pairwise_eq, IdOrdItem, IdOrdMap,
};
