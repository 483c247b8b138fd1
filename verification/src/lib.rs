//! Maps whose keys are read from the values they store.

pub mod bi_hash_map;
pub mod capacity;
pub mod daft_utils;
pub mod errors;
pub mod id_btree_map;
pub mod internal;
pub mod id_hash_map;
pub mod id_index_map;
pub mod id_ord_map;
pub mod index_model;
pub mod item_set;
mod key_table;
pub mod records;
pub mod key_order;
pub mod laws;

pub use key_table::KeyTable;
