//! Record types keyed by a `u32` index, as stored in benchmarks.

use crate::id_hash_map::IdHashItem;
use crate::id_ord_map::IdOrdItem;
use vstd::prelude::*;

verus! {

/// The inline payload size of the large records: the fixed-size fields of a
/// database row, without heap allocations.
pub const LARGE_RECORD_PAYLOAD: usize = 1024;

/// A record that owns its data, keyed by its index.
#[derive(Debug)]
pub struct RecordOwnedU32 {
    pub index: u32,
    pub data: String,
}

/// A record that owns its data, keyed by a reference to its index.
#[derive(Debug)]
pub struct RecordBorrowedU32 {
    pub index: u32,
    pub data: String,
}

/// A record with a 1 KiB inline payload, keyed by its index.
#[derive(Debug)]
pub struct RecordLargeOwnedU32 {
    pub index: u32,
    pub data: [u8; LARGE_RECORD_PAYLOAD],
}

/// A record with a 1 KiB inline payload, keyed by a reference to its index.
#[derive(Debug)]
pub struct RecordLargeBorrowedU32 {
    pub index: u32,
    pub data: [u8; LARGE_RECORD_PAYLOAD],
}

impl IdHashItem for RecordOwnedU32 {
    open spec fn key_of(&self) -> u64 {
        self.index as u64
    }

    fn key(&self) -> (k: u64) {
        self.index as u64
    }
}

impl IdOrdItem for RecordOwnedU32 {
    open spec fn key_of(&self) -> u64 {
        self.index as u64
    }

    fn key(&self) -> (k: u64) {
        self.index as u64
    }
}

impl IdHashItem for RecordBorrowedU32 {
    open spec fn key_of(&self) -> u64 {
        self.index as u64
    }

    fn key(&self) -> (k: u64) {
        let index: &u32 = &self.index;
        *index as u64
    }
}

impl IdOrdItem for RecordBorrowedU32 {
    open spec fn key_of(&self) -> u64 {
        self.index as u64
    }

    fn key(&self) -> (k: u64) {
        let index: &u32 = &self.index;
        *index as u64
    }
}

impl IdHashItem for RecordLargeOwnedU32 {
    open spec fn key_of(&self) -> u64 {
        self.index as u64
    }

    fn key(&self) -> (k: u64) {
        self.index as u64
    }
}

impl IdOrdItem for RecordLargeOwnedU32 {
    open spec fn key_of(&self) -> u64 {
        self.index as u64
    }

    fn key(&self) -> (k: u64) {
        self.index as u64
    }
}

impl IdHashItem for RecordLargeBorrowedU32 {
    open spec fn key_of(&self) -> u64 {
        self.index as u64
    }

    fn key(&self) -> (k: u64) {
        let index: &u32 = &self.index;
        *index as u64
    }
}

impl IdOrdItem for RecordLargeBorrowedU32 {
    open spec fn key_of(&self) -> u64 {
        self.index as u64
    }

    fn key(&self) -> (k: u64) {
        let index: &u32 = &self.index;
        *index as u64
    }
}

} // verus!
