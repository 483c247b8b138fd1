//! The hash table from keys to slot indexes, held in a `hashbrown` map.

use vstd::prelude::*;

verus! {

#[verifier::external_type_specification]
#[verifier::external_body]
pub struct ExDefaultHashBuilder(hashbrown::DefaultHashBuilder);

/// A `hashbrown::HashMap<u64, usize>` from keys to slot indexes.
#[derive(Debug)]
#[verifier::external_body]
pub struct KeyTable {
    table: hashbrown::HashMap<u64, usize>,
}

/// What a key table maps each key to.
pub uninterp spec fn table_contents(t: KeyTable) -> Map<u64, usize>;

/// The hasher state a key table was made with.
pub uninterp spec fn table_hasher(t: KeyTable) -> hashbrown::DefaultHashBuilder;

/// Calls `hashbrown::DefaultHashBuilder::default`, a freshly seeded hasher
/// state.
#[verifier::external_body]
pub(crate) fn default_hasher() -> (h: hashbrown::DefaultHashBuilder) {
    hashbrown::DefaultHashBuilder::default()
}

/// Calls `hashbrown::DefaultHashBuilder::clone`. The builder is foldhash's
/// `RandomState`, a `Copy` type whose derived `Clone` copies it, so the
/// clone is the same state.
#[verifier::external_body]
pub(crate) fn clone_hasher(h: &hashbrown::DefaultHashBuilder) -> (c: hashbrown::DefaultHashBuilder)
    ensures
        c == *h,
{
    h.clone()
}

impl KeyTable {
    /// Calls `hashbrown::HashMap::with_capacity_and_hasher`, which makes an
    /// empty map. It panics ("capacity overflow") when the bucket array for
    /// `capacity` entries would exceed `isize::MAX` bytes, which cannot
    /// happen below `isize::MAX / 64` entries.
    #[verifier::external_body]
    pub(crate) fn with_capacity_and_hasher(
        capacity: usize,
        hasher: hashbrown::DefaultHashBuilder,
    ) -> (table: KeyTable)
        requires
            capacity <= isize::MAX / 64,
        ensures
            table_contents(table) =~= Map::empty(),
            table_hasher(table) == hasher,
    {
        KeyTable { table: hashbrown::HashMap::with_capacity_and_hasher(capacity, hasher) }
    }

    /// Calls `hashbrown::HashMap::hasher`, the state the map hashes keys with:
    /// the one it was made with.
    #[verifier::external_body]
    pub(crate) fn hasher(&self) -> (h: &hashbrown::DefaultHashBuilder)
        ensures
            *h == table_hasher(*self),
    {
        self.table.hasher()
    }

    /// Calls `hashbrown::HashMap::get`: the index stored for `key`, if any.
    #[verifier::external_body]
    pub(crate) fn get(&self, key: u64) -> (r: Option<usize>)
        ensures
            r == (if table_contents(*self).contains_key(key) {
                Some(table_contents(*self)[key])
            } else {
                None::<usize>
            }),
    {
        self.table.get(&key).copied()
    }

    /// Calls `hashbrown::HashMap::insert`: maps `key` to `index`, returning
    /// the index it replaced. The hasher state stays.
    #[verifier::external_body]
    pub(crate) fn insert(&mut self, key: u64, index: usize) -> (r: Option<usize>)
        ensures
            table_contents(*final(self)) == table_contents(*old(self)).insert(key, index),
            table_hasher(*final(self)) == table_hasher(*old(self)),
            r == (if table_contents(*old(self)).contains_key(key) {
                Some(table_contents(*old(self))[key])
            } else {
                None::<usize>
            }),
    {
        self.table.insert(key, index)
    }

    /// Calls `hashbrown::HashMap::remove`: unmaps `key`, returning its index.
    /// The hasher state stays.
    #[verifier::external_body]
    pub(crate) fn remove(&mut self, key: u64) -> (r: Option<usize>)
        ensures
            table_contents(*final(self)) == table_contents(*old(self)).remove(key),
            table_hasher(*final(self)) == table_hasher(*old(self)),
            r == (if table_contents(*old(self)).contains_key(key) {
                Some(table_contents(*old(self))[key])
            } else {
                None::<usize>
            }),
    {
        self.table.remove(&key)
    }
}

} // verus!
