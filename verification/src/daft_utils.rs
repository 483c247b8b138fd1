//! A pair of items, before and after a change, stored under their key.

use crate::bi_hash_map::BiHashItem;
use crate::id_hash_map::IdHashItem;
use vstd::prelude::*;
use vstd::std_specs::cmp::PartialEqSpec;

verus! {

/// An item as it was before and as it is after a change. The two are
/// expected to have the same key; the pair is stored under the key of
/// `before`.
#[derive(Clone, Copy, Debug)]
pub struct IdLeaf<T> {
    before: T,
    after: T,
}

impl<T> IdLeaf<T> {
    /// The item before the change.
    pub closed spec fn spec_before(&self) -> T {
        self.before
    }

    /// The item after the change.
    pub closed spec fn spec_after(&self) -> T {
        self.after
    }

    /// Pairs `before` with `after`.
    pub fn new(before: T, after: T) -> (leaf: Self)
        ensures
            leaf.spec_before() == before,
            leaf.spec_after() == after,
    {
        IdLeaf { before, after }
    }

    /// The item before the change.
    pub fn before(&self) -> (r: &T)
        ensures
            *r == self.spec_before(),
    {
        &self.before
    }

    /// The item after the change.
    pub fn after(&self) -> (r: &T)
        ensures
            *r == self.spec_after(),
    {
        &self.after
    }

    /// Splits the pair into the items before and after.
    pub fn into_parts(self) -> (r: (T, T))
        ensures
            r == (self.spec_before(), self.spec_after()),
    {
        (self.before, self.after)
    }
}

impl<T: PartialEq> IdLeaf<T> {
    /// `==` considers the items before and after equal.
    pub open spec fn spec_is_unchanged(&self) -> bool {
        self.spec_before().eq_spec(&self.spec_after())
    }

    /// Whether the item did not change.
    pub fn is_unchanged(&self) -> (b: bool)
        ensures
            T::obeys_eq_spec() ==> (b <==> self.spec_is_unchanged()),
    {
        self.before.eq(&self.after)
    }

    /// Whether the item changed.
    pub fn is_modified(&self) -> (b: bool)
        ensures
            T::obeys_eq_spec() ==> (b <==> !self.spec_is_unchanged()),
    {
        !self.is_unchanged()
    }
}

impl<T: IdHashItem> IdHashItem for IdLeaf<T> {
    open spec fn key_of(&self) -> u64 {
        self.spec_before().key_of()
    }

    fn key(&self) -> (k: u64) {
        self.before.key()
    }
}

impl<T: BiHashItem> BiHashItem for IdLeaf<T> {
    open spec fn key1_of(&self) -> u64 {
        self.spec_before().key1_of()
    }

    open spec fn key2_of(&self) -> u64 {
        self.spec_before().key2_of()
    }

    fn key1(&self) -> (k: u64) {
        self.before.key1()
    }

    fn key2(&self) -> (k: u64) {
        self.before.key2()
    }
}

impl<'a, T: IdHashItem> IdHashItem for &'a T {
    open spec fn key_of(&self) -> u64 {
        (**self).key_of()
    }

    fn key(&self) -> (k: u64) {
        (**self).key()
    }
}

impl<'a, T: BiHashItem> BiHashItem for &'a T {
    open spec fn key1_of(&self) -> u64 {
        (**self).key1_of()
    }

    open spec fn key2_of(&self) -> u64 {
        (**self).key2_of()
    }

    fn key1(&self) -> (k: u64) {
        (**self).key1()
    }

    fn key2(&self) -> (k: u64) {
        (**self).key2()
    }
}

} // verus!
