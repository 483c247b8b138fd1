//! The error returned when an item conflicts with items already stored.

use vstd::prelude::*;

verus! {

/// An item conflicts with existing items.
#[derive(Debug)]
pub struct DuplicateItem<T, D = T> {
    new: T,
    duplicates: Vec<D>,
}

impl<T, D> DuplicateItem<T, D> {
    /// The item that was to be inserted.
    pub closed spec fn spec_new_item(&self) -> T {
        self.new
    }

    /// The stored items that the new item conflicts with.
    pub closed spec fn spec_duplicates(&self) -> Seq<D> {
        self.duplicates@
    }

    /// Creates a new `DuplicateItem` error.
    pub fn __internal_new(new: T, duplicates: Vec<D>) -> (e: Self)
        ensures
            e.spec_new_item() == new,
            e.spec_duplicates() == duplicates@,
    {
        DuplicateItem { new, duplicates }
    }

    /// Returns the new item that was attempted to be inserted.
    pub fn new_item(&self) -> (r: &T)
        ensures
            *r == self.spec_new_item(),
    {
        &self.new
    }

    /// Returns the list of items that conflict with the new item.
    pub fn duplicates(&self) -> (r: &[D])
        ensures
            r@ == self.spec_duplicates(),
    {
        self.duplicates.as_slice()
    }

    /// Converts self into its constituent parts.
    pub fn into_parts(self) -> (r: (T, Vec<D>))
        ensures
            r.0 == self.spec_new_item(),
            r.1@ == self.spec_duplicates(),
    {
        (self.new, self.duplicates)
    }
}

impl<'a, T: Clone> DuplicateItem<T, &'a T> {
    /// Converts self to an owned `DuplicateItem` by cloning the list of
    /// duplicates.
    pub fn into_owned(self) -> (r: DuplicateItem<T>)
        ensures
            r.spec_new_item() == self.spec_new_item(),
            r.spec_duplicates().len() == self.spec_duplicates().len(),
            forall|i: int|
                0 <= i < r.spec_duplicates().len() ==> cloned::<T>(
                    *self.spec_duplicates()[i],
                    #[trigger] r.spec_duplicates()[i],
                ),
            (forall|x: T, y: T| #[trigger] cloned::<T>(x, y) ==> x == y) ==> forall|i: int|
                0 <= i < r.spec_duplicates().len() ==> #[trigger] r.spec_duplicates()[i]
                    == *self.spec_duplicates()[i],
    {
        let mut owned: Vec<T> = Vec::new();
        let mut i: usize = 0;
        while i < self.duplicates.len()
            invariant
                i <= self.duplicates@.len(),
                owned@.len() == i,
                forall|j: int| 0 <= j < i ==> cloned::<T>(*self.duplicates@[j], #[trigger] owned@[j]),
            decreases self.duplicates@.len() - i,
        {
            let item: &T = self.duplicates[i];
            owned.push(item.clone());
            i = i + 1;
        }
        DuplicateItem { new: self.new, duplicates: owned }
    }
}

} // verus!
