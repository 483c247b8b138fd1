//! The entry API of an [`IdIndexMap`]: a view of one key, borrowed mutably,
//! through which the item with that key is read, replaced, moved or removed,
//! or an item is appended where there is none.

use super::imp::{position_of, IdIndexMap};
use crate::id_hash_map::IdHashItem;
use vstd::prelude::*;

verus! {

/// An entry of an [`IdIndexMap`]: the key is either absent or present.
pub enum Entry<'a, T: IdHashItem> {
    /// No item has the key.
    Vacant(VacantEntry<'a, T>),
    /// An item has the key.
    Occupied(OccupiedEntry<'a, T>),
}

/// An entry whose key no item of the map has.
pub struct VacantEntry<'a, T: IdHashItem> {
    map: &'a mut IdIndexMap<T>,
    key: u64,
}

/// An entry whose key an item of the map has.
pub struct OccupiedEntry<'a, T: IdHashItem> {
    map: &'a mut IdIndexMap<T>,
    index: usize,
}

impl<'a, T: IdHashItem> VacantEntry<'a, T> {
    /// An entry that is done with leaves its map as it last saw it.
    pub broadcast proof fn lemma_resolved_map(o: Self)
        ensures
            #[trigger] has_resolved(o) ==> *final(o.map_ref()) == *o.map_ref(),
    {
    }

    /// The map the entry borrows.
    pub closed spec fn map_ref(&self) -> &'a mut IdIndexMap<T> {
        self.map
    }

    /// The key the entry was made for.
    pub closed spec fn spec_key(&self) -> u64 {
        self.key
    }

    /// The map is well formed and no item has the key.
    pub open spec fn wf(&self) -> bool {
        &&& self.map_ref().wf()
        &&& position_of(self.map_ref()@, self.spec_key()) is None
    }

    /// Appends `value`, which must have the entry's key, and returns a
    /// reference to it.
    pub fn insert(self, value: T) -> (r: &'a T)
        requires
            self.wf(),
            value.key_of() == self.spec_key(),
        ensures
            *r == value,
            final(self.map_ref()).wf(),
            final(self.map_ref())@ == self.map_ref()@.push(value),
    {
        let map = self.map;
        let index = match map.insert_unique_impl(value) {
            Ok(index) => index,
            Err(_) => unreached(),
        };
        map.get_index(index).unwrap()
    }

    /// Appends `value`, which must have the entry's key, and returns the
    /// occupied entry of that key.
    pub fn insert_entry(self, value: T) -> (r: OccupiedEntry<'a, T>)
        requires
            self.wf(),
            value.key_of() == self.spec_key(),
        ensures
            r.wf(),
            r.spec_index() == self.map_ref()@.len(),
            r.map_ref()@ == self.map_ref()@.push(value),
            *final(r.map_ref()) == *final(self.map_ref()),
    {
        let map = self.map;
        let index = match map.insert_unique_impl(value) {
            Ok(index) => index,
            Err(_) => unreached(),
        };
        OccupiedEntry { map, index }
    }

    /// The position an inserted item would take: the end.
    pub fn index(&self) -> (r: usize)
        ensures
            r == self.map_ref()@.len(),
    {
        self.map.len()
    }
}

impl<'a, T: IdHashItem> OccupiedEntry<'a, T> {
    /// An entry that is done with leaves its map as it last saw it.
    pub broadcast proof fn lemma_resolved_map(o: Self)
        ensures
            #[trigger] has_resolved(o) ==> *final(o.map_ref()) == *o.map_ref(),
    {
    }

    /// The map the entry borrows.
    pub closed spec fn map_ref(&self) -> &'a mut IdIndexMap<T> {
        self.map
    }

    /// The position of the entry's item.
    pub closed spec fn spec_index(&self) -> usize {
        self.index
    }

    /// The entry's item.
    pub open spec fn spec_get(&self) -> T {
        self.map_ref()@[self.spec_index() as int]
    }

    /// The map is well formed and the entry's position holds an item.
    pub open spec fn wf(&self) -> bool {
        &&& self.map_ref().wf()
        &&& self.spec_index() < self.map_ref()@.len()
    }

    /// The entry's item.
    pub fn get(&self) -> (r: &T)
        requires
            self.wf(),
        ensures
            *r == self.spec_get(),
    {
        self.map.get_index(self.index).unwrap()
    }

    /// The entry's item, borrowed for as long as the map was.
    pub fn into_ref(self) -> (r: &'a T)
        requires
            self.wf(),
        ensures
            *r == self.spec_get(),
            *final(self.map_ref()) == *self.map_ref(),
    {
        let map = self.map;
        map.get_index(self.index).unwrap()
    }

    /// The position of the entry's item.
    pub fn index(&self) -> (r: usize)
        ensures
            r == self.spec_index(),
    {
        self.index
    }

    /// Replaces the entry's item with `value`, which must have the same key,
    /// and returns the old item.
    pub fn insert(&mut self, value: T) -> (r: T)
        requires
            old(self).wf(),
            value.key_of() == old(self).spec_get().key_of(),
        ensures
            final(self).wf(),
            r == old(self).spec_get(),
            final(self).spec_index() == old(self).spec_index(),
            final(self).map_ref()@ == old(self).map_ref()@.update(
                old(self).spec_index() as int,
                value,
            ),
            *final(final(self).map_ref()) == *final(old(self).map_ref()),
    {
        proof {
            self.map.lemma_position_of_index(self.index as int);
        }
        match self.map.insert_overwrite(value) {
            Some(old_item) => old_item,
            None => unreached(),
        }
    }

    /// Removes the entry's item and returns it; the last item takes its
    /// position.
    pub fn remove(self) -> (r: T)
        requires
            self.wf(),
        ensures
            r == self.spec_get(),
            final(self.map_ref()).wf(),
            final(self.map_ref())@ == self.map_ref()@.update(
                self.spec_index() as int,
                self.map_ref()@.last(),
            ).drop_last(),
    {
        self.swap_remove()
    }

    /// Removes the entry's item and returns it; the items after it move one
    /// position down.
    pub fn shift_remove(self) -> (r: T)
        requires
            self.wf(),
        ensures
            r == self.spec_get(),
            final(self.map_ref()).wf(),
            final(self.map_ref())@ == self.map_ref()@.remove(self.spec_index() as int),
    {
        self.map.shift_remove_index(self.index).unwrap()
    }

    /// Removes the entry's item and returns it; the last item takes its
    /// position.
    pub fn swap_remove(self) -> (r: T)
        requires
            self.wf(),
        ensures
            r == self.spec_get(),
            final(self.map_ref()).wf(),
            final(self.map_ref())@ == self.map_ref()@.update(
                self.spec_index() as int,
                self.map_ref()@.last(),
            ).drop_last(),
    {
        self.map.swap_remove_index(self.index).unwrap()
    }

    /// Moves the entry's item to position `new_index`, shifting the items
    /// between.
    pub fn move_to(&mut self, new_index: usize)
        requires
            old(self).wf(),
            new_index < old(self).map_ref()@.len(),
        ensures
            final(self).wf(),
            final(self).spec_index() == new_index,
            final(self).spec_get() == old(self).spec_get(),
            final(self).map_ref()@ == old(self).map_ref()@.remove(
                old(self).spec_index() as int,
            ).insert(new_index as int, old(self).spec_get()),
            *final(final(self).map_ref()) == *final(old(self).map_ref()),
    {
        self.map.move_index(self.index, new_index);
        self.index = new_index;
    }

    /// Swaps the entry's item with the item at position `other_index`; the
    /// entry follows its item.
    pub fn swap_with(&mut self, other_index: usize)
        requires
            old(self).wf(),
            other_index < old(self).map_ref()@.len(),
        ensures
            final(self).wf(),
            final(self).spec_index() == other_index,
            final(self).spec_get() == old(self).spec_get(),
            final(self).map_ref()@ == old(self).map_ref()@.update(
                old(self).spec_index() as int,
                old(self).map_ref()@[other_index as int],
            ).update(other_index as int, old(self).spec_get()),
            *final(final(self).map_ref()) == *final(old(self).map_ref()),
    {
        self.map.swap_indices(self.index, other_index);
        self.index = other_index;
    }
}

impl<'a, T: IdHashItem> Entry<'a, T> {
    /// The map the entry borrows.
    pub open spec fn map_ref(&self) -> &'a mut IdIndexMap<T> {
        match self {
            Entry::Vacant(v) => v.map_ref(),
            Entry::Occupied(o) => o.map_ref(),
        }
    }

    /// The entry is well formed, whichever it is.
    pub open spec fn wf(&self) -> bool {
        match self {
            Entry::Vacant(v) => v.wf(),
            Entry::Occupied(o) => o.wf(),
        }
    }

    /// The entry's item if it is occupied, else `default`, which must have
    /// the entry's key, appended; returns a reference to that item.
    pub fn or_insert(self, default: T) -> (r: &'a T)
        requires
            self.wf(),
            self matches Entry::Vacant(v) ==> default.key_of() == v.spec_key(),
        ensures
            match self {
                Entry::Occupied(o) => {
                    &&& *r == o.spec_get()
                    &&& *final(o.map_ref()) == *o.map_ref()
                },
                Entry::Vacant(v) => {
                    &&& *r == default
                    &&& final(v.map_ref()).wf()
                    &&& final(v.map_ref())@ == v.map_ref()@.push(default)
                },
            },
    {
        match self {
            Entry::Occupied(entry) => entry.into_ref(),
            Entry::Vacant(entry) => entry.insert(default),
        }
    }

    /// Like [`Entry::or_insert`], calling `default` for the item only when
    /// the entry is vacant.
    pub fn or_insert_with<F: FnOnce() -> T>(self, default: F) -> (r: &'a T)
        requires
            self.wf(),
            self matches Entry::Vacant(v) ==> default.requires(()) && forall|t: T|
                #[trigger] default.ensures((), t) ==> t.key_of() == v.spec_key(),
        ensures
            match self {
                Entry::Occupied(o) => {
                    &&& *r == o.spec_get()
                    &&& *final(o.map_ref()) == *o.map_ref()
                },
                Entry::Vacant(v) => {
                    &&& default.ensures((), *r)
                    &&& final(v.map_ref()).wf()
                    &&& final(v.map_ref())@ == v.map_ref()@.push(*r)
                },
            },
    {
        match self {
            Entry::Occupied(entry) => entry.into_ref(),
            Entry::Vacant(entry) => {
                let value = default();
                entry.insert(value)
            },
        }
    }

    /// The position of the entry's item, or where an inserted item would go.
    pub fn index(&self) -> (r: usize)
        ensures
            r == (match self {
                Entry::Occupied(o) => o.spec_index() as int,
                Entry::Vacant(v) => v.map_ref()@.len() as int,
            }),
    {
        match self {
            Entry::Occupied(entry) => entry.index(),
            Entry::Vacant(entry) => entry.index(),
        }
    }
}

impl<T: IdHashItem> IdIndexMap<T> {
    /// The entry of `key`: occupied when an item has the key, vacant when
    /// none has.
    pub fn entry<'a>(&'a mut self, key: u64) -> (e: Entry<'a, T>)
        requires
            old(self).wf(),
        ensures
            e.wf(),
            *e.map_ref() == *old(self),
            *final(e.map_ref()) == *final(self),
            e is Occupied <==> position_of(old(self)@, key) is Some,
            e matches Entry::Occupied(o) ==> position_of(old(self)@, key) == Some(
                o.spec_index() as int,
            ),
            e matches Entry::Vacant(v) ==> v.spec_key() == key,
    {
        match self.get_index_of(key) {
            Some(index) => Entry::Occupied(OccupiedEntry { map: self, index }),
            None => Entry::Vacant(VacantEntry { map: self, key }),
        }
    }
}

/// Entries that are done with leave their maps as they last saw them.
pub broadcast group group_entry_resolution {
    VacantEntry::lemma_resolved_map,
    OccupiedEntry::lemma_resolved_map,
}

} // verus!
