//! The entry API: a view of one key of an [`IdHashMap`], borrowed mutably,
//! through which the item with that key is read, replaced or removed, or an
//! item is inserted where there is none.

use super::imp::{IdHashItem, IdHashMap};
use vstd::prelude::*;

verus! {

/// An entry of an [`IdHashMap`]: the key is either absent or present.
pub enum Entry<'a, T: IdHashItem> {
    /// No item has the key.
    Vacant(VacantEntry<'a, T>),
    /// An item has the key.
    Occupied(OccupiedEntry<'a, T>),
}

/// An entry whose key no item of the map has.
pub struct VacantEntry<'a, T: IdHashItem> {
    map: &'a mut IdHashMap<T>,
    key: u64,
}

/// An entry whose key an item of the map has.
pub struct OccupiedEntry<'a, T: IdHashItem> {
    map: &'a mut IdHashMap<T>,
    index: usize,
}

impl<'a, T: IdHashItem> VacantEntry<'a, T> {
    /// An entry that is done with leaves its map as it last saw it.
    pub broadcast proof fn lemma_resolved_map(o: Self)
        ensures
            #[trigger] has_resolved(o) ==> *final(o.map_ref()) == *o.map_ref(),
    {
    }

    /// The map the entry borrows.
    pub closed spec fn map_ref(&self) -> &'a mut IdHashMap<T> {
        self.map
    }

    /// The key the entry was made for.
    pub closed spec fn spec_key(&self) -> u64 {
        self.key
    }

    /// Inserts `value`, which must have the entry's key, and returns a
    /// reference to it.
    pub fn insert(self, value: T) -> (r: &'a T)
        requires
            self.map_ref().wf(),
            !self.map_ref()@.contains_key(value.key_of()),
            value.key_of() == self.spec_key(),
        ensures
            *r == value,
            final(self.map_ref()).wf(),
            final(self.map_ref())@ == self.map_ref()@.insert(value.key_of(), value),
    {
        let map = self.map;
        let index = match map.insert_unique_impl(value) {
            Ok(index) => index,
            Err(_) => unreached(),
        };
        map.get_by_index(index).unwrap()
    }

    /// Inserts `value`, which must have the entry's key, and returns the
    /// occupied entry of that key.
    pub fn insert_entry(self, value: T) -> (r: OccupiedEntry<'a, T>)
        requires
            self.map_ref().wf(),
            !self.map_ref()@.contains_key(value.key_of()),
            value.key_of() == self.spec_key(),
        ensures
            r.wf(),
            r.spec_get() == value,
            r.map_ref()@ == self.map_ref()@.insert(value.key_of(), value),
            *final(r.map_ref()) == *final(self.map_ref()),
    {
        let map = self.map;
        let index = match map.insert_unique_impl(value) {
            Ok(index) => index,
            Err(_) => unreached(),
        };
        OccupiedEntry { map, index }
    }
}

impl<'a, T: IdHashItem> OccupiedEntry<'a, T> {
    /// An entry that is done with leaves its map as it last saw it.
    pub broadcast proof fn lemma_resolved_map(o: Self)
        ensures
            #[trigger] has_resolved(o) ==> *final(o.map_ref()) == *o.map_ref(),
    {
    }

    /// The map the entry borrows.
    pub closed spec fn map_ref(&self) -> &'a mut IdHashMap<T> {
        self.map
    }

    /// The slot of the entry's item.
    pub closed spec fn spec_index(&self) -> usize {
        self.index
    }

    /// The entry's item.
    pub open spec fn spec_get(&self) -> T {
        self.map_ref().slots()[self.spec_index()]
    }

    /// The map is well formed and the entry's slot is occupied.
    pub open spec fn wf(&self) -> bool {
        &&& self.map_ref().wf()
        &&& self.map_ref().slots().contains_key(self.spec_index())
    }

    /// The entry's item.
    pub fn get(&self) -> (r: &T)
        requires
            self.wf(),
        ensures
            *r == self.spec_get(),
    {
        self.map.get_by_index(self.index).unwrap()
    }

    /// The entry's item, borrowed for as long as the map was.
    pub fn into_ref(self) -> (r: &'a T)
        requires
            self.wf(),
        ensures
            *r == self.spec_get(),
            *final(self.map_ref()) == *self.map_ref(),
    {
        let map = self.map;
        map.get_by_index(self.index).unwrap()
    }

    /// Replaces the entry's item with `value`, which must have the same key,
    /// and returns the old item.
    pub fn insert(&mut self, value: T) -> (r: T)
        requires
            old(self).wf(),
            value.key_of() == old(self).spec_get().key_of(),
        ensures
            final(self).wf(),
            r == old(self).spec_get(),
            final(self).spec_get() == value,
            final(self).spec_index() == old(self).spec_index(),
            final(self).map_ref()@ == old(self).map_ref()@.insert(value.key_of(), value),
            *final(final(self).map_ref()) == *final(old(self).map_ref()),
    {
        self.map.replace_at_index(self.index, value)
    }

    /// Removes the entry's item and returns it.
    pub fn remove(self) -> (r: T)
        requires
            self.wf(),
        ensures
            r == self.spec_get(),
            final(self.map_ref()).wf(),
            final(self.map_ref())@ == self.map_ref()@.remove(r.key_of()),
    {
        self.map.remove_by_index(self.index).unwrap()
    }
}

impl<'a, T: IdHashItem> Entry<'a, T> {
    /// The map the entry borrows.
    pub open spec fn map_ref(&self) -> &'a mut IdHashMap<T> {
        match self {
            Entry::Vacant(v) => v.map_ref(),
            Entry::Occupied(o) => o.map_ref(),
        }
    }

    /// The entry's item if it is occupied, else `default`, which must have
    /// the entry's key, inserted; returns a reference to that item.
    pub fn or_insert(self, default: T) -> (r: &'a T)
        requires
            self.map_ref().wf(),
            self is Occupied ==> self->Occupied_0.wf(),
            self is Vacant ==> !self.map_ref()@.contains_key(default.key_of())
                && default.key_of() == self->Vacant_0.spec_key(),
        ensures
            match self {
                Entry::Occupied(o) => {
                    &&& *r == o.spec_get()
                    &&& *final(o.map_ref()) == *o.map_ref()
                },
                Entry::Vacant(v) => {
                    &&& *r == default
                    &&& final(v.map_ref()).wf()
                    &&& final(v.map_ref())@ == v.map_ref()@.insert(default.key_of(), default)
                },
            },
    {
        match self {
            Entry::Occupied(entry) => entry.into_ref(),
            Entry::Vacant(entry) => entry.insert(default),
        }
    }

    /// Like [`Entry::or_insert`], calling `default` for the item only when
    /// the entry is vacant.
    pub fn or_insert_with<F: FnOnce() -> T>(self, default: F) -> (r: &'a T)
        requires
            self.map_ref().wf(),
            self is Occupied ==> self->Occupied_0.wf(),
            self is Vacant ==> default.requires(()) && forall|t: T|
                #[trigger] default.ensures((), t) ==> !self.map_ref()@.contains_key(t.key_of())
                    && t.key_of() == self->Vacant_0.spec_key(),
        ensures
            match self {
                Entry::Occupied(o) => {
                    &&& *r == o.spec_get()
                    &&& *final(o.map_ref()) == *o.map_ref()
                },
                Entry::Vacant(v) => {
                    &&& default.ensures((), *r)
                    &&& final(v.map_ref()).wf()
                    &&& final(v.map_ref())@ == v.map_ref()@.insert(r.key_of(), *r)
                },
            },
    {
        match self {
            Entry::Occupied(entry) => entry.into_ref(),
            Entry::Vacant(entry) => {
                let value = default();
                entry.insert(value)
            },
        }
    }
}

impl<T: IdHashItem> IdHashMap<T> {
    /// The entry of `key`: occupied when an item has the key, vacant when
    /// none has.
    pub fn entry<'a>(&'a mut self, key: u64) -> (e: Entry<'a, T>)
        requires
            old(self).wf(),
        ensures
            *e.map_ref() == *old(self),
            *final(e.map_ref()) == *final(self),
            e is Occupied <==> old(self)@.contains_key(key),
            e matches Entry::Occupied(o) ==> o.wf() && o.spec_get() == old(self)@[key],
            e matches Entry::Vacant(v) ==> v.spec_key() == key,
    {
        match self.find_slot(key) {
            Some(index) => Entry::Occupied(OccupiedEntry { map: self, index }),
            None => Entry::Vacant(VacantEntry { map: self, key }),
        }
    }
}

/// Entries that are done with leave their maps as they last saw them.
pub broadcast group group_entry_resolution {
    VacantEntry::lemma_resolved_map,
    OccupiedEntry::lemma_resolved_map,
}

} // verus!
