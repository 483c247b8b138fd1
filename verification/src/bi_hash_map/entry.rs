//! The entry API of a [`BiHashMap`]: a view of one pair of keys, borrowed
//! mutably, through which the items those keys reach are read, replaced or
//! removed, or an item is inserted where neither key is present.

use super::entry_indexes::EntryIndexes;
use super::imp::{
    overwrite_by_key1, overwrite_by_key2, overwritten_items, without_items1, without_items2,
    BiHashItem, BiHashMap,
};
use vstd::prelude::*;

verus! {

/// The items that an occupied entry reaches through its two keys.
#[derive(Debug)]
pub enum OccupiedEntryRef<'a, T: BiHashItem> {
    /// Both keys reach the same item.
    Unique(&'a T),
    /// The keys reach different items, or only one of them reaches an item.
    NonUnique { by_key1: Option<&'a T>, by_key2: Option<&'a T> },
}

impl<'a, T: BiHashItem> OccupiedEntryRef<'a, T> {
    /// The item the first key reaches.
    pub open spec fn spec_by_key1(&self) -> Option<&'a T> {
        match *self {
            OccupiedEntryRef::Unique(v) => Some(v),
            OccupiedEntryRef::NonUnique { by_key1, .. } => by_key1,
        }
    }

    /// The item the second key reaches.
    pub open spec fn spec_by_key2(&self) -> Option<&'a T> {
        match *self {
            OccupiedEntryRef::Unique(v) => Some(v),
            OccupiedEntryRef::NonUnique { by_key2, .. } => by_key2,
        }
    }

    /// Whether both keys reach the same item.
    pub fn is_unique(&self) -> (b: bool)
        ensures
            b <==> *self is Unique,
    {
        match self {
            OccupiedEntryRef::Unique(_) => true,
            OccupiedEntryRef::NonUnique { .. } => false,
        }
    }

    /// Whether the keys reach different items.
    pub fn is_non_unique(&self) -> (b: bool)
        ensures
            b <==> *self is NonUnique,
    {
        !self.is_unique()
    }

    /// The item both keys reach, if they reach the same one.
    pub fn as_unique(&self) -> (r: Option<&'a T>)
        ensures
            r == (match *self {
                OccupiedEntryRef::Unique(v) => Some(v),
                OccupiedEntryRef::NonUnique { .. } => None::<&'a T>,
            }),
    {
        match self {
            OccupiedEntryRef::Unique(v) => Some(*v),
            OccupiedEntryRef::NonUnique { .. } => None,
        }
    }

    /// The item the first key reaches.
    pub fn by_key1(&self) -> (r: Option<&'a T>)
        ensures
            r == self.spec_by_key1(),
    {
        match self {
            OccupiedEntryRef::Unique(v) => Some(*v),
            OccupiedEntryRef::NonUnique { by_key1, .. } => *by_key1,
        }
    }

    /// The item the second key reaches.
    pub fn by_key2(&self) -> (r: Option<&'a T>)
        ensures
            r == self.spec_by_key2(),
    {
        match self {
            OccupiedEntryRef::Unique(v) => Some(*v),
            OccupiedEntryRef::NonUnique { by_key2, .. } => *by_key2,
        }
    }
}

/// An entry of a [`BiHashMap`]: neither key is present, or at least one is.
pub enum Entry<'a, T: BiHashItem> {
    /// Neither key is present.
    Vacant(VacantEntry<'a, T>),
    /// At least one key is present.
    Occupied(OccupiedEntry<'a, T>),
}

/// An entry whose two keys no item of the map has.
pub struct VacantEntry<'a, T: BiHashItem> {
    map: &'a mut BiHashMap<T>,
    key1: u64,
    key2: u64,
}

/// An entry one of whose keys, or both, an item of the map has.
pub struct OccupiedEntry<'a, T: BiHashItem> {
    map: &'a mut BiHashMap<T>,
    key1: u64,
    key2: u64,
    indexes: EntryIndexes,
}

impl<'a, T: BiHashItem> VacantEntry<'a, T> {
    /// An entry that is done with leaves its map as it last saw it.
    pub broadcast proof fn lemma_resolved_map(o: Self)
        ensures
            #[trigger] has_resolved(o) ==> *final(o.map_ref()) == *o.map_ref(),
    {
    }

    /// The map the entry borrows.
    pub closed spec fn map_ref(&self) -> &'a mut BiHashMap<T> {
        self.map
    }

    /// The first key the entry was made for.
    pub closed spec fn spec_key1(&self) -> u64 {
        self.key1
    }

    /// The second key the entry was made for.
    pub closed spec fn spec_key2(&self) -> u64 {
        self.key2
    }

    /// The map is well formed and neither key is present.
    pub open spec fn wf(&self) -> bool {
        &&& self.map_ref().wf()
        &&& !self.map_ref()@.contains_key(self.spec_key1())
        &&& !self.map_ref().by_key2().contains_key(self.spec_key2())
    }

    /// Inserts `value`, which must have the entry's keys, and returns a
    /// reference to it.
    pub fn insert(self, value: T) -> (r: &'a T)
        requires
            self.wf(),
            value.key1_of() == self.spec_key1(),
            value.key2_of() == self.spec_key2(),
        ensures
            *r == value,
            final(self.map_ref()).wf(),
            final(self.map_ref())@ == self.map_ref()@.insert(value.key1_of(), value),
            final(self.map_ref()).by_key2() == self.map_ref().by_key2().insert(
                value.key2_of(),
                value,
            ),
    {
        let map = self.map;
        let index = match map.insert_unique_impl(value) {
            Ok(index) => index,
            Err(_) => unreached(),
        };
        map.get_by_index(index).unwrap()
    }

    /// Inserts `value`, which must have the entry's keys, and returns the
    /// occupied entry of those keys.
    pub fn insert_entry(self, value: T) -> (r: OccupiedEntry<'a, T>)
        requires
            self.wf(),
            value.key1_of() == self.spec_key1(),
            value.key2_of() == self.spec_key2(),
        ensures
            r.wf(),
            r.spec_key1() == self.spec_key1(),
            r.spec_key2() == self.spec_key2(),
            r.spec_indexes() is Unique,
            r.map_ref()@ == self.map_ref()@.insert(value.key1_of(), value),
            r.map_ref().by_key2() == self.map_ref().by_key2().insert(value.key2_of(), value),
            *final(r.map_ref()) == *final(self.map_ref()),
    {
        let map = self.map;
        let index = match map.insert_unique_impl(value) {
            Ok(index) => index,
            Err(_) => unreached(),
        };
        OccupiedEntry { map, key1: self.key1, key2: self.key2, indexes: EntryIndexes::Unique(index) }
    }
}

impl<'a, T: BiHashItem> OccupiedEntry<'a, T> {
    /// An entry that is done with leaves its map as it last saw it.
    pub broadcast proof fn lemma_resolved_map(o: Self)
        ensures
            #[trigger] has_resolved(o) ==> *final(o.map_ref()) == *o.map_ref(),
    {
    }

    /// The map the entry borrows.
    pub closed spec fn map_ref(&self) -> &'a mut BiHashMap<T> {
        self.map
    }

    /// The first key the entry was made for.
    pub closed spec fn spec_key1(&self) -> u64 {
        self.key1
    }

    /// The second key the entry was made for.
    pub closed spec fn spec_key2(&self) -> u64 {
        self.key2
    }

    /// The slots the entry's keys reach.
    pub closed spec fn spec_indexes(&self) -> EntryIndexes {
        self.indexes
    }

    /// The map is well formed and the keys reach the entry's slots.
    pub open spec fn wf(&self) -> bool {
        &&& self.map_ref().wf()
        &&& self.map_ref().spec_entry(self.spec_key1(), self.spec_key2()) == Some(
            self.spec_indexes(),
        )
        &&& self.map_ref().entry_in_slots(self.spec_indexes())
    }

    /// `r` holds, by first key, the item with the entry's first key, if any,
    /// and, by second key, the item with its second key, if any; it is
    /// unique exactly when those are one item.
    pub open spec fn reaches_view_items(&self, r: OccupiedEntryRef<'_, T>) -> bool {
        &&& r.spec_by_key1() == (if self.map_ref()@.contains_key(self.spec_key1()) {
            Some(&self.map_ref()@[self.spec_key1()])
        } else {
            None::<&T>
        })
        &&& r.spec_by_key2() == (if self.map_ref().by_key2().contains_key(self.spec_key2()) {
            Some(&self.map_ref().by_key2()[self.spec_key2()])
        } else {
            None::<&T>
        })
        &&& (r is Unique <==> self.map_ref()@.contains_key(self.spec_key1())
            && self.map_ref().by_key2().contains_key(self.spec_key2())
            && self.map_ref()@[self.spec_key1()].key2_of() == self.spec_key2())
    }

    /// Whether both keys reach the same item.
    pub fn is_unique(&self) -> (b: bool)
        ensures
            b <==> self.spec_indexes() is Unique,
    {
        self.indexes.is_unique()
    }

    /// Whether the keys reach different items, or only one reaches an item.
    pub fn is_non_unique(&self) -> (b: bool)
        ensures
            b <==> self.spec_indexes() is NonUnique,
    {
        !self.is_unique()
    }

    /// The items the entry's keys reach.
    pub fn get(&self) -> (r: OccupiedEntryRef<'_, T>)
        requires
            self.wf(),
        ensures
            r == self.map_ref().spec_entry_ref(self.spec_indexes()),
            self.reaches_view_items(r),
    {
        proof {
            self.map.lemma_entry_ref_by_keys(self.key1, self.key2);
        }
        self.map.get_by_entry_index(self.indexes)
    }

    /// The items the entry's keys reach, borrowed for as long as the map
    /// was.
    pub fn into_ref(self) -> (r: OccupiedEntryRef<'a, T>)
        requires
            self.wf(),
        ensures
            r == self.map_ref().spec_entry_ref(self.spec_indexes()),
            *final(self.map_ref()) == *self.map_ref(),
            self.reaches_view_items(r),
    {
        proof {
            self.map.lemma_entry_ref_by_keys(self.key1, self.key2);
        }
        let map = self.map;
        map.get_by_entry_index(self.indexes)
    }

    /// Puts `value`, which must have the entry's keys, in place of the items
    /// those keys reach, and returns those items (by first key, then by
    /// second key).
    pub fn insert(&mut self, value: T) -> (r: Vec<T>)
        requires
            old(self).wf(),
            value.key1_of() == old(self).spec_key1(),
            value.key2_of() == old(self).spec_key2(),
        ensures
            final(self).wf(),
            final(self).spec_key1() == old(self).spec_key1(),
            final(self).spec_key2() == old(self).spec_key2(),
            final(self).spec_indexes() is Unique,
            final(self).map_ref()@ == overwrite_by_key1(
                old(self).map_ref()@,
                old(self).map_ref().by_key2(),
                value,
            ),
            final(self).map_ref().by_key2() == overwrite_by_key2(
                old(self).map_ref()@,
                old(self).map_ref().by_key2(),
                value,
            ),
            r@ == overwritten_items(old(self).map_ref()@, old(self).map_ref().by_key2(), value),
            *final(final(self).map_ref()) == *final(old(self).map_ref()),
    {
        let (index, old_items) = self.map.replace_at_indexes(self.indexes, value);
        self.indexes = EntryIndexes::Unique(index);
        proof {
            assert(self.map.slots().contains_key(index));
        }
        old_items
    }

    /// Removes the items the entry's keys reach and returns them (by first
    /// key, then by second key).
    pub fn remove(self) -> (r: Vec<T>)
        requires
            self.wf(),
        ensures
            r@ == self.map_ref().spec_entry_items(self.spec_indexes()),
            final(self.map_ref()).wf(),
            final(self.map_ref())@ == without_items1(self.map_ref()@, r@),
            final(self.map_ref()).by_key2() == without_items2(self.map_ref().by_key2(), r@),
    {
        self.map.remove_by_entry_index(self.indexes)
    }
}

impl<'a, T: BiHashItem> Entry<'a, T> {
    /// The map the entry borrows.
    pub open spec fn map_ref(&self) -> &'a mut BiHashMap<T> {
        match self {
            Entry::Vacant(v) => v.map_ref(),
            Entry::Occupied(o) => o.map_ref(),
        }
    }

    /// The entry is well formed, whichever it is.
    pub open spec fn wf(&self) -> bool {
        match self {
            Entry::Vacant(v) => v.wf(),
            Entry::Occupied(o) => o.wf(),
        }
    }

    /// The items the entry's keys reach if it is occupied, else `default`,
    /// which must have the entry's keys, inserted.
    pub fn or_insert(self, default: T) -> (r: OccupiedEntryRef<'a, T>)
        requires
            self.wf(),
            self matches Entry::Vacant(v) ==> default.key1_of() == v.spec_key1()
                && default.key2_of() == v.spec_key2(),
        ensures
            match self {
                Entry::Occupied(o) => {
                    &&& r == o.map_ref().spec_entry_ref(o.spec_indexes())
                    &&& o.reaches_view_items(r)
                    &&& *final(o.map_ref()) == *o.map_ref()
                },
                Entry::Vacant(v) => {
                    &&& r == OccupiedEntryRef::Unique(&default)
                    &&& final(v.map_ref()).wf()
                    &&& final(v.map_ref())@ == v.map_ref()@.insert(default.key1_of(), default)
                    &&& final(v.map_ref()).by_key2() == v.map_ref().by_key2().insert(
                        default.key2_of(),
                        default,
                    )
                },
            },
    {
        match self {
            Entry::Occupied(entry) => entry.into_ref(),
            Entry::Vacant(entry) => OccupiedEntryRef::Unique(entry.insert(default)),
        }
    }

    /// Like [`Entry::or_insert`], calling `default` for the item only when
    /// the entry is vacant.
    pub fn or_insert_with<F: FnOnce() -> T>(self, default: F) -> (r: OccupiedEntryRef<'a, T>)
        requires
            self.wf(),
            self matches Entry::Vacant(v) ==> default.requires(()) && forall|t: T|
                #[trigger] default.ensures((), t) ==> t.key1_of() == v.spec_key1() && t.key2_of()
                    == v.spec_key2(),
        ensures
            match self {
                Entry::Occupied(o) => {
                    &&& r == o.map_ref().spec_entry_ref(o.spec_indexes())
                    &&& o.reaches_view_items(r)
                    &&& *final(o.map_ref()) == *o.map_ref()
                },
                Entry::Vacant(v) => {
                    &&& r is Unique
                    &&& default.ensures((), *r->Unique_0)
                    &&& final(v.map_ref()).wf()
                    &&& final(v.map_ref())@ == v.map_ref()@.insert(
                        r->Unique_0.key1_of(),
                        *r->Unique_0,
                    )
                    &&& final(v.map_ref()).by_key2() == v.map_ref().by_key2().insert(
                        r->Unique_0.key2_of(),
                        *r->Unique_0,
                    )
                },
            },
    {
        match self {
            Entry::Occupied(entry) => entry.into_ref(),
            Entry::Vacant(entry) => {
                let value = default();
                OccupiedEntryRef::Unique(entry.insert(value))
            },
        }
    }
}

impl<T: BiHashItem> BiHashMap<T> {
    /// The entry of the keys `key1` and `key2`: vacant when neither is
    /// present, occupied when either is.
    pub fn entry<'a>(&'a mut self, key1: u64, key2: u64) -> (e: Entry<'a, T>)
        requires
            old(self).wf(),
        ensures
            e.wf(),
            *e.map_ref() == *old(self),
            *final(e.map_ref()) == *final(self),
            e is Vacant <==> !old(self)@.contains_key(key1) && !old(self).by_key2().contains_key(
                key2,
            ),
            e matches Entry::Vacant(v) ==> v.spec_key1() == key1 && v.spec_key2() == key2,
            e matches Entry::Occupied(o) ==> o.spec_key1() == key1 && o.spec_key2() == key2
                && old(self).spec_entry(key1, key2) == Some(o.spec_indexes()),
    {
        match self.find_entry_indexes(key1, key2) {
            Some(indexes) => Entry::Occupied(OccupiedEntry { map: self, key1, key2, indexes }),
            None => Entry::Vacant(VacantEntry { map: self, key1, key2 }),
        }
    }
}

/// Entries that are done with leave their maps as they last saw them.
pub broadcast group group_entry_resolution {
    VacantEntry::lemma_resolved_map,
    OccupiedEntry::lemma_resolved_map,
}

} // verus!
