//! A hash map whose keys are read from its items.

use crate::capacity::capacity_fits;
use crate::errors::DuplicateItem;
use crate::index_model::{
    indexes_items, keyed_view, lemma_index_dom, lemma_index_insert, lemma_index_remove,
    lemma_index_replace,
};
use crate::internal::{ValidateCompact, ValidationError};
use crate::item_set::{after_fill, ItemSet};
use crate::key_table::{default_hasher, table_contents, table_hasher, KeyTable};
use vstd::prelude::*;
use vstd::std_specs::cmp::PartialEqSpec;

verus! {

/// An item stored in an [`IdHashMap`]: it knows its own key.
///
/// `key_of` is what `key` returns; an implementation written outside Verus
/// gives both the same body.
pub trait IdHashItem {
    /// The key of this item.
    spec fn key_of(&self) -> u64;

    /// Retrieves the key.
    fn key(&self) -> (k: u64)
        ensures
            k == self.key_of(),
    ;
}

/// The key function of `T`, as a spec closure.
pub open spec fn hash_key<T: IdHashItem>() -> spec_fn(T) -> u64 {
    |t: T| t.key_of()
}

/// Inserts each item of `s`, in order, into `m` under its key; a later item
/// replaces an earlier one with the same key.
pub open spec fn overwrite_all<T: IdHashItem>(m: Map<u64, T>, s: Seq<T>) -> Map<u64, T>
    decreases s.len(),
{
    if s.len() == 0 {
        m
    } else {
        overwrite_all(m, s.drop_last()).insert(s.last().key_of(), s.last())
    }
}

/// Two maps by key hold the same keys, and under each key items that `==`
/// considers equal.
pub open spec fn views_match<T: PartialEq>(a: Map<u64, T>, b: Map<u64, T>) -> bool {
    &&& a.dom() == b.dom()
    &&& forall|k: u64| #[trigger] a.contains_key(k) ==> a[k].eq_spec(&b[k])
}

/// A hash map where the key is part of the value.
///
/// Items live in slots; a hash table maps each key to the slot of the item
/// with that key.
#[derive(Debug)]
pub struct IdHashMap<T: IdHashItem> {
    items: ItemSet<T>,
    tables: KeyTable,
}

impl<T: IdHashItem> View for IdHashMap<T> {
    type V = Map<u64, T>;

    /// The items, by key.
    closed spec fn view(&self) -> Map<u64, T> {
        keyed_view(self.items@, table_contents(self.tables))
    }
}

impl<T: IdHashItem> IdHashMap<T> {
    /// The internal invariant: the table indexes the slots one to one.
    pub closed spec fn wf(&self) -> bool {
        &&& self.items.wf()
        &&& table_contents(self.tables).dom().finite()
        &&& indexes_items(self.items@, table_contents(self.tables), hash_key::<T>())
        &&& table_contents(self.tables).len() == self.items.spec_len()
    }

    /// The items, by slot index.
    pub closed spec fn slots(&self) -> Map<usize, T> {
        self.items@
    }

    /// The slot the next inserted item goes to.
    pub closed spec fn spec_next_index(&self) -> usize {
        self.items.spec_next_index()
    }

    /// Whether the occupied slots are exactly `0..len`.
    pub closed spec fn spec_is_compact(&self) -> bool {
        self.items.is_compact()
    }

    /// The hasher state the map hashes keys with.
    pub closed spec fn spec_hasher(&self) -> hashbrown::DefaultHashBuilder {
        table_hasher(self.tables)
    }

    /// The number of empty slots left by removals and not filled since.
    pub closed spec fn spec_holes(&self) -> nat {
        self.items.holes()
    }

    /// A map without holes is compact: one built by insertions alone, or
    /// whose removals were each followed by an insertion, validates as
    /// compact.
    pub proof fn lemma_hole_free_compact(&self)
        requires
            self.wf(),
            self.spec_holes() == 0,
        ensures
            self.spec_is_compact(),
    {
        self.items.lemma_hole_free_compact();
    }

    proof fn lemma_wf_view(&self)
        requires
            self.wf(),
        ensures
            self@.dom() == table_contents(self.tables).dom(),
            self@.dom().finite(),
            self@.len() == self.items.spec_len(),
            self.items@.len() == self.items.spec_len(),
            forall|k: u64| #[trigger]
                self@.contains_key(k) ==> self@[k].key_of() == k && self.items@.contains_key(
                    table_contents(self.tables)[k],
                ) && self.items@[table_contents(self.tables)[k]] == self@[k],
            forall|i: usize| #[trigger]
                self.items@.contains_key(i) ==> self@.contains_key(self.items@[i].key_of())
                    && self@[self.items@[i].key_of()] == self.items@[i],
    {
        lemma_index_dom(self.items@, table_contents(self.tables), hash_key::<T>());
        self.items.lemma_len();
        assert forall|k: u64| #[trigger] self@.contains_key(k) implies self@[k].key_of() == k by {
            assert(table_contents(self.tables).contains_key(k));
        }
        assert forall|i: usize| #[trigger] self.items@.contains_key(i) implies self@.contains_key(
            self.items@[i].key_of(),
        ) && self@[self.items@[i].key_of()] == self.items@[i] by {
            assert((hash_key::<T>())(self.items@[i]) == self.items@[i].key_of());
        }
    }

    /// Every item is stored under its own key, and there are as many items
    /// as keys.
    pub proof fn lemma_items_under_own_keys(&self)
        requires
            self.wf(),
        ensures
            self@.dom().finite(),
            forall|k: u64| #[trigger] self@.contains_key(k) ==> self@[k].key_of() == k,
    {
        self.lemma_wf_view();
    }

    fn from_parts(items: ItemSet<T>, tables: KeyTable) -> (m: Self)
        requires
            items.wf(),
            items@ == Map::<usize, T>::empty(),
            items.spec_len() == 0,
            items.hole_free(),
            table_contents(tables) == Map::<u64, usize>::empty(),
        ensures
            m.wf(),
            m@ == Map::<u64, T>::empty(),
            m.spec_is_compact(),
            m.spec_holes() == 0,
            m.slots() == Map::<usize, T>::empty(),
            m.spec_next_index() == items.spec_next_index(),
            m.spec_hasher() == table_hasher(tables),
    {
        let m = IdHashMap { items, tables };
        assert(m@ =~= Map::<u64, T>::empty());
        assert(m.items@.dom() =~= crate::item_set::index_range(0));
        m
    }

    /// Creates a new, empty map.
    pub fn new() -> (m: Self)
        ensures
            m.wf(),
            m@ == Map::<u64, T>::empty(),
            m.spec_holes() == 0,
            m.slots() == Map::<usize, T>::empty(),
            m.spec_next_index() == 0,
    {
        Self::from_parts(ItemSet::new(), KeyTable::with_capacity_and_hasher(0, default_hasher()))
    }

    /// Creates a new, empty map with room for `capacity` items.
    pub fn with_capacity(capacity: usize) -> (m: Self)
        requires
            capacity_fits::<T>(capacity),
        ensures
            m.wf(),
            m@ == Map::<u64, T>::empty(),
            m.spec_holes() == 0,
            m.slots() == Map::<usize, T>::empty(),
            m.spec_next_index() == 0,
    {
        Self::from_parts(
            ItemSet::with_capacity(capacity),
            KeyTable::with_capacity_and_hasher(capacity, default_hasher()),
        )
    }

    /// Creates a new, empty map that hashes keys with `hasher`.
    pub fn with_hasher(hasher: hashbrown::DefaultHashBuilder) -> (m: Self)
        ensures
            m.wf(),
            m@ == Map::<u64, T>::empty(),
            m.spec_hasher() == hasher,
            m.spec_holes() == 0,
            m.slots() == Map::<usize, T>::empty(),
            m.spec_next_index() == 0,
    {
        Self::from_parts(ItemSet::new(), KeyTable::with_capacity_and_hasher(0, hasher))
    }

    /// Creates a new, empty map with room for `capacity` items that hashes
    /// keys with `hasher`.
    pub fn with_capacity_and_hasher(capacity: usize, hasher: hashbrown::DefaultHashBuilder) -> (m:
        Self)
        requires
            capacity_fits::<T>(capacity),
        ensures
            m.wf(),
            m@ == Map::<u64, T>::empty(),
            m.spec_holes() == 0,
            m.slots() == Map::<usize, T>::empty(),
            m.spec_next_index() == 0,
            m.spec_hasher() == hasher,
    {
        Self::from_parts(
            ItemSet::with_capacity(capacity),
            KeyTable::with_capacity_and_hasher(capacity, hasher),
        )
    }

    /// The state the map hashes keys with.
    pub fn hasher(&self) -> (r: &hashbrown::DefaultHashBuilder)
        ensures
            *r == self.spec_hasher(),
    {
        self.tables.hasher()
    }

    /// The number of items the map holds without reallocating its slots.
    pub fn capacity(&self) -> (c: usize)
        requires
            self.wf(),
        ensures
            c >= self@.len(),
    {
        proof {
            self.lemma_wf_view();
        }
        self.items.capacity()
    }

    /// Returns true if the map is empty.
    pub fn is_empty(&self) -> (b: bool)
        requires
            self.wf(),
        ensures
            b <==> self@.len() == 0,
    {
        proof {
            self.lemma_wf_view();
        }
        self.items.is_empty()
    }

    /// Returns the number of items in the map.
    pub fn len(&self) -> (n: usize)
        requires
            self.wf(),
        ensures
            n == self@.len(),
    {
        proof {
            self.lemma_wf_view();
        }
        self.items.len()
    }

    /// The items of the map, each once, in slot order.
    pub fn iter(&self) -> (v: Vec<&T>)
        requires
            self.wf(),
        ensures
            v@.len() == self@.len(),
            forall|j: int|
                0 <= j < v@.len() ==> self@.contains_key(#[trigger] v@[j].key_of())
                    && self@[v@[j].key_of()] == *v@[j],
            forall|a: int, b: int|
                0 <= a < v@.len() && 0 <= b < v@.len() && a != b ==> v@[a].key_of()
                    != v@[b].key_of(),
            forall|k: u64| #[trigger]
                self@.contains_key(k) ==> exists|j: int| 0 <= j < v@.len() && v@[j].key_of() == k,
    {
        proof {
            self.lemma_wf_view();
        }
        let ixs = self.items.indexes();
        let mut v: Vec<&T> = Vec::new();
        let mut j: usize = 0;
        while j < ixs.len()
            invariant
                self.wf(),
                j <= ixs@.len(),
                v@.len() == j,
                forall|a: int, b: int| 0 <= a < b < ixs@.len() ==> ixs@[a] < ixs@[b],
                forall|a: int| 0 <= a < ixs@.len() ==> self.items@.contains_key(#[trigger] ixs@[a]),
                forall|a: int| 0 <= a < j ==> *v@[a] == self.items@[#[trigger] ixs@[a]],
            decreases ixs@.len() - j,
        {
            let item = self.items.get(ixs[j]).unwrap();
            v.push(item);
            j = j + 1;
        }
        proof {
            self.lemma_wf_view();
            assert forall|a: int, b: int|
                0 <= a < v@.len() && 0 <= b < v@.len() && a != b implies v@[a].key_of()
                != v@[b].key_of() by {
                assert(*v@[a] == self.items@[ixs@[a]]);
                assert(*v@[b] == self.items@[ixs@[b]]);
                assert(ixs@[a] != ixs@[b]);
                if v@[a].key_of() == v@[b].key_of() {
                    assert(self@[v@[a].key_of()] == self.items@[ixs@[a]]);
                    assert(table_contents(self.tables)[self.items@[ixs@[a]].key_of()] == ixs@[a]);
                    assert(table_contents(self.tables)[self.items@[ixs@[b]].key_of()] == ixs@[b]);
                }
            }
            assert forall|a: int| 0 <= a < v@.len() implies self@.contains_key(
                #[trigger] v@[a].key_of(),
            ) && self@[v@[a].key_of()] == *v@[a] by {
                assert(*v@[a] == self.items@[ixs@[a]]);
            }
            assert forall|k: u64| #[trigger] self@.contains_key(k) implies exists|j: int|
                0 <= j < v@.len() && v@[j].key_of() == k by {
                let i = table_contents(self.tables)[k];
                assert(self.items@.contains_key(i));
                assert(ixs@.contains(i));
                let a = choose|a: int| 0 <= a < ixs@.len() && ixs@[a] == i;
                assert(*v@[a] == self.items@[ixs@[a]]);
            }
        }
        v
    }

    /// Checks the map's invariants, and that its slots are compact when that
    /// is expected. The invariants always hold, so only compactness can fail.
    pub fn validate(&self, compactness: ValidateCompact) -> (r: Result<(), ValidationError>)
        requires
            self.wf(),
        ensures
            r is Ok <==> (compactness == ValidateCompact::NonCompact || self.spec_is_compact()),
    {
        self.items.validate(compactness)?;
        let ixs = self.items.indexes();
        let mut j: usize = 0;
        while j < ixs.len()
            invariant
                self.wf(),
                j <= ixs@.len(),
                forall|a: int| 0 <= a < ixs@.len() ==> self.items@.contains_key(#[trigger] ixs@[a]),
            decreases ixs@.len() - j,
        {
            let ix = ixs[j];
            let item = self.items.get(ix).unwrap();
            let found = self.find_index(item.key());
            proof {
                self.lemma_wf_view();
            }
            if found != Some(ix) {
                return Err(
                    ValidationError::general(String::from_str("item has a mismatched key index")),
                );
            }
            j = j + 1;
        }
        Ok(())
    }

    /// The slot of the item with key `key`, if there is one.
    fn find_index(&self, key: u64) -> (r: Option<usize>)
        requires
            self.wf(),
        ensures
            r == (if self@.contains_key(key) {
                Some(table_contents(self.tables)[key])
            } else {
                None::<usize>
            }),
            r matches Some(ix) ==> self.items@.contains_key(ix) && self.items@[ix] == self@[key],
    {
        proof {
            self.lemma_wf_view();
        }
        self.tables.get(key)
    }

    /// Returns true if the map contains the given key.
    pub fn contains_key(&self, key: u64) -> (b: bool)
        requires
            self.wf(),
        ensures
            b == self@.contains_key(key),
    {
        self.find_index(key).is_some()
    }

    /// Gets a reference to the item with the given key.
    pub fn get(&self, key: u64) -> (r: Option<&T>)
        requires
            self.wf(),
        ensures
            r == (if self@.contains_key(key) {
                Some(&self@[key])
            } else {
                None::<&T>
            }),
    {
        match self.find_index(key) {
            Some(ix) => self.items.get(ix),
            None => None,
        }
    }

    /// The slot of the item with the given key, if any.
    pub(crate) fn find_slot(&self, key: u64) -> (r: Option<usize>)
        requires
            self.wf(),
        ensures
            r is Some <==> self@.contains_key(key),
            r matches Some(ix) ==> self.slots().contains_key(ix) && self.slots()[ix] == self@[key],
    {
        self.find_index(key)
    }

    /// The item in slot `index`, if the slot is occupied.
    pub fn get_by_index(&self, index: usize) -> (r: Option<&T>)
        requires
            self.wf(),
        ensures
            r == (if self.slots().contains_key(index) {
                Some(&self.slots()[index])
            } else {
                None::<&T>
            }),
    {
        self.items.get(index)
    }

    /// Stores `value`, whose key is not in the map, and returns its slot.
    fn insert_new(&mut self, value: T) -> (ix: usize)
        requires
            old(self).wf(),
            !old(self)@.contains_key(value.key_of()),
        ensures
            final(self).wf(),
            final(self)@ == old(self)@.insert(value.key_of(), value),
            final(self).slots() == old(self).slots().insert(ix, value),
            ix == old(self).spec_next_index(),
            final(self).spec_holes() == after_fill(old(self).spec_holes()),
            final(self).spec_hasher() == old(self).spec_hasher(),
    {
        proof {
            self.lemma_wf_view();
        }
        let key = value.key();
        let ghost old_items = self.items@;
        let ghost old_table = table_contents(self.tables);
        let ghost v = value;
        let ix = self.items.insert_at_next_index(value);
        self.tables.insert(key, ix);
        proof {
            lemma_index_insert(old_items, old_table, hash_key::<T>(), ix, v);
            assert((hash_key::<T>())(v) == key);
        }
        ix
    }

    /// Inserts `value` unless an item with its key is present; returns the
    /// slot it went to, or the conflicting item.
    pub fn insert_unique_impl(&mut self, value: T) -> (r: Result<usize, DuplicateItem<T, &T>>)
        requires
            old(self).wf(),
        ensures
            final(self).wf(),
            final(self).spec_hasher() == old(self).spec_hasher(),
            match r {
                Ok(ix) => {
                    &&& !old(self)@.contains_key(value.key_of())
                    &&& final(self)@ == old(self)@.insert(value.key_of(), value)
                    &&& final(self).slots() == old(self).slots().insert(ix, value)
                    &&& ix == old(self).spec_next_index()
                    &&& final(self).spec_holes() == after_fill(old(self).spec_holes())
                },
                Err(dup) => {
                    &&& old(self)@.contains_key(value.key_of())
                    &&& *final(self) == *old(self)
                    &&& dup.spec_new_item() == value
                    &&& dup.spec_duplicates().len() == 1
                    &&& *dup.spec_duplicates()[0] == old(self)@[value.key_of()]
                },
            },
    {
        let key = value.key();
        match self.find_index(key) {
            Some(ix) => {
                let existing = self.items.get(ix).unwrap();
                Err(DuplicateItem::__internal_new(value, vec![existing]))
            },
            None => Ok(self.insert_new(value)),
        }
    }

    /// Inserts a value into the map, returning an error if an item with the
    /// same key is already present.
    pub fn insert_unique(&mut self, value: T) -> (r: Result<(), DuplicateItem<T, &T>>)
        requires
            old(self).wf(),
        ensures
            final(self).wf(),
            final(self).spec_hasher() == old(self).spec_hasher(),
            r is Ok <==> !old(self)@.contains_key(value.key_of()),
            r is Ok ==> final(self)@ == old(self)@.insert(value.key_of(), value),
            r is Ok ==> final(self).spec_holes() == after_fill(old(self).spec_holes()),
            r matches Err(dup) ==> *final(self) == *old(self) && dup.spec_new_item() == value
                && dup.spec_duplicates().len() == 1 && *dup.spec_duplicates()[0] == old(
                self,
            )@[value.key_of()],
    {
        match self.insert_unique_impl(value) {
            Ok(_) => Ok(()),
            Err(dup) => Err(dup),
        }
    }

    /// Inserts a value into the map, removing and returning the item with
    /// the same key, if any.
    pub fn insert_overwrite(&mut self, value: T) -> (r: Option<T>)
        requires
            old(self).wf(),
        ensures
            final(self).wf(),
            final(self).spec_hasher() == old(self).spec_hasher(),
            final(self)@ == old(self)@.insert(value.key_of(), value),
            r == (if old(self)@.contains_key(value.key_of()) {
                Some(old(self)@[value.key_of()])
            } else {
                None::<T>
            }),
            final(self).spec_holes() == (if old(self)@.contains_key(value.key_of()) {
                old(self).spec_holes()
            } else {
                after_fill(old(self).spec_holes())
            }),
    {
        let key = value.key();
        let duplicate = self.remove(key);
        proof {
            assert(self@ == old(self)@.remove(key));
        }
        self.insert_new(value);
        proof {
            assert(self@ =~= old(self)@.insert(key, value));
        }
        duplicate
    }

    /// Removes the item in the occupied slot `remove_index`.
    pub fn remove_by_index(&mut self, remove_index: usize) -> (r: Option<T>)
        requires
            old(self).wf(),
        ensures
            final(self).wf(),
            final(self).spec_hasher() == old(self).spec_hasher(),
            r == (if old(self).slots().contains_key(remove_index) {
                Some(old(self).slots()[remove_index])
            } else {
                None::<T>
            }),
            r matches Some(v) ==> final(self)@ == old(self)@.remove(v.key_of())
                && old(self)@.contains_key(v.key_of()) && old(self)@[v.key_of()] == v
                && final(self).slots() == old(self).slots().remove(remove_index)
                && final(self).spec_holes() == old(self).spec_holes() + 1
                && final(self).spec_next_index() == remove_index,
            r is None ==> *final(self) == *old(self),
    {
        proof {
            self.lemma_wf_view();
        }
        let ghost old_items = self.items@;
        let ghost old_table = table_contents(self.tables);
        match self.items.remove(remove_index) {
            None => None,
            Some(value) => {
                proof {
                    lemma_index_remove(old_items, old_table, hash_key::<T>(), remove_index);
                }
                let key = value.key();
                self.tables.remove(key);
                proof {
                    lemma_index_dom(old_items, old_table, hash_key::<T>());
                }
                Some(value)
            },
        }
    }

    /// Removes the item with the given key, returning it.
    pub fn remove(&mut self, key: u64) -> (r: Option<T>)
        requires
            old(self).wf(),
        ensures
            final(self).wf(),
            final(self).spec_hasher() == old(self).spec_hasher(),
            final(self)@ == old(self)@.remove(key),
            r == (if old(self)@.contains_key(key) {
                Some(old(self)@[key])
            } else {
                None::<T>
            }),
            final(self).spec_holes() == (if old(self)@.contains_key(key) {
                old(self).spec_holes() + 1
            } else {
                old(self).spec_holes()
            }),
    {
        match self.find_index(key) {
            None => {
                proof {
                    assert(self@.remove(key) =~= self@);
                }
                None
            },
            Some(ix) => self.remove_by_index(ix),
        }
    }

    /// Replaces the item in the occupied slot `index` with `value`, which
    /// must have the same key, and returns the old item.
    pub fn replace_at_index(&mut self, index: usize, value: T) -> (r: T)
        requires
            old(self).wf(),
            old(self).slots().contains_key(index),
            old(self).slots()[index].key_of() == value.key_of(),
        ensures
            final(self).wf(),
            final(self).spec_hasher() == old(self).spec_hasher(),
            r == old(self).slots()[index],
            final(self)@ == old(self)@.insert(value.key_of(), value),
            final(self).slots() == old(self).slots().insert(index, value),
            final(self).spec_holes() == old(self).spec_holes(),
    {
        let ghost old_items = self.items@;
        let ghost v = value;
        let old_item = self.items.replace(index, value);
        proof {
            lemma_index_replace(old_items, table_contents(self.tables), hash_key::<T>(), index, v);
        }
        old_item
    }

    /// Inserts every item of `values` in order, each replacing an item with
    /// the same key.
    pub fn extend(&mut self, values: Vec<T>)
        requires
            old(self).wf(),
        ensures
            final(self).wf(),
            values@.len() > 0 ==> final(self)@.contains_key(values@.last().key_of())
                && final(self)@[values@.last().key_of()] == values@.last(),
            final(self).spec_hasher() == old(self).spec_hasher(),
            final(self)@ == overwrite_all(old(self)@, values@),
            forall|i: int|
                #![trigger values@[i]]
                0 <= i < values@.len() && (forall|j: int|
                    i < j < values@.len() ==> values@[j].key_of() != values@[i].key_of())
                    ==> final(self)@.contains_key(values@[i].key_of()) && final(self)@[values@[
                    i].key_of()] == values@[i],
            forall|k: u64|
                #![trigger final(self)@.contains_key(k)]
                (forall|j: int| 0 <= j < values@.len() ==> values@[j].key_of() != k)
                    ==> (final(self)@.contains_key(k) <==> old(self)@.contains_key(k)) && (old(self)@.contains_key(k)
                    ==> final(self)@[k] == old(self)@[k]),
            forall|k: u64|
                #[trigger] final(self)@.contains_key(k) ==> old(self)@.contains_key(k) || exists|
                    j: int,
                | 0 <= j < values@.len() && values@[j].key_of() == k,
            final(self).spec_holes() <= old(self).spec_holes(),
    {
        let ghost s = values@;
        let ghost start = self@;
        for v in it: values
            invariant
                self.wf(),
                it.seq() == s,
                self@ == overwrite_all(start, s.take(it.index@ as int)),
                self.spec_holes() <= old(self).spec_holes(),
                self.spec_hasher() == old(self).spec_hasher(),
        {
            proof {
                assert(s.take(it.index@ as int + 1).drop_last() =~= s.take(it.index@ as int));
            }
            self.insert_overwrite(v);
        }
        proof {
            assert(s.take(s.len() as int) =~= s);
            crate::laws::law_id_hash_extend_last_wins(start, s);
            if s.len() > 0 {
                assert(s[s.len() - 1] == s.last());
            }
        }
    }

    /// Builds a map from `values`, a later item replacing an earlier one with
    /// the same key.
    pub fn from_vec(values: Vec<T>) -> (m: Self)
        ensures
            values@.len() > 0 ==> m@.contains_key(values@.last().key_of()) && m@[values@.last().key_of()]
                == values@.last(),
            forall|i: int|
                #![trigger values@[i]]
                0 <= i < values@.len() && (forall|j: int|
                    i < j < values@.len() ==> values@[j].key_of() != values@[i].key_of())
                    ==> m@.contains_key(values@[i].key_of()) && m@[values@[i].key_of()]
                    == values@[i],
            forall|k: u64|
                #[trigger] m@.contains_key(k) ==> exists|j: int|
                    0 <= j < values@.len() && values@[j].key_of() == k,
            m.wf(),
            m@ == overwrite_all(Map::empty(), values@),
            m.spec_holes() == 0,
    {
        let mut m = Self::new();
        m.extend(values);
        m
    }
}

impl<T: IdHashItem> Default for IdHashMap<T> {
    /// An empty map.
    fn default() -> (m: Self)
        ensures
            m.wf(),
            m@ == Map::<u64, T>::empty(),
            m.spec_holes() == 0,
            m.slots() == Map::<usize, T>::empty(),
            m.spec_next_index() == 0,
    {
        Self::new()
    }
}

impl<T: IdHashItem + PartialEq> IdHashMap<T> {
    /// Whether the two maps hold the same keys, with equal items under each
    /// key. The order the items were inserted in does not matter.
    pub fn eq(&self, other: &Self) -> (r: bool)
        requires
            self.wf(),
            other.wf(),
        ensures
            r ==> self@.dom() == other@.dom(),
            T::obeys_eq_spec() ==> (r <==> views_match(self@, other@)),
            T::obeys_eq_spec() ==> (r <==> self@.dom() == other@.dom() && forall|k: u64|
                #[trigger] self@.contains_key(k) ==> self@[k].eq_spec(&other@[k])),
    {
        proof {
            crate::laws::law_views_match_by_keys(self@, other@);
            self.lemma_wf_view();
            other.lemma_wf_view();
        }
        if self.len() != other.len() {
            return false;
        }
        let ixs = self.items.indexes();
        let mut j: usize = 0;
        while j < ixs.len()
            invariant
                self.wf(),
                other.wf(),
                self@.len() == other@.len(),
                j <= ixs@.len(),
                forall|a: int| 0 <= a < ixs@.len() ==> self.items@.contains_key(#[trigger] ixs@[a]),
                forall|i: usize| self.items@.contains_key(i) ==> ixs@.contains(i),
                forall|a: int|
                    0 <= a < j ==> other@.contains_key(#[trigger] self.items@[ixs@[a]].key_of()),
                T::obeys_eq_spec() ==> forall|a: int|
                    0 <= a < j ==> (#[trigger] self.items@[ixs@[a]]).eq_spec(
                        &other@[self.items@[ixs@[a]].key_of()],
                    ),
            decreases ixs@.len() - j,
        {
            proof {
                self.lemma_wf_view();
                other.lemma_wf_view();
            }
            let item = self.items.get(ixs[j]).unwrap();
            match other.get(item.key()) {
                None => {
                    return false;
                },
                Some(other_item) => {
                    if !item.eq(other_item) {
                        return false;
                    }
                },
            }
            j = j + 1;
        }
        proof {
            self.lemma_wf_view();
            other.lemma_wf_view();
            assert forall|k: u64| #[trigger] self@.contains_key(k) implies other@.contains_key(k)
                && (T::obeys_eq_spec() ==> self@[k].eq_spec(&other@[k])) by {
                let i = table_contents(self.tables)[k];
                assert(self.items@.contains_key(i));
                assert(ixs@.contains(i));
                let a = choose|a: int| 0 <= a < ixs@.len() && ixs@[a] == i;
                assert(self.items@[ixs@[a]].key_of() == k);
            }
            vstd::set_lib::lemma_subset_equality(self@.dom(), other@.dom());
        }
        true
    }
}

} // verus!
