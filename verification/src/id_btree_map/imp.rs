//! A B-tree map whose keys are read from its items.

use crate::errors::DuplicateItem;
use crate::index_model::{
    indexes_items, keyed_view, lemma_index_dom, lemma_index_insert, lemma_index_remove,
    lemma_index_replace,
};
use crate::internal::{ValidateCompact, ValidationError};
use crate::item_set::{after_fill, ItemSet};
use crate::key_order::{lemma_key_order_unique, lists_in_key_order};
use std::collections::BTreeMap;
use vstd::prelude::*;
use vstd::std_specs::cmp::PartialEqSpec;
use vstd::std_specs::iter::IteratorSpec;

verus! {

/// An item stored in an [`IdBTreeMap`]: it knows its own key, by which the
/// map orders its items.
///
/// `key_of` is what `key` returns; an implementation written outside Verus
/// gives both the same body.
pub trait IdBTreeMapEntry {
    /// The key of this item.
    spec fn key_of(&self) -> u64;

    /// Retrieves the key.
    fn key(&self) -> (k: u64)
        ensures
            k == self.key_of(),
    ;
}

impl<'a, T: IdBTreeMapEntry> IdBTreeMapEntry for &'a T {
    open spec fn key_of(&self) -> u64 {
        (**self).key_of()
    }

    fn key(&self) -> (k: u64) {
        (**self).key()
    }
}

impl<'a, T: IdBTreeMapEntry> IdBTreeMapEntry for &'a mut T {
    open spec fn key_of(&self) -> u64 {
        (**self).key_of()
    }

    fn key(&self) -> (k: u64) {
        (**self).key()
    }
}

impl<T: IdBTreeMapEntry> IdBTreeMapEntry for Box<T> {
    open spec fn key_of(&self) -> u64 {
        (**self).key_of()
    }

    fn key(&self) -> (k: u64) {
        (**self).key()
    }
}

impl<T: IdBTreeMapEntry> IdBTreeMapEntry for std::rc::Rc<T> {
    open spec fn key_of(&self) -> u64 {
        (**self).key_of()
    }

    fn key(&self) -> (k: u64) {
        (**self).key()
    }
}

impl<T: IdBTreeMapEntry> IdBTreeMapEntry for std::sync::Arc<T> {
    open spec fn key_of(&self) -> u64 {
        (**self).key_of()
    }

    fn key(&self) -> (k: u64) {
        (**self).key()
    }
}

/// An item of an [`IdBTreeMap`] that can hand out an owned copy of its key.
pub trait IdBTreeMapEntryMut: IdBTreeMapEntry {
    /// An owned copy of the key.
    fn owned_key(&self) -> (k: u64)
        ensures
            k == self.key_of(),
    ;
}

/// The key function of `T`, as a spec closure.
pub open spec fn btree_key<T: IdBTreeMapEntry>() -> spec_fn(T) -> u64 {
    |t: T| t.key_of()
}

/// Inserts each item of `s`, in order, into `m` under its key.
pub open spec fn btree_overwrite_all<T: IdBTreeMapEntry>(m: Map<u64, T>, s: Seq<T>) -> Map<u64, T>
    decreases s.len(),
{
    if s.len() == 0 {
        m
    } else {
        btree_overwrite_all(m, s.drop_last()).insert(s.last().key_of(), s.last())
    }
}

/// The keys of the first `n` items of `s` are distinct.
pub open spec fn btree_distinct_keys_upto<T: IdBTreeMapEntry>(s: Seq<T>, n: int) -> bool {
    forall|a: int, b: int| 0 <= a < b < n ==> s[a].key_of() != s[b].key_of()
}

/// Item `j` of `s` is the first whose key repeats the key of an earlier item.
pub open spec fn btree_first_repeat<T: IdBTreeMapEntry>(s: Seq<T>, j: int) -> bool {
    &&& 0 <= j < s.len()
    &&& btree_distinct_keys_upto(s, j)
    &&& exists|i: int| 0 <= i < j && s[i].key_of() == s[j].key_of()
}

/// The two sequences have the same length, and `==` considers the items at
/// each position equal.
pub open spec fn btree_pairwise_eq<T: PartialEq>(a: Seq<T>, b: Seq<T>) -> bool {
    &&& a.len() == b.len()
    &&& forall|j: int| 0 <= j < a.len() ==> (#[trigger] a[j]).eq_spec(&b[j])
}

/// A B-tree map where the key is part of the value.
///
/// Items live in slots; a B-tree maps each key to the slot of the item
/// with that key, and iteration follows key order.
#[derive(Debug)]
pub struct IdBTreeMap<T: IdBTreeMapEntry> {
    items: ItemSet<T>,
    key_to_item: BTreeMap<u64, usize>,
}

impl<T: IdBTreeMapEntry> View for IdBTreeMap<T> {
    type V = Map<u64, T>;

    /// The items, by key.
    closed spec fn view(&self) -> Map<u64, T> {
        keyed_view(self.items@, self.key_to_item@)
    }
}

impl<T: IdBTreeMapEntry> IdBTreeMap<T> {
    /// The internal invariant: the B-tree indexes the slots one to one.
    pub closed spec fn wf(&self) -> bool {
        &&& self.items.wf()
        &&& self.key_to_item@.dom().finite()
        &&& indexes_items(self.items@, self.key_to_item@, btree_key::<T>())
        &&& self.key_to_item@.len() == self.items.spec_len()
    }

    /// The items, by slot index.
    pub closed spec fn slots(&self) -> Map<usize, T> {
        self.items@
    }

    /// The slot the next inserted item goes to.
    pub closed spec fn spec_next_index(&self) -> usize {
        self.items.spec_next_index()
    }

    /// Whether the occupied slots are exactly `0..len`.
    pub closed spec fn spec_is_compact(&self) -> bool {
        self.items.is_compact()
    }

    /// The number of empty slots left by removals and not filled since.
    pub closed spec fn spec_holes(&self) -> nat {
        self.items.holes()
    }

    /// A map without holes is compact: one built by insertions alone, or
    /// whose removals were each followed by an insertion, validates as
    /// compact.
    pub proof fn lemma_hole_free_compact(&self)
        requires
            self.wf(),
            self.spec_holes() == 0,
        ensures
            self.spec_is_compact(),
    {
        self.items.lemma_hole_free_compact();
    }

    proof fn lemma_wf_view(&self)
        requires
            self.wf(),
        ensures
            self@.dom() == self.key_to_item@.dom(),
            self@.dom().finite(),
            self@.len() == self.items.spec_len(),
            self.items@.len() == self.items.spec_len(),
            forall|k: u64| #[trigger]
                self@.contains_key(k) ==> self@[k].key_of() == k && self.items@.contains_key(
                    self.key_to_item@[k],
                ) && self.items@[self.key_to_item@[k]] == self@[k],
            forall|i: usize| #[trigger]
                self.items@.contains_key(i) ==> self@.contains_key(self.items@[i].key_of())
                    && self@[self.items@[i].key_of()] == self.items@[i]
                    && self.key_to_item@[self.items@[i].key_of()] == i,
    {
        lemma_index_dom(self.items@, self.key_to_item@, btree_key::<T>());
        self.items.lemma_len();
        assert forall|k: u64| #[trigger] self@.contains_key(k) implies self@[k].key_of() == k by {
            assert(self.key_to_item@.contains_key(k));
        }
        assert forall|i: usize| #[trigger] self.items@.contains_key(i) implies self@.contains_key(
            self.items@[i].key_of(),
        ) && self@[self.items@[i].key_of()] == self.items@[i] by {
            assert((btree_key::<T>())(self.items@[i]) == self.items@[i].key_of());
        }
    }

    /// Every item is stored under its own key, and there are as many items
    /// as keys.
    pub proof fn lemma_items_under_own_keys(&self)
        requires
            self.wf(),
        ensures
            self@.dom().finite(),
            forall|k: u64| #[trigger] self@.contains_key(k) ==> self@[k].key_of() == k,
    {
        self.lemma_wf_view();
    }

    fn from_parts(items: ItemSet<T>) -> (m: Self)
        requires
            items.wf(),
            items@ == Map::<usize, T>::empty(),
            items.spec_len() == 0,
            items.hole_free(),
        ensures
            m.wf(),
            m@ == Map::<u64, T>::empty(),
            m.spec_holes() == 0,
            m.slots() == Map::<usize, T>::empty(),
            m.spec_next_index() == items.spec_next_index(),
            m.items == items,
    {
        let m = IdBTreeMap { items, key_to_item: BTreeMap::new() };
        assert(m@ =~= Map::<u64, T>::empty());
        m
    }

    /// Creates a new, empty map.
    pub fn new() -> (m: Self)
        ensures
            m.wf(),
            m@ == Map::<u64, T>::empty(),
            m.spec_holes() == 0,
            m.slots() == Map::<usize, T>::empty(),
            m.spec_next_index() == 0,
    {
        Self::from_parts(ItemSet::new())
    }

    /// Creates a new, empty map with room for `capacity` items.
    pub fn with_capacity(capacity: usize) -> (m: Self)
        requires
            capacity * vstd::layout::size_of::<Option<T>>() <= isize::MAX,
        ensures
            m.wf(),
            m@ == Map::<u64, T>::empty(),
            m.spec_holes() == 0,
            m.slots() == Map::<usize, T>::empty(),
            m.spec_next_index() == 0,
    {
        Self::from_parts(ItemSet::with_capacity(capacity))
    }

    /// The number of items the map holds without reallocating its slots.
    pub fn capacity(&self) -> (c: usize)
        requires
            self.wf(),
        ensures
            c >= self@.len(),
    {
        proof {
            self.lemma_wf_view();
        }
        self.items.capacity()
    }

    /// Returns true if the map is empty.
    pub fn is_empty(&self) -> (b: bool)
        requires
            self.wf(),
        ensures
            b <==> self@.len() == 0,
    {
        proof {
            self.lemma_wf_view();
        }
        self.items.is_empty()
    }

    /// Returns the number of items in the map.
    pub fn len(&self) -> (n: usize)
        requires
            self.wf(),
        ensures
            n == self@.len(),
    {
        proof {
            self.lemma_wf_view();
        }
        self.items.len()
    }

    /// The items of the map, in increasing key order.
    pub fn iter(&self) -> (v: Vec<&T>)
        requires
            self.wf(),
        ensures
            lists_in_key_order(v@.map_values(|r: &T| *r), self@, btree_key::<T>()),
    {
        proof {
            self.lemma_wf_view();
        }
        let mut v: Vec<&T> = Vec::new();
        let pairs_iter = self.key_to_item.iter();
        let ghost pairs = pairs_iter.remaining();
        proof {
            assert(vstd::std_specs::btree::key_obeys_cmp_spec::<u64>());
            assert(pairs_iter == vstd::std_specs::btree::spec_btree_map_iter(&self.key_to_item));
            assert(pairs.len() == self.key_to_item@.dom().len());
        }
        for kv in it: pairs_iter
            invariant
                self.wf(),
                it.seq() == pairs,
                pairs.len() == self@.len(),
                forall|i: int|
                    0 <= i < pairs.len() ==> self.key_to_item@.contains_key(*pairs[i].0)
                        && self.key_to_item@[*pairs[i].0] == *pairs[i].1,
                v@.len() == it.index@,
                forall|a: int| 0 <= a < v@.len() ==> self@.contains_key(*pairs[a].0) && *v@[a]
                    == self@[*pairs[a].0],
        {
            let (_k, ix) = kv;
            proof {
                self.lemma_wf_view();
            }
            v.push(self.items.get(*ix).unwrap());
        }
        proof {
            self.lemma_wf_view();
            let keys = pairs.map_values(|kv: (&u64, &usize)| *kv.0);
            assert(vstd::std_specs::btree::increasing_seq(keys));
            crate::key_order::lemma_increasing_keys(keys);
            let s = v@.map_values(|r: &T| *r);
            assert forall|a: int, b: int| 0 <= a < b < s.len() implies (btree_key::<T>())(s[a]) < (
            btree_key::<T>())(s[b]) by {
                assert(keys[a] < keys[b]);
                assert(s[a].key_of() == *pairs[a].0);
                assert(s[b].key_of() == *pairs[b].0);
            }
            assert forall|j: int| 0 <= j < s.len() implies self@.contains_key(
                (btree_key::<T>())(#[trigger] s[j]),
            ) && self@[(btree_key::<T>())(s[j])] == s[j] by {
                assert(s[j].key_of() == *pairs[j].0);
            }
        }
        v
    }

    /// Checks the map's invariants, and that its slots are compact when that
    /// is expected. The invariants always hold, so only compactness can fail.
    pub fn validate(&self, compactness: ValidateCompact) -> (r: Result<(), ValidationError>)
        requires
            self.wf(),
        ensures
            r is Ok <==> (compactness == ValidateCompact::NonCompact || self.spec_is_compact()),
    {
        self.items.validate(compactness)?;
        let ixs = self.items.indexes();
        let mut j: usize = 0;
        while j < ixs.len()
            invariant
                self.wf(),
                j <= ixs@.len(),
                forall|a: int| 0 <= a < ixs@.len() ==> self.items@.contains_key(#[trigger] ixs@[a]),
            decreases ixs@.len() - j,
        {
            let ix = ixs[j];
            let item = self.items.get(ix).unwrap();
            proof {
                self.lemma_wf_view();
            }
            let found = self.find_index(item.key());
            if found != Some(ix) {
                return Err(
                    ValidationError::general(String::from_str("item has a mismatched key index")),
                );
            }
            j = j + 1;
        }
        Ok(())
    }

    /// The slot of the item with key `key`, found through the B-tree.
    fn find_index(&self, key: u64) -> (r: Option<usize>)
        requires
            self.wf(),
        ensures
            r is Some <==> self@.contains_key(key),
            r matches Some(ix) ==> self.items@.contains_key(ix) && self.items@[ix] == self@[key]
                && ix == self.key_to_item@[key],
    {
        proof {
            self.lemma_wf_view();
        }
        match self.key_to_item.get(&key) {
            Some(ix) => Some(*ix),
            None => None,
        }
    }

    /// Returns true if the map contains the given key.
    pub fn contains_key(&self, key: u64) -> (b: bool)
        requires
            self.wf(),
        ensures
            b == self@.contains_key(key),
    {
        self.find_index(key).is_some()
    }

    /// Gets a reference to the item with the given key.
    pub fn get(&self, key: u64) -> (r: Option<&T>)
        requires
            self.wf(),
        ensures
            r == (if self@.contains_key(key) {
                Some(&self@[key])
            } else {
                None::<&T>
            }),
    {
        match self.find_index(key) {
            Some(ix) => self.items.get(ix),
            None => None,
        }
    }

    /// The slot of the item with the given key, if any.
    pub(crate) fn find_slot(&self, key: u64) -> (r: Option<usize>)
        requires
            self.wf(),
        ensures
            r is Some <==> self@.contains_key(key),
            r matches Some(ix) ==> self.slots().contains_key(ix) && self.slots()[ix] == self@[key],
    {
        self.find_index(key)
    }

    /// The item in slot `index`, if the slot is occupied.
    pub fn get_by_index(&self, index: usize) -> (r: Option<&T>)
        requires
            self.wf(),
        ensures
            r == (if self.slots().contains_key(index) {
                Some(&self.slots()[index])
            } else {
                None::<&T>
            }),
    {
        self.items.get(index)
    }

    /// Stores `value`, whose key is not in the map, and returns its slot.
    fn insert_new(&mut self, value: T) -> (ix: usize)
        requires
            old(self).wf(),
            !old(self)@.contains_key(value.key_of()),
        ensures
            final(self).wf(),
            final(self)@ == old(self)@.insert(value.key_of(), value),
            final(self).slots() == old(self).slots().insert(ix, value),
            ix == old(self).spec_next_index(),
            final(self).spec_holes() == after_fill(old(self).spec_holes()),
    {
        proof {
            self.lemma_wf_view();
        }
        let key = value.key();
        let ghost old_items = self.items@;
        let ghost old_table = self.key_to_item@;
        let ghost v = value;
        let ix = self.items.insert_at_next_index(value);
        self.key_to_item.insert(key, ix);
        proof {
            lemma_index_insert(old_items, old_table, btree_key::<T>(), ix, v);
            assert((btree_key::<T>())(v) == key);
        }
        ix
    }

    /// Inserts `value` unless an item with its key is present; returns the
    /// slot it went to, or the conflicting item.
    pub fn insert_unique_impl(&mut self, value: T) -> (r: Result<usize, DuplicateItem<T, &T>>)
        requires
            old(self).wf(),
        ensures
            final(self).wf(),
            match r {
                Ok(ix) => {
                    &&& !old(self)@.contains_key(value.key_of())
                    &&& final(self)@ == old(self)@.insert(value.key_of(), value)
                    &&& final(self).slots() == old(self).slots().insert(ix, value)
                    &&& ix == old(self).spec_next_index()
                    &&& final(self).spec_holes() == after_fill(old(self).spec_holes())
                },
                Err(dup) => {
                    &&& old(self)@.contains_key(value.key_of())
                    &&& *final(self) == *old(self)
                    &&& dup.spec_new_item() == value
                    &&& dup.spec_duplicates().len() == 1
                    &&& *dup.spec_duplicates()[0] == old(self)@[value.key_of()]
                },
            },
    {
        let key = value.key();
        match self.find_index(key) {
            Some(ix) => {
                let existing = self.items.get(ix).unwrap();
                Err(DuplicateItem::__internal_new(value, vec![existing]))
            },
            None => Ok(self.insert_new(value)),
        }
    }

    /// Inserts a value into the map, returning an error if an item with the
    /// same key is already present.
    pub fn insert_unique(&mut self, value: T) -> (r: Result<(), DuplicateItem<T, &T>>)
        requires
            old(self).wf(),
        ensures
            final(self).wf(),
            r is Ok <==> !old(self)@.contains_key(value.key_of()),
            r is Ok ==> final(self)@ == old(self)@.insert(value.key_of(), value),
            r is Ok ==> final(self).spec_holes() == after_fill(old(self).spec_holes()),
            r matches Err(dup) ==> *final(self) == *old(self) && dup.spec_new_item() == value
                && dup.spec_duplicates().len() == 1 && *dup.spec_duplicates()[0] == old(
                self,
            )@[value.key_of()],
    {
        match self.insert_unique_impl(value) {
            Ok(_) => Ok(()),
            Err(dup) => Err(dup),
        }
    }

    /// Inserts a value into the map, removing and returning the item with
    /// the same key, if any.
    pub fn insert_overwrite(&mut self, value: T) -> (r: Option<T>)
        requires
            old(self).wf(),
        ensures
            final(self).wf(),
            final(self)@ == old(self)@.insert(value.key_of(), value),
            r == (if old(self)@.contains_key(value.key_of()) {
                Some(old(self)@[value.key_of()])
            } else {
                None::<T>
            }),
            final(self).spec_holes() == (if old(self)@.contains_key(value.key_of()) {
                old(self).spec_holes()
            } else {
                after_fill(old(self).spec_holes())
            }),
    {
        let key = value.key();
        let duplicate = self.remove(key);
        self.insert_new(value);
        proof {
            assert(self@ =~= old(self)@.insert(key, value));
        }
        duplicate
    }

    /// Removes the item in slot `remove_index`, if the slot is occupied.
    pub fn remove_by_index(&mut self, remove_index: usize) -> (r: Option<T>)
        requires
            old(self).wf(),
        ensures
            final(self).wf(),
            r == (if old(self).slots().contains_key(remove_index) {
                Some(old(self).slots()[remove_index])
            } else {
                None::<T>
            }),
            r matches Some(v) ==> final(self)@ == old(self)@.remove(v.key_of())
                && old(self)@.contains_key(v.key_of()) && old(self)@[v.key_of()] == v
                && final(self).slots() == old(self).slots().remove(remove_index)
                && final(self).spec_holes() == old(self).spec_holes() + 1
                && final(self).spec_next_index() == remove_index,
            r is None ==> *final(self) == *old(self),
    {
        proof {
            self.lemma_wf_view();
        }
        let ghost old_items = self.items@;
        let ghost old_table = self.key_to_item@;
        match self.items.remove(remove_index) {
            None => None,
            Some(value) => {
                proof {
                    lemma_index_remove(old_items, old_table, btree_key::<T>(), remove_index);
                    lemma_index_dom(old_items, old_table, btree_key::<T>());
                }
                let key = value.key();
                self.key_to_item.remove(&key);
                Some(value)
            },
        }
    }

    /// Removes the item with the given key, returning it.
    pub fn remove(&mut self, key: u64) -> (r: Option<T>)
        requires
            old(self).wf(),
        ensures
            final(self).wf(),
            final(self)@ == old(self)@.remove(key),
            r == (if old(self)@.contains_key(key) {
                Some(old(self)@[key])
            } else {
                None::<T>
            }),
            final(self).spec_holes() == (if old(self)@.contains_key(key) {
                old(self).spec_holes() + 1
            } else {
                old(self).spec_holes()
            }),
    {
        match self.find_index(key) {
            None => {
                proof {
                    assert(self@.remove(key) =~= self@);
                }
                None
            },
            Some(ix) => self.remove_by_index(ix),
        }
    }

    /// Replaces the item in the occupied slot `index` with `value`, which
    /// must have the same key, and returns the old item.
    pub fn replace_at_index(&mut self, index: usize, value: T) -> (r: T)
        requires
            old(self).wf(),
            old(self).slots().contains_key(index),
            old(self).slots()[index].key_of() == value.key_of(),
        ensures
            final(self).wf(),
            r == old(self).slots()[index],
            final(self)@ == old(self)@.insert(value.key_of(), value),
            final(self).slots() == old(self).slots().insert(index, value),
            final(self).spec_holes() == old(self).spec_holes(),
    {
        let ghost old_items = self.items@;
        let ghost v = value;
        let old_item = self.items.replace(index, value);
        proof {
            lemma_index_replace(old_items, self.key_to_item@, btree_key::<T>(), index, v);
        }
        old_item
    }

    /// Inserts every item of `values` in order, each replacing an item with
    /// the same key.
    pub fn extend(&mut self, values: Vec<T>)
        requires
            old(self).wf(),
        ensures
            final(self).wf(),
            values@.len() > 0 ==> final(self)@.contains_key(values@.last().key_of())
                && final(self)@[values@.last().key_of()] == values@.last(),
            final(self)@ == btree_overwrite_all(old(self)@, values@),
            forall|i: int|
                #![trigger values@[i]]
                0 <= i < values@.len() && (forall|j: int|
                    i < j < values@.len() ==> values@[j].key_of() != values@[i].key_of())
                    ==> final(self)@.contains_key(values@[i].key_of()) && final(self)@[values@[
                    i].key_of()] == values@[i],
            forall|k: u64|
                #![trigger final(self)@.contains_key(k)]
                (forall|j: int| 0 <= j < values@.len() ==> values@[j].key_of() != k)
                    ==> (final(self)@.contains_key(k) <==> old(self)@.contains_key(k)) && (old(self)@.contains_key(k)
                    ==> final(self)@[k] == old(self)@[k]),
            forall|k: u64|
                #[trigger] final(self)@.contains_key(k) ==> old(self)@.contains_key(k) || exists|
                    j: int,
                | 0 <= j < values@.len() && values@[j].key_of() == k,
            final(self).spec_holes() <= old(self).spec_holes(),
    {
        let ghost s = values@;
        let ghost start = self@;
        for v in it: values
            invariant
                self.wf(),
                it.seq() == s,
                self@ == btree_overwrite_all(start, s.take(it.index@ as int)),
                self.spec_holes() <= old(self).spec_holes(),
        {
            proof {
                assert(s.take(it.index@ as int + 1).drop_last() =~= s.take(it.index@ as int));
            }
            self.insert_overwrite(v);
        }
        proof {
            assert(s.take(s.len() as int) =~= s);
            crate::laws::law_btree_extend_last_wins(start, s);
            if s.len() > 0 {
                assert(s[s.len() - 1] == s.last());
            }
        }
    }

    /// Builds a map from `values`, a later item replacing an earlier one with
    /// the same key.
    pub fn from_vec(values: Vec<T>) -> (m: Self)
        ensures
            values@.len() > 0 ==> m@.contains_key(values@.last().key_of()) && m@[values@.last().key_of()]
                == values@.last(),
            forall|i: int|
                #![trigger values@[i]]
                0 <= i < values@.len() && (forall|j: int|
                    i < j < values@.len() ==> values@[j].key_of() != values@[i].key_of())
                    ==> m@.contains_key(values@[i].key_of()) && m@[values@[i].key_of()]
                    == values@[i],
            forall|k: u64|
                #[trigger] m@.contains_key(k) ==> exists|j: int|
                    0 <= j < values@.len() && values@[j].key_of() == k,
            m.wf(),
            m@ == btree_overwrite_all(Map::empty(), values@),
            m.spec_holes() == 0,
    {
        let mut m = Self::new();
        m.extend(values);
        m
    }

    /// Builds a map from `values`, failing at the first item whose key an
    /// earlier item already has; the error holds that item and the earlier
    /// one.
    pub fn from_iter_unique(values: Vec<T>) -> (r: Result<Self, DuplicateItem<T>>)
        ensures
            r is Ok <==> btree_distinct_keys_upto(values@, values@.len() as int),
            r matches Ok(m) ==> m.wf() && m@ == btree_overwrite_all(Map::empty(), values@)
                && m.spec_holes() == 0,
            r matches Ok(m) ==> m@.len() == values@.len() && forall|i: int|
                0 <= i < values@.len() ==> m@.contains_key(#[trigger] values@[i].key_of())
                    && m@[values@[i].key_of()] == values@[i],
            r matches Err(dup) ==> exists|j: int, i: int|
                #![trigger values@[j], values@[i]]
                btree_first_repeat(values@, j) && 0 <= i < j && values@[i].key_of()
                    == values@[j].key_of() && dup.spec_new_item() == values@[j]
                    && dup.spec_duplicates() == seq![values@[i]],
    {
        let ghost s = values@;
        let mut map = Self::new();
        for value in it: values
            invariant
                map.wf(),
                map.spec_holes() == 0,
                map@.dom().finite(),
                map@.len() == it.index@,
                it.seq() == s,
                btree_distinct_keys_upto(s, it.index@ as int),
                map@ == btree_overwrite_all(Map::empty(), s.take(it.index@ as int)),
                forall|k: u64|
                    map@.contains_key(k) ==> exists|i: int|
                        0 <= i < it.index@ && #[trigger] s[i].key_of() == k,
                forall|i: int| 0 <= i < it.index@ ==> map@.contains_key(#[trigger] s[i].key_of())
                    && map@[s[i].key_of()] == s[i],
        {
            let ghost j = it.index@;
            let key = value.key();
            if map.contains_key(key) {
                let ghost i = choose|i: int| 0 <= i < j && #[trigger] s[i].key_of() == key;
                let duplicate = map.remove(key).unwrap();
                let mut dups: Vec<T> = Vec::new();
                dups.push(duplicate);
                proof {
                    assert(dups@ =~= seq![s[i]]);
                    assert(btree_first_repeat(s, j));
                }
                return Err(DuplicateItem::__internal_new(value, dups));
            }
            proof {
                assert(s.take(j + 1).drop_last() =~= s.take(j));
            }
            map.insert_new(value);
            proof {
                map.lemma_items_under_own_keys();
            }
        }
        proof {
            assert(s.take(s.len() as int) =~= s);
        }
        Ok(map)
    }
}

impl<T: IdBTreeMapEntry> Default for IdBTreeMap<T> {
    /// An empty map.
    fn default() -> (m: Self)
        ensures
            m.wf(),
            m@ == Map::<u64, T>::empty(),
            m.spec_holes() == 0,
            m.slots() == Map::<usize, T>::empty(),
            m.spec_next_index() == 0,
    {
        Self::new()
    }
}

impl<T: IdBTreeMapEntry + PartialEq> IdBTreeMap<T> {
    /// Whether the two maps list equal items in key order.
    pub fn eq(&self, other: &Self) -> (r: bool)
        requires
            self.wf(),
            other.wf(),
        ensures
            forall|s1: Seq<T>, s2: Seq<T>|
                lists_in_key_order(s1, self@, btree_key::<T>()) && lists_in_key_order(
                    s2,
                    other@,
                    btree_key::<T>(),
                ) ==> (T::obeys_eq_spec() ==> (r <==> btree_pairwise_eq(s1, s2))) && (r ==> s1.len()
                    == s2.len()),
            forall|s1: Seq<T>, s2: Seq<T>|
                lists_in_key_order(s1, self@, btree_key::<T>()) && lists_in_key_order(
                    s2,
                    other@,
                    btree_key::<T>(),
                ) ==> (T::obeys_eq_spec() ==> (r <==> s1.len() == s2.len() && forall|j: int|
                    0 <= j < s1.len() ==> (#[trigger] s1[j]).eq_spec(&s2[j]))),
            T::obeys_eq_spec() && self@.dom() == other@.dom() ==> (r <==> forall|k: u64|
                #[trigger] self@.contains_key(k) ==> self@[k].eq_spec(&other@[k])),
    {
        proof {
            self.lemma_wf_view();
            other.lemma_wf_view();
        }
        let v1 = self.iter();
        let v2 = other.iter();
        let ghost s1 = v1@.map_values(|r: &T| *r);
        let ghost s2 = v2@.map_values(|r: &T| *r);
        proof {
            if self@.dom() == other@.dom() {
                lemma_eq_by_keys(s1, s2, self@, other@);
            }
        }
        if v1.len() != v2.len() {
            proof {
                lemma_all_btree_listings(s1, s2, self@, other@);
            }
            return false;
        }
        let mut j: usize = 0;
        while j < v1.len()
            invariant
                j <= v1@.len(),
                v1@.len() == v2@.len(),
                s1 == v1@.map_values(|r: &T| *r),
                s2 == v2@.map_values(|r: &T| *r),
                lists_in_key_order(s1, self@, btree_key::<T>()),
                lists_in_key_order(s2, other@, btree_key::<T>()),
                self@.dom().finite(),
                other@.dom().finite(),
                T::obeys_eq_spec() ==> forall|a: int| 0 <= a < j ==> (#[trigger] s1[a]).eq_spec(&s2[a]),
            decreases v1@.len() - j,
        {
            if !v1[j].eq(v2[j]) {
                proof {
                    assert(s1[j as int] == *v1@[j as int]);
                    assert(s2[j as int] == *v2@[j as int]);
                    lemma_all_btree_listings(s1, s2, self@, other@);
                    if self@.dom() == other@.dom() {
                        lemma_eq_by_keys(s1, s2, self@, other@);
                    }
                }
                return false;
            }
            assert(s1[j as int] == *v1@[j as int]);
            assert(s2[j as int] == *v2@[j as int]);
            j = j + 1;
        }
        proof {
            lemma_all_btree_listings(s1, s2, self@, other@);
        }
        true
    }
}

/// Any listing of the maps in key order is the one given.
proof fn lemma_all_btree_listings<T: IdBTreeMapEntry>(s1: Seq<T>, s2: Seq<T>, m1: Map<u64, T>, m2: Map<u64, T>)
    requires
        lists_in_key_order(s1, m1, btree_key::<T>()),
        lists_in_key_order(s2, m2, btree_key::<T>()),
        m1.dom().finite(),
        m2.dom().finite(),
    ensures
        forall|t1: Seq<T>, t2: Seq<T>|
            lists_in_key_order(t1, m1, btree_key::<T>()) && lists_in_key_order(t2, m2, btree_key::<T>())
                ==> t1 == s1 && t2 == s2,
{
    assert forall|t1: Seq<T>, t2: Seq<T>|
        lists_in_key_order(t1, m1, btree_key::<T>()) && lists_in_key_order(
            t2,
            m2,
            btree_key::<T>(),
        ) implies t1 == s1 && t2 == s2 by {
        lemma_key_order_unique(t1, s1, m1, btree_key::<T>());
        lemma_key_order_unique(t2, s2, m2, btree_key::<T>());
    }
}

/// When two maps hold the same keys, comparing their listings in key order
/// position by position is comparing their items key by key.
proof fn lemma_eq_by_keys<T: IdBTreeMapEntry + PartialEq>(s1: Seq<T>, s2: Seq<T>, m1: Map<u64, T>, m2: Map<u64, T>)
    requires
        lists_in_key_order(s1, m1, btree_key::<T>()),
        lists_in_key_order(s2, m2, btree_key::<T>()),
        m1.dom().finite(),
        m1.dom() == m2.dom(),
    ensures
        (s1.len() == s2.len() && forall|j: int| 0 <= j < s1.len() ==> (#[trigger] s1[j]).eq_spec(&s2[j]))
            <==> forall|k: u64| #[trigger] m1.contains_key(k) ==> m1[k].eq_spec(&m2[k]),
{
    crate::key_order::lemma_same_keys_align(s1, s2, m1, m2, btree_key::<T>());
    if forall|j: int| 0 <= j < s1.len() ==> (#[trigger] s1[j]).eq_spec(&s2[j]) {
        assert forall|k: u64| #[trigger] m1.contains_key(k) implies m1[k].eq_spec(&m2[k]) by {
            crate::key_order::lemma_key_listed(s1, m1, btree_key::<T>(), k);
            let j = choose|j: int| 0 <= j < s1.len() && (btree_key::<T>())(s1[j]) == k;
            assert((btree_key::<T>())(s2[j]) == k);
            assert(s1[j].eq_spec(&s2[j]));
        }
    }
    if forall|k: u64| #[trigger] m1.contains_key(k) ==> m1[k].eq_spec(&m2[k]) {
        assert forall|j: int| 0 <= j < s1.len() implies (#[trigger] s1[j]).eq_spec(&s2[j]) by {
            let k = (btree_key::<T>())(s1[j]);
            assert(m1.contains_key(k));
            assert((btree_key::<T>())(s2[j]) == k);
        }
    }
}

} // verus!
