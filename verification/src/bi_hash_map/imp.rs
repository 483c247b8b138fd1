//! A hash map whose items are indexed by two keys, each unique.

use super::entry::OccupiedEntryRef;
use super::entry_indexes::EntryIndexes;
use crate::capacity::capacity_fits;
use crate::errors::DuplicateItem;
use crate::index_model::{
    indexes_items, keyed_view, lemma_index_dom, lemma_index_insert, lemma_index_remove,
    lemma_index_replace,
};
use crate::internal::{ValidateCompact, ValidationError};
use crate::item_set::{after_fill, ItemSet};
use crate::key_table::{default_hasher, table_contents, KeyTable};
use vstd::prelude::*;
use vstd::std_specs::cmp::PartialEqSpec;

verus! {

/// An item stored in a [`BiHashMap`]: it knows its two keys.
///
/// `key1_of` and `key2_of` are what `key1` and `key2` return; an
/// implementation written outside Verus gives each pair the same body.
pub trait BiHashItem {
    /// The first key of this item.
    spec fn key1_of(&self) -> u64;

    /// The second key of this item.
    spec fn key2_of(&self) -> u64;

    /// Retrieves the first key.
    fn key1(&self) -> (k: u64)
        ensures
            k == self.key1_of(),
    ;

    /// Retrieves the second key.
    fn key2(&self) -> (k: u64)
        ensures
            k == self.key2_of(),
    ;
}

/// The first key function of `T`, as a spec closure.
pub open spec fn bi_key1<T: BiHashItem>() -> spec_fn(T) -> u64 {
    |t: T| t.key1_of()
}

/// The second key function of `T`, as a spec closure.
pub open spec fn bi_key2<T: BiHashItem>() -> spec_fn(T) -> u64 {
    |t: T| t.key2_of()
}

/// The items by first key after `v` overwrites the items it conflicts with:
/// the item with `v`'s first key and the item with `v`'s second key leave,
/// and `v` comes in.
pub open spec fn overwrite_by_key1<T: BiHashItem>(
    by_key1: Map<u64, T>,
    by_key2: Map<u64, T>,
    v: T,
) -> Map<u64, T> {
    let m = by_key1.remove(v.key1_of());
    let m = if by_key2.contains_key(v.key2_of()) {
        m.remove(by_key2[v.key2_of()].key1_of())
    } else {
        m
    };
    m.insert(v.key1_of(), v)
}

/// The items by second key after `v` overwrites the items it conflicts with.
pub open spec fn overwrite_by_key2<T: BiHashItem>(
    by_key1: Map<u64, T>,
    by_key2: Map<u64, T>,
    v: T,
) -> Map<u64, T> {
    let m = by_key2.remove(v.key2_of());
    let m = if by_key1.contains_key(v.key1_of()) {
        m.remove(by_key1[v.key1_of()].key2_of())
    } else {
        m
    };
    m.insert(v.key2_of(), v)
}

/// The items that `v` overwrites: the one with its first key, then the one
/// with its second key when that is another item.
pub open spec fn overwritten_items<T: BiHashItem>(
    by_key1: Map<u64, T>,
    by_key2: Map<u64, T>,
    v: T,
) -> Seq<T> {
    let first = if by_key1.contains_key(v.key1_of()) {
        seq![by_key1[v.key1_of()]]
    } else {
        Seq::empty()
    };
    let second = if by_key2.contains_key(v.key2_of()) && by_key2[v.key2_of()].key1_of()
        != v.key1_of() {
        seq![by_key2[v.key2_of()]]
    } else {
        Seq::empty()
    };
    first + second
}

/// The items by first key after the items of `s` are taken out.
pub open spec fn without_items1<T: BiHashItem>(by_key1: Map<u64, T>, s: Seq<T>) -> Map<u64, T>
    decreases s.len(),
{
    if s.len() == 0 {
        by_key1
    } else {
        without_items1(by_key1, s.drop_last()).remove(s.last().key1_of())
    }
}

/// The items by second key after the items of `s` are taken out.
pub open spec fn without_items2<T: BiHashItem>(by_key2: Map<u64, T>, s: Seq<T>) -> Map<u64, T>
    decreases s.len(),
{
    if s.len() == 0 {
        by_key2
    } else {
        without_items2(by_key2, s.drop_last()).remove(s.last().key2_of())
    }
}

/// The items by first key and by second key after each item of `s`, in
/// order, overwrites the items it conflicts with.
pub open spec fn bi_overwrite_all<T: BiHashItem>(
    by_key1: Map<u64, T>,
    by_key2: Map<u64, T>,
    s: Seq<T>,
) -> (Map<u64, T>, Map<u64, T>)
    decreases s.len(),
{
    if s.len() == 0 {
        (by_key1, by_key2)
    } else {
        let (m1, m2) = bi_overwrite_all(by_key1, by_key2, s.drop_last());
        (overwrite_by_key1(m1, m2, s.last()), overwrite_by_key2(m1, m2, s.last()))
    }
}

/// `refs` lists the items of `items`, each once, in some order (the items
/// of `items` being distinct).
pub open spec fn same_items<T>(refs: Seq<&T>, items: Seq<T>) -> bool {
    &&& refs.len() == items.len()
    &&& forall|j: int|
        0 <= j < refs.len() ==> exists|i: int| 0 <= i < items.len() && *#[trigger] refs[j] == items[i]
    &&& forall|i: int|
        0 <= i < items.len() ==> exists|j: int| 0 <= j < refs.len() && *refs[j] == #[trigger] items[i]
}

/// The slots an insertion conflicts with, each once, in increasing order.
pub open spec fn conflict_slots(s1: Option<usize>, s2: Option<usize>) -> Seq<usize> {
    match (s1, s2) {
        (Some(a), Some(b)) => if a == b {
            seq![a]
        } else if a < b {
            seq![a, b]
        } else {
            seq![b, a]
        },
        (Some(a), None) => seq![a],
        (None, Some(b)) => seq![b],
        (None, None) => Seq::empty(),
    }
}

/// Two maps by first key hold the same keys, and under each key items with
/// the same second key that `==` considers equal.
pub open spec fn bi_views_match<T: BiHashItem + PartialEq>(a: Map<u64, T>, b: Map<u64, T>) -> bool {
    &&& a.dom() == b.dom()
    &&& forall|k: u64| #[trigger]
        a.contains_key(k) ==> a[k].key2_of() == b[k].key2_of() && a[k].eq_spec(&b[k])
}

/// A bijective hash map: each item has two keys, and no two items share
/// either key.
#[derive(Debug)]
pub struct BiHashMap<T: BiHashItem> {
    items: ItemSet<T>,
    k1_to_item: KeyTable,
    k2_to_item: KeyTable,
}

impl<T: BiHashItem> View for BiHashMap<T> {
    type V = Map<u64, T>;

    /// The items, by first key.
    closed spec fn view(&self) -> Map<u64, T> {
        keyed_view(self.items@, table_contents(self.k1_to_item))
    }
}

impl<T: BiHashItem> BiHashMap<T> {
    /// The internal invariant: both tables index the slots one to one.
    pub closed spec fn wf(&self) -> bool {
        &&& self.items.wf()
        &&& table_contents(self.k1_to_item).dom().finite()
        &&& table_contents(self.k2_to_item).dom().finite()
        &&& indexes_items(self.items@, table_contents(self.k1_to_item), bi_key1::<T>())
        &&& indexes_items(self.items@, table_contents(self.k2_to_item), bi_key2::<T>())
        &&& table_contents(self.k1_to_item).len() == self.items.spec_len()
        &&& table_contents(self.k2_to_item).len() == self.items.spec_len()
    }

    /// The items, by second key.
    pub closed spec fn by_key2(&self) -> Map<u64, T> {
        keyed_view(self.items@, table_contents(self.k2_to_item))
    }

    /// The items, by slot index.
    pub closed spec fn slots(&self) -> Map<usize, T> {
        self.items@
    }

    /// The slot of the item with first key `k`, if any.
    pub closed spec fn slot_of_key1(&self, k: u64) -> Option<usize> {
        if table_contents(self.k1_to_item).contains_key(k) {
            Some(table_contents(self.k1_to_item)[k])
        } else {
            None
        }
    }

    /// The slot of the item with second key `k`, if any.
    pub closed spec fn slot_of_key2(&self, k: u64) -> Option<usize> {
        if table_contents(self.k2_to_item).contains_key(k) {
            Some(table_contents(self.k2_to_item)[k])
        } else {
            None
        }
    }

    /// The entry that the keys `k1` and `k2` reach, if either is present.
    pub open spec fn spec_entry(&self, k1: u64, k2: u64) -> Option<EntryIndexes> {
        EntryIndexes::classify_spec(self.slot_of_key1(k1), self.slot_of_key2(k2))
    }

    /// The slot the next inserted item goes to.
    pub closed spec fn spec_next_index(&self) -> usize {
        self.items.spec_next_index()
    }

    /// Whether the occupied slots are exactly `0..len`.
    pub closed spec fn spec_is_compact(&self) -> bool {
        self.items.is_compact()
    }

    /// The number of empty slots left by removals and not filled since.
    pub closed spec fn spec_holes(&self) -> nat {
        self.items.holes()
    }

    /// A map without holes is compact: one built by insertions alone, or
    /// whose removals were each followed by an insertion, validates as
    /// compact.
    pub proof fn lemma_hole_free_compact(&self)
        requires
            self.wf(),
            self.spec_holes() == 0,
        ensures
            self.spec_is_compact(),
    {
        self.items.lemma_hole_free_compact();
    }

    /// Every slot index that `indexes` holds is occupied.
    pub open spec fn entry_in_slots(&self, indexes: EntryIndexes) -> bool {
        &&& indexes.valid()
        &&& indexes.spec_index1() matches Some(i) ==> self.slots().contains_key(i)
        &&& indexes.spec_index2() matches Some(i) ==> self.slots().contains_key(i)
    }

    proof fn lemma_wf_view(&self)
        requires
            self.wf(),
        ensures
            self@.dom() == table_contents(self.k1_to_item).dom(),
            self.by_key2().dom() == table_contents(self.k2_to_item).dom(),
            self@.dom().finite(),
            self@.len() == self.items.spec_len(),
            self.by_key2().len() == self.items.spec_len(),
            self.items@.len() == self.items.spec_len(),
            forall|k: u64| #[trigger]
                self@.contains_key(k) ==> self@[k].key1_of() == k && self.slot_of_key1(k) == Some(
                    table_contents(self.k1_to_item)[k],
                ) && self.items@.contains_key(table_contents(self.k1_to_item)[k])
                    && self.items@[table_contents(self.k1_to_item)[k]] == self@[k],
            forall|k: u64| #[trigger]
                self.by_key2().contains_key(k) ==> self.by_key2()[k].key2_of() == k
                    && self.slot_of_key2(k) == Some(table_contents(self.k2_to_item)[k])
                    && self.items@.contains_key(table_contents(self.k2_to_item)[k])
                    && self.items@[table_contents(self.k2_to_item)[k]] == self.by_key2()[k],
            forall|k: u64| !self@.contains_key(k) ==> self.slot_of_key1(k) is None,
            forall|k: u64| !self.by_key2().contains_key(k) ==> self.slot_of_key2(k) is None,
            forall|i: usize| #[trigger]
                self.items@.contains_key(i) ==> self@.contains_key(self.items@[i].key1_of())
                    && self@[self.items@[i].key1_of()] == self.items@[i] && self.by_key2().contains_key(
                    self.items@[i].key2_of(),
                ) && self.by_key2()[self.items@[i].key2_of()] == self.items@[i]
                    && self.slot_of_key1(self.items@[i].key1_of()) == Some(i) && self.slot_of_key2(
                    self.items@[i].key2_of(),
                ) == Some(i),
    {
        let t1 = table_contents(self.k1_to_item);
        let t2 = table_contents(self.k2_to_item);
        lemma_index_dom(self.items@, t1, bi_key1::<T>());
        lemma_index_dom(self.items@, t2, bi_key2::<T>());
        self.items.lemma_len();
        assert forall|k: u64| #[trigger] self@.contains_key(k) implies self@[k].key1_of() == k by {
            assert(t1.contains_key(k));
        }
        assert forall|k: u64| #[trigger] self.by_key2().contains_key(k) implies self.by_key2()[k].key2_of()
            == k by {
            assert(t2.contains_key(k));
        }
        assert forall|i: usize| #[trigger] self.items@.contains_key(i) implies self@.contains_key(
            self.items@[i].key1_of(),
        ) && self@[self.items@[i].key1_of()] == self.items@[i] && self.by_key2().contains_key(
            self.items@[i].key2_of(),
        ) && self.by_key2()[self.items@[i].key2_of()] == self.items@[i] by {
            assert((bi_key1::<T>())(self.items@[i]) == self.items@[i].key1_of());
            assert((bi_key2::<T>())(self.items@[i]) == self.items@[i].key2_of());
        }
    }

    /// The slots the keys reach hold the view's items: the first key `k`
    /// reaches a slot exactly when an item has first key `k`, and that slot
    /// holds the item; likewise for the second key. Every occupied slot is
    /// the one its item's keys reach.
    pub proof fn lemma_slots_by_keys(&self)
        requires
            self.wf(),
        ensures
            forall|k: u64| #[trigger] self.slot_of_key1(k) is Some <==> self@.contains_key(k),
            forall|k: u64| #[trigger] self.slot_of_key2(k) is Some <==> self.by_key2().contains_key(k),
            forall|k: u64|
                #[trigger] self.slot_of_key1(k) matches Some(i) ==> self.slots().contains_key(i)
                    && self.slots()[i] == self@[k],
            forall|k: u64|
                #[trigger] self.slot_of_key2(k) matches Some(i) ==> self.slots().contains_key(i)
                    && self.slots()[i] == self.by_key2()[k],
            forall|i: usize|
                #[trigger] self.slots().contains_key(i) ==> self.slot_of_key1(
                    self.slots()[i].key1_of(),
                ) == Some(i) && self.slot_of_key2(self.slots()[i].key2_of()) == Some(i),
    {
        self.lemma_wf_view();
    }

    /// The items in the slots that `v`'s keys reach, listed in slot order,
    /// are the items `v` conflicts with: the item with its first key and the
    /// item with its second key, each once.
    pub proof fn lemma_conflicts_are_overwritten(&self, v: T, refs: Seq<&T>)
        requires
            self.wf(),
            refs.len() == conflict_slots(
                self.slot_of_key1(v.key1_of()),
                self.slot_of_key2(v.key2_of()),
            ).len(),
            forall|j: int|
                0 <= j < refs.len() ==> *#[trigger] refs[j] == self.slots()[conflict_slots(
                    self.slot_of_key1(v.key1_of()),
                    self.slot_of_key2(v.key2_of()),
                )[j]],
        ensures
            same_items(refs, overwritten_items(self@, self.by_key2(), v)),
    {
        self.lemma_slots_by_keys();
        self.lemma_keys_agree();
        let k1 = v.key1_of();
        let k2 = v.key2_of();
        let s1 = self.slot_of_key1(k1);
        let s2 = self.slot_of_key2(k2);
        let ov = overwritten_items(self@, self.by_key2(), v);
        let cs = conflict_slots(s1, s2);
        if s1 is Some && s2 is Some {
            let a = s1->0;
            let b = s2->0;
            if a == b {
                assert(self.by_key2()[k2] == self@[k1]);
                assert(ov =~= seq![self@[k1]]);
                assert(*refs[0] == ov[0]);
            } else {
                assert(self.slots()[b].key1_of() != k1) by {
                    if self.slots()[b].key1_of() == k1 {
                        assert(self.slot_of_key1(self.slots()[b].key1_of()) == Some(b));
                    }
                }
                assert(ov =~= seq![self@[k1], self.by_key2()[k2]]);
                if a < b {
                    assert(*refs[0] == ov[0] && *refs[1] == ov[1]);
                } else {
                    assert(*refs[0] == ov[1] && *refs[1] == ov[0]);
                }
            }
        } else if s1 is Some {
            assert(ov =~= seq![self@[k1]]);
            assert(*refs[0] == ov[0]);
        } else if s2 is Some {
            assert(ov =~= seq![self.by_key2()[k2]]);
            assert(*refs[0] == ov[0]);
        } else {
            assert(ov =~= Seq::<T>::empty());
        }
    }

    /// The items an entry of the keys `k1` and `k2` reaches are the view's:
    /// by first key the item with first key `k1`, if any; by second key the
    /// item with second key `k2`, if any; and the entry is unique exactly
    /// when both are the same item.
    pub proof fn lemma_entry_ref_by_keys(&self, k1: u64, k2: u64)
        requires
            self.wf(),
            self.spec_entry(k1, k2) is Some,
        ensures
            self.spec_entry_ref(self.spec_entry(k1, k2)->0).spec_by_key1() == (if self@.contains_key(
                k1,
            ) {
                Some(&self@[k1])
            } else {
                None::<&T>
            }),
            self.spec_entry_ref(self.spec_entry(k1, k2)->0).spec_by_key2() == (
            if self.by_key2().contains_key(k2) {
                Some(&self.by_key2()[k2])
            } else {
                None::<&T>
            }),
            self.spec_entry_ref(self.spec_entry(k1, k2)->0) is Unique <==> self@.contains_key(k1)
                && self.by_key2().contains_key(k2) && self@[k1].key2_of() == k2,
    {
        self.lemma_slots_by_keys();
        self.lemma_keys_agree();
        let s1 = self.slot_of_key1(k1);
        let s2 = self.slot_of_key2(k2);
        if s1 is Some && s2 is Some {
            let a = s1->0;
            let b = s2->0;
            if self@[k1].key2_of() == k2 {
                assert(self.slot_of_key2(self.slots()[a].key2_of()) == Some(a));
            }
            if a == b {
                assert(self.slots()[a] == self@[k1]);
                assert(self.slots()[a] == self.by_key2()[k2]);
            }
        }
    }

    /// Both keys of every item reach it: the items by first key and by
    /// second key are the same items, each under its own keys.
    pub proof fn lemma_keys_agree(&self)
        requires
            self.wf(),
        ensures
            self@.dom().finite(),
            self.by_key2().dom().finite(),
            self@.len() == self.by_key2().len(),
            forall|k: u64| #[trigger]
                self@.contains_key(k) ==> self@[k].key1_of() == k && self.by_key2().contains_key(
                    self@[k].key2_of(),
                ) && self.by_key2()[self@[k].key2_of()] == self@[k],
            forall|k: u64| #[trigger]
                self.by_key2().contains_key(k) ==> self.by_key2()[k].key2_of() == k
                    && self@.contains_key(self.by_key2()[k].key1_of())
                    && self@[self.by_key2()[k].key1_of()] == self.by_key2()[k],
    {
        self.lemma_wf_view();
        assert forall|k: u64| #[trigger] self@.contains_key(k) implies self@[k].key1_of() == k
            && self.by_key2().contains_key(self@[k].key2_of()) && self.by_key2()[self@[k].key2_of()]
            == self@[k] by {
            let i = table_contents(self.k1_to_item)[k];
            assert(self.items@.contains_key(i));
        }
        assert forall|k: u64| #[trigger] self.by_key2().contains_key(k) implies self.by_key2()[k].key2_of()
            == k && self@.contains_key(self.by_key2()[k].key1_of()) && self@[self.by_key2()[k].key1_of()]
            == self.by_key2()[k] by {
            let i = table_contents(self.k2_to_item)[k];
            assert(self.items@.contains_key(i));
        }
    }

    fn from_parts(items: ItemSet<T>, k1_to_item: KeyTable, k2_to_item: KeyTable) -> (m: Self)
        requires
            items.wf(),
            items@ == Map::<usize, T>::empty(),
            items.spec_len() == 0,
            items.hole_free(),
            table_contents(k1_to_item) == Map::<u64, usize>::empty(),
            table_contents(k2_to_item) == Map::<u64, usize>::empty(),
        ensures
            m.wf(),
            m@ == Map::<u64, T>::empty(),
            m.by_key2() == Map::<u64, T>::empty(),
            m.spec_holes() == 0,
            m.slots() == Map::<usize, T>::empty(),
            m.spec_next_index() == items.spec_next_index(),
            m.items == items,
            m.k1_to_item == k1_to_item,
            m.k2_to_item == k2_to_item,
    {
        let m = BiHashMap { items, k1_to_item, k2_to_item };
        assert(m@ =~= Map::<u64, T>::empty());
        assert(m.by_key2() =~= Map::<u64, T>::empty());
        m
    }

    /// Creates a new, empty map.
    pub fn new() -> (m: Self)
        ensures
            m.wf(),
            m@ == Map::<u64, T>::empty(),
            m.by_key2() == Map::<u64, T>::empty(),
            m.spec_holes() == 0,
            m.slots() == Map::<usize, T>::empty(),
            m.spec_next_index() == 0,
    {
        Self::from_parts(
            ItemSet::new(),
            KeyTable::with_capacity_and_hasher(0, default_hasher()),
            KeyTable::with_capacity_and_hasher(0, default_hasher()),
        )
    }

    /// Creates a new, empty map with room for `capacity` items.
    pub fn with_capacity(capacity: usize) -> (m: Self)
        requires
            capacity_fits::<T>(capacity),
        ensures
            m.wf(),
            m@ == Map::<u64, T>::empty(),
            m.by_key2() == Map::<u64, T>::empty(),
            m.spec_holes() == 0,
            m.slots() == Map::<usize, T>::empty(),
            m.spec_next_index() == 0,
    {
        Self::from_parts(
            ItemSet::with_capacity(capacity),
            KeyTable::with_capacity_and_hasher(capacity, default_hasher()),
            KeyTable::with_capacity_and_hasher(capacity, default_hasher()),
        )
    }

    /// The number of items the map holds without reallocating its slots.
    pub fn capacity(&self) -> (c: usize)
        requires
            self.wf(),
        ensures
            c >= self@.len(),
    {
        proof {
            self.lemma_wf_view();
        }
        self.items.capacity()
    }

    /// Returns true if the map is empty.
    pub fn is_empty(&self) -> (b: bool)
        requires
            self.wf(),
        ensures
            b <==> self@.len() == 0,
    {
        proof {
            self.lemma_wf_view();
        }
        self.items.is_empty()
    }

    /// Returns the number of items in the map.
    pub fn len(&self) -> (n: usize)
        requires
            self.wf(),
        ensures
            n == self@.len(),
            n == self.by_key2().len(),
    {
        proof {
            self.lemma_wf_view();
        }
        self.items.len()
    }

    /// The items of the map, each once, in slot order.
    pub fn iter(&self) -> (v: Vec<&T>)
        requires
            self.wf(),
        ensures
            v@.len() == self@.len(),
            forall|j: int|
                0 <= j < v@.len() ==> self@.contains_key(#[trigger] v@[j].key1_of())
                    && self@[v@[j].key1_of()] == *v@[j],
            forall|a: int, b: int|
                0 <= a < v@.len() && 0 <= b < v@.len() && a != b ==> v@[a].key1_of()
                    != v@[b].key1_of(),
            forall|k: u64| #[trigger]
                self@.contains_key(k) ==> exists|j: int| 0 <= j < v@.len() && v@[j].key1_of() == k,
    {
        proof {
            self.lemma_wf_view();
        }
        let ixs = self.items.indexes();
        let mut v: Vec<&T> = Vec::new();
        let mut j: usize = 0;
        while j < ixs.len()
            invariant
                self.wf(),
                j <= ixs@.len(),
                v@.len() == j,
                forall|a: int, b: int| 0 <= a < b < ixs@.len() ==> ixs@[a] < ixs@[b],
                forall|a: int| 0 <= a < ixs@.len() ==> self.items@.contains_key(#[trigger] ixs@[a]),
                forall|a: int| 0 <= a < j ==> *v@[a] == self.items@[#[trigger] ixs@[a]],
            decreases ixs@.len() - j,
        {
            let item = self.items.get(ixs[j]).unwrap();
            v.push(item);
            j = j + 1;
        }
        proof {
            self.lemma_wf_view();
            assert forall|a: int, b: int|
                0 <= a < v@.len() && 0 <= b < v@.len() && a != b implies v@[a].key1_of()
                != v@[b].key1_of() by {
                assert(*v@[a] == self.items@[ixs@[a]]);
                assert(*v@[b] == self.items@[ixs@[b]]);
                assert(ixs@[a] != ixs@[b]);
            }
            assert forall|a: int| 0 <= a < v@.len() implies self@.contains_key(
                #[trigger] v@[a].key1_of(),
            ) && self@[v@[a].key1_of()] == *v@[a] by {
                assert(*v@[a] == self.items@[ixs@[a]]);
            }
            assert forall|k: u64| #[trigger] self@.contains_key(k) implies exists|j: int|
                0 <= j < v@.len() && v@[j].key1_of() == k by {
                let i = table_contents(self.k1_to_item)[k];
                assert(self.items@.contains_key(i));
                assert(ixs@.contains(i));
                let a = choose|a: int| 0 <= a < ixs@.len() && ixs@[a] == i;
                assert(*v@[a] == self.items@[ixs@[a]]);
            }
        }
        v
    }

    /// Checks the map's invariants, and that its slots are compact when that
    /// is expected. The invariants always hold, so only compactness can fail.
    pub fn validate(&self, compactness: ValidateCompact) -> (r: Result<(), ValidationError>)
        requires
            self.wf(),
        ensures
            r is Ok <==> (compactness == ValidateCompact::NonCompact || self.spec_is_compact()),
    {
        self.items.validate(compactness)?;
        let ixs = self.items.indexes();
        let mut j: usize = 0;
        while j < ixs.len()
            invariant
                self.wf(),
                j <= ixs@.len(),
                forall|a: int| 0 <= a < ixs@.len() ==> self.items@.contains_key(#[trigger] ixs@[a]),
            decreases ixs@.len() - j,
        {
            let ix = ixs[j];
            let item = self.items.get(ix).unwrap();
            proof {
                self.lemma_wf_view();
            }
            let ix1 = self.find1_index(item.key1());
            let ix2 = self.find2_index(item.key2());
            if ix1 != Some(ix) || ix2 != Some(ix) {
                return Err(
                    ValidationError::general(
                        String::from_str("item has inconsistent key indexes"),
                    ),
                );
            }
            j = j + 1;
        }
        Ok(())
    }

    /// The slot of the item with first key `k`, if any.
    fn find1_index(&self, k: u64) -> (r: Option<usize>)
        requires
            self.wf(),
        ensures
            r == self.slot_of_key1(k),
            r is Some <==> self@.contains_key(k),
            r matches Some(ix) ==> self.items@.contains_key(ix) && self.items@[ix] == self@[k],
    {
        proof {
            self.lemma_wf_view();
        }
        self.k1_to_item.get(k)
    }

    /// The slot of the item with second key `k`, if any.
    fn find2_index(&self, k: u64) -> (r: Option<usize>)
        requires
            self.wf(),
        ensures
            r == self.slot_of_key2(k),
            r is Some <==> self.by_key2().contains_key(k),
            r matches Some(ix) ==> self.items@.contains_key(ix) && self.items@[ix]
                == self.by_key2()[k],
    {
        proof {
            self.lemma_wf_view();
        }
        self.k2_to_item.get(k)
    }

    /// Returns true if the map contains an item with first key `key1`.
    pub fn contains_key1(&self, key1: u64) -> (b: bool)
        requires
            self.wf(),
        ensures
            b == self@.contains_key(key1),
    {
        self.find1_index(key1).is_some()
    }

    /// Returns true if the map contains an item with second key `key2`.
    pub fn contains_key2(&self, key2: u64) -> (b: bool)
        requires
            self.wf(),
        ensures
            b == self.by_key2().contains_key(key2),
    {
        self.find2_index(key2).is_some()
    }

    /// Gets the item with first key `key1`.
    pub fn get1(&self, key1: u64) -> (r: Option<&T>)
        requires
            self.wf(),
        ensures
            r == (if self@.contains_key(key1) {
                Some(&self@[key1])
            } else {
                None::<&T>
            }),
    {
        match self.find1_index(key1) {
            Some(ix) => self.items.get(ix),
            None => None,
        }
    }

    /// Gets the item with second key `key2`.
    pub fn get2(&self, key2: u64) -> (r: Option<&T>)
        requires
            self.wf(),
        ensures
            r == (if self.by_key2().contains_key(key2) {
                Some(&self.by_key2()[key2])
            } else {
                None::<&T>
            }),
    {
        match self.find2_index(key2) {
            Some(ix) => self.items.get(ix),
            None => None,
        }
    }

    /// The item with both keys `key1` and `key2`, if there is one.
    pub fn get_unique(&self, key1: u64, key2: u64) -> (r: Option<&T>)
        requires
            self.wf(),
        ensures
            r == (if self@.contains_key(key1) && self@[key1].key2_of() == key2 {
                Some(&self@[key1])
            } else {
                None::<&T>
            }),
    {
        match self.get1(key1) {
            Some(item) => {
                if item.key2() == key2 {
                    Some(item)
                } else {
                    None
                }
            },
            None => None,
        }
    }

    /// Whether there is an item with both keys `key1` and `key2`.
    pub fn contains_key_unique(&self, key1: u64, key2: u64) -> (b: bool)
        requires
            self.wf(),
        ensures
            b <==> self@.contains_key(key1) && self@[key1].key2_of() == key2,
    {
        self.get_unique(key1, key2).is_some()
    }

    /// Stores `value`, neither of whose keys is in the map, and returns its
    /// slot.
    fn insert_new(&mut self, value: T) -> (ix: usize)
        requires
            old(self).wf(),
            !old(self)@.contains_key(value.key1_of()),
            !old(self).by_key2().contains_key(value.key2_of()),
        ensures
            final(self).wf(),
            final(self)@ == old(self)@.insert(value.key1_of(), value),
            final(self).by_key2() == old(self).by_key2().insert(value.key2_of(), value),
            final(self).slots() == old(self).slots().insert(ix, value),
            ix == old(self).spec_next_index(),
            final(self).spec_holes() == after_fill(old(self).spec_holes()),
            final(self).spec_entry(value.key1_of(), value.key2_of()) == Some(
                EntryIndexes::Unique(ix),
            ),
    {
        proof {
            self.lemma_wf_view();
        }
        let k1 = value.key1();
        let k2 = value.key2();
        let ghost old_items = self.items@;
        let ghost t1 = table_contents(self.k1_to_item);
        let ghost t2 = table_contents(self.k2_to_item);
        let ghost v = value;
        let ix = self.items.insert_at_next_index(value);
        self.k1_to_item.insert(k1, ix);
        self.k2_to_item.insert(k2, ix);
        proof {
            lemma_index_insert(old_items, t1, bi_key1::<T>(), ix, v);
            lemma_index_insert(old_items, t2, bi_key2::<T>(), ix, v);
            assert((bi_key1::<T>())(v) == k1);
            assert((bi_key2::<T>())(v) == k2);
            self.lemma_wf_view();
            assert(self.items@.contains_key(ix));
        }
        ix
    }

    /// Inserts `value` unless one of its keys is present; returns the slot it
    /// went to, or the conflicting items in slot order.
    pub fn insert_unique_impl(&mut self, value: T) -> (r: Result<usize, DuplicateItem<T, &T>>)
        requires
            old(self).wf(),
        ensures
            final(self).wf(),
            match r {
                Ok(ix) => {
                    &&& !old(self)@.contains_key(value.key1_of())
                    &&& !old(self).by_key2().contains_key(value.key2_of())
                    &&& final(self)@ == old(self)@.insert(value.key1_of(), value)
                    &&& final(self).by_key2() == old(self).by_key2().insert(value.key2_of(), value)
                    &&& final(self).slots() == old(self).slots().insert(ix, value)
                    &&& ix == old(self).spec_next_index()
                    &&& final(self).spec_holes() == after_fill(old(self).spec_holes())
                    &&& final(self).spec_entry(value.key1_of(), value.key2_of()) == Some(
                        EntryIndexes::Unique(ix),
                    )
                },
                Err(dup) => {
                    let slots = conflict_slots(
                        old(self).slot_of_key1(value.key1_of()),
                        old(self).slot_of_key2(value.key2_of()),
                    );
                    &&& old(self)@.contains_key(value.key1_of()) || old(self).by_key2().contains_key(
                        value.key2_of(),
                    )
                    &&& *final(self) == *old(self)
                    &&& dup.spec_new_item() == value
                    &&& dup.spec_duplicates().len() == slots.len()
                    &&& forall|j: int|
                        0 <= j < slots.len() ==> old(self).slots().contains_key(slots[j])
                            && *#[trigger] dup.spec_duplicates()[j] == old(self).slots()[slots[j]]
                    &&& same_items(
                        dup.spec_duplicates(),
                        overwritten_items(old(self)@, old(self).by_key2(), value),
                    )
                },
            },
    {
        proof {
            self.lemma_wf_view();
        }
        let k1 = value.key1();
        let k2 = value.key2();
        let e1 = self.find1_index(k1);
        let e2 = self.find2_index(k2);
        let ghost v = value;
        let r = match (e1, e2) {
            (None, None) => Ok(self.insert_new(value)),
            (Some(a), None) => {
                let d = self.items.get(a).unwrap();
                Err(DuplicateItem::__internal_new(value, vec![d]))
            },
            (None, Some(b)) => {
                let d = self.items.get(b).unwrap();
                Err(DuplicateItem::__internal_new(value, vec![d]))
            },
            (Some(a), Some(b)) => {
                if a == b {
                    let d = self.items.get(a).unwrap();
                    Err(DuplicateItem::__internal_new(value, vec![d]))
                } else if a < b {
                    let d1 = self.items.get(a).unwrap();
                    let d2 = self.items.get(b).unwrap();
                    Err(DuplicateItem::__internal_new(value, vec![d1, d2]))
                } else {
                    let d1 = self.items.get(b).unwrap();
                    let d2 = self.items.get(a).unwrap();
                    Err(DuplicateItem::__internal_new(value, vec![d1, d2]))
                }
            },
        };
        proof {
            if r is Err {
                old(self).lemma_conflicts_are_overwritten(v, r->Err_0.spec_duplicates());
            }
        }
        r
    }

    /// Inserts a value into the map, returning an error if either of its
    /// keys is already present.
    pub fn insert_unique(&mut self, value: T) -> (r: Result<(), DuplicateItem<T, &T>>)
        requires
            old(self).wf(),
        ensures
            final(self).wf(),
            r is Ok <==> !old(self)@.contains_key(value.key1_of()) && !old(self).by_key2().contains_key(
                value.key2_of(),
            ),
            r is Ok ==> final(self)@ == old(self)@.insert(value.key1_of(), value)
                && final(self).by_key2() == old(self).by_key2().insert(value.key2_of(), value)
                && final(self).spec_holes() == after_fill(old(self).spec_holes()),
            r is Err ==> *final(self) == *old(self),
            r matches Err(dup) ==> {
                let slots = conflict_slots(
                    old(self).slot_of_key1(value.key1_of()),
                    old(self).slot_of_key2(value.key2_of()),
                );
                &&& dup.spec_new_item() == value
                &&& dup.spec_duplicates().len() == slots.len()
                &&& forall|j: int|
                    0 <= j < slots.len() ==> old(self).slots().contains_key(slots[j])
                        && *#[trigger] dup.spec_duplicates()[j] == old(self).slots()[slots[j]]
                &&& same_items(
                    dup.spec_duplicates(),
                    overwritten_items(old(self)@, old(self).by_key2(), value),
                )
            },
    {
        match self.insert_unique_impl(value) {
            Ok(_) => Ok(()),
            Err(dup) => Err(dup),
        }
    }

    /// Removes the item in slot `remove_index`, if the slot is occupied.
    pub fn remove_by_index(&mut self, remove_index: usize) -> (r: Option<T>)
        requires
            old(self).wf(),
        ensures
            final(self).wf(),
            r == (if old(self).slots().contains_key(remove_index) {
                Some(old(self).slots()[remove_index])
            } else {
                None::<T>
            }),
            r matches Some(v) ==> {
                &&& old(self)@.contains_key(v.key1_of())
                &&& old(self)@[v.key1_of()] == v
                &&& old(self).by_key2().contains_key(v.key2_of())
                &&& old(self).by_key2()[v.key2_of()] == v
                &&& final(self)@ == old(self)@.remove(v.key1_of())
                &&& final(self).by_key2() == old(self).by_key2().remove(v.key2_of())
                &&& final(self).slots() == old(self).slots().remove(remove_index)
                &&& final(self).spec_next_index() == remove_index
            },
            r is None ==> *final(self) == *old(self),
    {
        proof {
            self.lemma_wf_view();
        }
        let ghost old_items = self.items@;
        let ghost t1 = table_contents(self.k1_to_item);
        let ghost t2 = table_contents(self.k2_to_item);
        match self.items.remove(remove_index) {
            None => None,
            Some(value) => {
                proof {
                    lemma_index_remove(old_items, t1, bi_key1::<T>(), remove_index);
                    lemma_index_remove(old_items, t2, bi_key2::<T>(), remove_index);
                    lemma_index_dom(old_items, t1, bi_key1::<T>());
                    lemma_index_dom(old_items, t2, bi_key2::<T>());
                }
                let k1 = value.key1();
                let k2 = value.key2();
                self.k1_to_item.remove(k1);
                self.k2_to_item.remove(k2);
                Some(value)
            },
        }
    }

    /// Removes the item with first key `key1`, returning it.
    pub fn remove1(&mut self, key1: u64) -> (r: Option<T>)
        requires
            old(self).wf(),
        ensures
            final(self).wf(),
            final(self)@ == old(self)@.remove(key1),
            r == (if old(self)@.contains_key(key1) {
                Some(old(self)@[key1])
            } else {
                None::<T>
            }),
            r matches Some(v) ==> final(self).by_key2() == old(self).by_key2().remove(v.key2_of()),
            r is None ==> *final(self) == *old(self),
    {
        match self.find1_index(key1) {
            None => {
                proof {
                    assert(self@.remove(key1) =~= self@);
                }
                None
            },
            Some(ix) => self.remove_by_index(ix),
        }
    }

    /// Removes the item with second key `key2`, returning it.
    pub fn remove2(&mut self, key2: u64) -> (r: Option<T>)
        requires
            old(self).wf(),
        ensures
            final(self).wf(),
            final(self).by_key2() == old(self).by_key2().remove(key2),
            r == (if old(self).by_key2().contains_key(key2) {
                Some(old(self).by_key2()[key2])
            } else {
                None::<T>
            }),
            r matches Some(v) ==> final(self)@ == old(self)@.remove(v.key1_of()),
            r is None ==> *final(self) == *old(self),
    {
        match self.find2_index(key2) {
            None => {
                proof {
                    assert(self.by_key2().remove(key2) =~= self.by_key2());
                }
                None
            },
            Some(ix) => self.remove_by_index(ix),
        }
    }

    /// Inserts a value into the map, first removing the items that share a
    /// key with it, and returns those items.
    pub fn insert_overwrite(&mut self, value: T) -> (r: Vec<T>)
        requires
            old(self).wf(),
        ensures
            final(self).wf(),
            final(self)@ == overwrite_by_key1(old(self)@, old(self).by_key2(), value),
            final(self).by_key2() == overwrite_by_key2(old(self)@, old(self).by_key2(), value),
            r@ == overwritten_items(old(self)@, old(self).by_key2(), value),
    {
        proof {
            self.lemma_keys_agree();
        }
        let k1 = value.key1();
        let k2 = value.key2();
        let ghost m1 = self@;
        let ghost m2 = self.by_key2();
        let mut duplicates: Vec<T> = Vec::new();
        match self.remove1(k1) {
            Some(d) => {
                duplicates.push(d);
            },
            None => {},
        }
        let ghost mid1 = self@;
        let ghost mid2 = self.by_key2();
        proof {
            self.lemma_keys_agree();
            if m1.contains_key(k1) {
                assert(mid2 == m2.remove(m1[k1].key2_of()));
            } else {
                assert(mid2 == m2);
            }
            if m2.contains_key(k2) && m2[k2].key1_of() != k1 {
                assert(m1.contains_key(m2[k2].key1_of()));
                if m1.contains_key(k1) {
                    assert(m1[k1].key2_of() != k2);
                }
                assert(mid2.contains_key(k2));
                assert(mid2[k2] == m2[k2]);
            }
            if m2.contains_key(k2) && m2[k2].key1_of() == k1 {
                assert(m1.contains_key(k1));
                assert(m1[k1] == m2[k2]);
                assert(!mid2.contains_key(k2));
            }
        }
        match self.remove2(k2) {
            Some(d) => {
                duplicates.push(d);
            },
            None => {},
        }
        proof {
            self.lemma_keys_agree();
        }
        self.insert_new(value);
        proof {
            assert(self@ =~= overwrite_by_key1(m1, m2, value));
            assert(self.by_key2() =~= overwrite_by_key2(m1, m2, value));
            assert(duplicates@ =~= overwritten_items(m1, m2, value));
        }
        duplicates
    }

    /// The entry that the keys `key1` and `key2` reach: none when neither is
    /// present, unique when both reach the same item.
    pub(crate) fn find_entry_indexes(&self, key1: u64, key2: u64) -> (r: Option<EntryIndexes>)
        requires
            self.wf(),
        ensures
            r == self.spec_entry(key1, key2),
            r is None <==> !self@.contains_key(key1) && !self.by_key2().contains_key(key2),
            r matches Some(e) ==> self.entry_in_slots(e),
    {
        let index1 = self.find1_index(key1);
        let index2 = self.find2_index(key2);
        EntryIndexes::classify(index1, index2)
    }

    /// The item in slot `index`, if the slot is occupied.
    pub(crate) fn get_by_index(&self, index: usize) -> (r: Option<&T>)
        requires
            self.wf(),
        ensures
            r == (if self.slots().contains_key(index) {
                Some(&self.slots()[index])
            } else {
                None::<&T>
            }),
    {
        self.items.get(index)
    }

    /// The items that the entry `indexes` reaches, in the order a removal
    /// returns them: by first key, then by second key.
    pub open spec fn spec_entry_items(&self, indexes: EntryIndexes) -> Seq<T> {
        match indexes {
            EntryIndexes::Unique(i) => seq![self.slots()[i]],
            EntryIndexes::NonUnique { index1, index2 } => {
                let first = match index1 {
                    Some(i) => seq![self.slots()[i]],
                    None => Seq::<T>::empty(),
                };
                let second = match index2 {
                    Some(i) => seq![self.slots()[i]],
                    None => Seq::<T>::empty(),
                };
                first + second
            },
        }
    }

    /// The items that the entry `indexes` reaches, by slot.
    pub open spec fn spec_entry_ref(&self, indexes: EntryIndexes) -> OccupiedEntryRef<'_, T> {
        match indexes {
            EntryIndexes::Unique(i) => OccupiedEntryRef::Unique(&self.slots()[i]),
            EntryIndexes::NonUnique { index1, index2 } => OccupiedEntryRef::NonUnique {
                by_key1: match index1 {
                    Some(i) => Some(&self.slots()[i]),
                    None => None,
                },
                by_key2: match index2 {
                    Some(i) => Some(&self.slots()[i]),
                    None => None,
                },
            },
        }
    }

    /// The items an entry reaches.
    pub fn get_by_entry_index(&self, indexes: EntryIndexes) -> (r: OccupiedEntryRef<'_, T>)
        requires
            self.wf(),
            self.entry_in_slots(indexes),
        ensures
            r == self.spec_entry_ref(indexes),
    {
        match indexes {
            EntryIndexes::Unique(index) => OccupiedEntryRef::Unique(self.items.get(index).unwrap()),
            EntryIndexes::NonUnique { index1, index2 } => {
                let by_key1 = match index1 {
                    Some(k) => Some(self.items.get(k).unwrap()),
                    None => None,
                };
                let by_key2 = match index2 {
                    Some(k) => Some(self.items.get(k).unwrap()),
                    None => None,
                };
                OccupiedEntryRef::NonUnique { by_key1, by_key2 }
            },
        }
    }

    /// Removes the items an entry reaches, returning them (by first key,
    /// then by second key).
    pub fn remove_by_entry_index(&mut self, indexes: EntryIndexes) -> (r: Vec<T>)
        requires
            old(self).wf(),
            old(self).entry_in_slots(indexes),
        ensures
            final(self).wf(),
            final(self)@ == without_items1(old(self)@, r@),
            final(self).by_key2() == without_items2(old(self).by_key2(), r@),
            r@ == old(self).spec_entry_items(indexes),
            match indexes {
                EntryIndexes::Unique(i) => {
                    &&& r@ == seq![old(self).slots()[i]]
                    &&& final(self).slots() == old(self).slots().remove(i)
                },
                EntryIndexes::NonUnique { index1, index2 } => {
                    let first = match index1 {
                        Some(i) => seq![old(self).slots()[i]],
                        None => Seq::<T>::empty(),
                    };
                    let second = match index2 {
                        Some(i) => seq![old(self).slots()[i]],
                        None => Seq::<T>::empty(),
                    };
                    let gone1 = match index1 {
                        Some(i) => old(self).slots().remove(i),
                        None => old(self).slots(),
                    };
                    &&& r@ == first + second
                    &&& final(self).slots() == (match index2 {
                        Some(i) => gone1.remove(i),
                        None => gone1,
                    })
                },
            },
    {
        match indexes {
            EntryIndexes::Unique(index) => {
                let old_item = self.remove_by_index(index).unwrap();
                let mut v: Vec<T> = Vec::new();
                v.push(old_item);
                proof {
                    assert(v@ =~= seq![old(self).slots()[index]]);
                    assert(v@.drop_last() =~= Seq::<T>::empty());
                    assert(without_items1(old(self)@, v@) == without_items1(
                        old(self)@,
                        v@.drop_last(),
                    ).remove(v@.last().key1_of()));
                    assert(without_items1(old(self)@, v@.drop_last()) == old(self)@);
                    assert(self@ == old(self)@.remove(old_item.key1_of()));
                    assert(v@.last() == old_item);
                    assert(self@ == without_items1(old(self)@, v@));
                    assert(without_items2(old(self).by_key2(), v@.drop_last()) == old(self).by_key2());
                    assert(self.by_key2() == without_items2(old(self).by_key2(), v@));
                }
                v
            },
            EntryIndexes::NonUnique { index1, index2 } => {
                let mut old_items: Vec<T> = Vec::new();
                match index1 {
                    Some(i) => {
                        let item = self.remove_by_index(i).unwrap();
                        old_items.push(item);
                        proof {
                            assert(old_items@.drop_last() =~= Seq::<T>::empty());
                            assert(without_items1(old(self)@, old_items@.drop_last()) == old(self)@);
                            assert(self@ == old(self)@.remove(item.key1_of()));
                            assert(without_items2(old(self).by_key2(), old_items@.drop_last())
                                == old(self).by_key2());
                            assert(self.by_key2() == old(self).by_key2().remove(item.key2_of()));
                        }
                    },
                    None => {
                        assert(without_items1(old(self)@, old_items@) == old(self)@);
                        assert(without_items2(old(self).by_key2(), old_items@) == old(self).by_key2());
                    },
                }
                assert(self@ == without_items1(old(self)@, old_items@));
                assert(self.by_key2() == without_items2(old(self).by_key2(), old_items@));
                match index2 {
                    Some(i) => {
                        let ghost before = old_items@;
                        let item = self.remove_by_index(i).unwrap();
                        old_items.push(item);
                        proof {
                            assert(old_items@.drop_last() =~= before);
                        }
                    },
                    None => {},
                }
                proof {
                    let first = match index1 {
                        Some(i) => seq![old(self).slots()[i]],
                        None => Seq::<T>::empty(),
                    };
                    let second = match index2 {
                        Some(i) => seq![old(self).slots()[i]],
                        None => Seq::<T>::empty(),
                    };
                    assert(old_items@ =~= first + second);
                }
                old_items
            },
        }
    }

    /// Puts `value` in place of the items that the entry of its own keys
    /// reaches; returns the slot it went to and the items it replaced.
    pub fn replace_at_indexes(&mut self, indexes: EntryIndexes, value: T) -> (r: (usize, Vec<T>))
        requires
            old(self).wf(),
            old(self).spec_entry(value.key1_of(), value.key2_of()) == Some(indexes),
        ensures
            final(self).wf(),
            final(self)@ == overwrite_by_key1(old(self)@, old(self).by_key2(), value),
            final(self).by_key2() == overwrite_by_key2(old(self)@, old(self).by_key2(), value),
            r.1@ == overwritten_items(old(self)@, old(self).by_key2(), value),
            final(self).slots().contains_key(r.0),
            final(self).slots()[r.0] == value,
            indexes matches EntryIndexes::Unique(i) ==> r.0 == i,
            final(self).spec_entry(value.key1_of(), value.key2_of()) == Some(
                EntryIndexes::Unique(r.0),
            ),
    {
        proof {
            self.lemma_wf_view();
            self.lemma_keys_agree();
        }
        let ghost m1 = self@;
        let ghost m2 = self.by_key2();
        let k1 = value.key1();
        let k2 = value.key2();
        match indexes {
            EntryIndexes::Unique(index) => {
                let ghost old_items = self.items@;
                let ghost v = value;
                assert(self.items@[index] == m1[k1]);
                assert(self.items@[index] == m2[k2]);
                let old_item = self.items.replace(index, value);
                proof {
                    lemma_index_replace(
                        old_items,
                        table_contents(self.k1_to_item),
                        bi_key1::<T>(),
                        index,
                        v,
                    );
                    lemma_index_replace(
                        old_items,
                        table_contents(self.k2_to_item),
                        bi_key2::<T>(),
                        index,
                        v,
                    );
                    assert(self@ =~= overwrite_by_key1(m1, m2, v));
                    assert(self.by_key2() =~= overwrite_by_key2(m1, m2, v));
                }
                let mut replaced: Vec<T> = Vec::new();
                replaced.push(old_item);
                proof {
                    assert(replaced@ =~= overwritten_items(m1, m2, v));
                    self.lemma_wf_view();
                    assert(self.items@.contains_key(index));
                }
                (index, replaced)
            },
            EntryIndexes::NonUnique { index1, index2 } => {
                let mut old_items: Vec<T> = Vec::new();
                match index1 {
                    Some(i) => {
                        let item = self.remove_by_index(i).unwrap();
                        old_items.push(item);
                    },
                    None => {},
                }
                let ghost mid1 = self@;
                let ghost mid2 = self.by_key2();
                proof {
                    self.lemma_keys_agree();
                    if m2.contains_key(k2) {
                        assert(m2[k2].key1_of() != k1);
                        assert(mid2.contains_key(k2));
                        assert(mid2[k2] == m2[k2]);
                    }
                }
                match index2 {
                    Some(i) => {
                        let item = self.remove_by_index(i).unwrap();
                        old_items.push(item);
                    },
                    None => {},
                }
                proof {
                    self.lemma_keys_agree();
                }
                let next_index = self.insert_new(value);
                proof {
                    assert(self@ =~= overwrite_by_key1(m1, m2, value));
                    assert(self.by_key2() =~= overwrite_by_key2(m1, m2, value));
                    assert(old_items@ =~= overwritten_items(m1, m2, value));
                    self.lemma_wf_view();
                    assert(self.items@.contains_key(next_index));
                }
                (next_index, old_items)
            },
        }
    }
}

impl<T: BiHashItem> BiHashMap<T> {
    /// Builds a map from `values`, each item overwriting the earlier items
    /// it conflicts with.
    pub fn from_vec(values: Vec<T>) -> (m: Self)
        ensures
            m.wf(),
            (m@, m.by_key2()) == bi_overwrite_all(Map::empty(), Map::empty(), values@),
            values@.len() > 0 ==> m@.contains_key(values@.last().key1_of()) && m@[values@.last().key1_of()]
                == values@.last(),
            values@.len() > 0 ==> m.by_key2().contains_key(values@.last().key2_of())
                && m.by_key2()[values@.last().key2_of()] == values@.last(),
    {
        let ghost s = values@;
        let mut map = Self::new();
        for v in it: values
            invariant
                map.wf(),
                it.seq() == s,
                (map@, map.by_key2()) == bi_overwrite_all(
                    Map::empty(),
                    Map::empty(),
                    s.take(it.index@ as int),
                ),
        {
            proof {
                assert(s.take(it.index@ as int + 1).drop_last() =~= s.take(it.index@ as int));
            }
            map.insert_overwrite(v);
        }
        proof {
            assert(s.take(s.len() as int) =~= s);
            if s.len() > 0 {
                crate::laws::law_bi_extend_last_wins(Map::empty(), Map::empty(), s);
            }
        }
        map
    }
}

impl<T: BiHashItem> Default for BiHashMap<T> {
    /// An empty map.
    fn default() -> (m: Self)
        ensures
            m.wf(),
            m@ == Map::<u64, T>::empty(),
            m.by_key2() == Map::<u64, T>::empty(),
            m.spec_holes() == 0,
            m.slots() == Map::<usize, T>::empty(),
            m.spec_next_index() == 0,
    {
        Self::new()
    }
}

impl<T: BiHashItem + PartialEq> BiHashMap<T> {
    /// Whether the two maps hold the same items: the same first keys, each
    /// with an equal item that has the same second key. The order the items
    /// were inserted in does not matter.
    pub fn eq(&self, other: &Self) -> (r: bool)
        requires
            self.wf(),
            other.wf(),
        ensures
            r ==> self@.dom() == other@.dom(),
            T::obeys_eq_spec() ==> (r <==> bi_views_match(self@, other@)),
            T::obeys_eq_spec() ==> (r <==> self@.dom() == other@.dom() && forall|k: u64|
                #[trigger] self@.contains_key(k) ==> self@[k].key2_of() == other@[k].key2_of() && self@[k].eq_spec(&other@[k])),
    {
        proof {
            crate::laws::law_bi_views_match_by_keys(self@, other@);
            self.lemma_wf_view();
            other.lemma_wf_view();
            other.lemma_keys_agree();
        }
        if self.len() != other.len() {
            return false;
        }
        let ixs = self.items.indexes();
        let mut j: usize = 0;
        while j < ixs.len()
            invariant
                self.wf(),
                other.wf(),
                self@.len() == other@.len(),
                j <= ixs@.len(),
                forall|a: int| 0 <= a < ixs@.len() ==> self.items@.contains_key(#[trigger] ixs@[a]),
                forall|i: usize| self.items@.contains_key(i) ==> ixs@.contains(i),
                forall|a: int|
                    0 <= a < j ==> other@.contains_key(#[trigger] self.items@[ixs@[a]].key1_of())
                        && other@[self.items@[ixs@[a]].key1_of()].key2_of()
                        == self.items@[ixs@[a]].key2_of(),
                T::obeys_eq_spec() ==> forall|a: int|
                    0 <= a < j ==> (#[trigger] self.items@[ixs@[a]]).eq_spec(
                        &other@[self.items@[ixs@[a]].key1_of()],
                    ),
            decreases ixs@.len() - j,
        {
            proof {
                self.lemma_wf_view();
                other.lemma_wf_view();
                other.lemma_keys_agree();
            }
            let item = self.items.get(ixs[j]).unwrap();
            let other_ix1 = other.find1_index(item.key1());
            let other_ix2 = other.find2_index(item.key2());
            match (other_ix1, other_ix2) {
                (Some(a), Some(b)) => {
                    if a != b {
                        proof {
                            assert(other.slot_of_key1(other@[item.key1_of()].key1_of()) == Some(a));
                            if other@[item.key1_of()].key2_of() == item.key2_of() {
                                assert(other.by_key2()[item.key2_of()] == other@[item.key1_of()]);
                            }
                        }
                        return false;
                    }
                    let other_item = other.items.get(a).unwrap();
                    if !item.eq(other_item) {
                        return false;
                    }
                },
                _ => {
                    proof {
                        if other@.contains_key(item.key1_of()) {
                            let o = other@[item.key1_of()];
                            assert(other.by_key2().contains_key(o.key2_of()));
                        }
                    }
                    return false;
                },
            }
            j = j + 1;
        }
        proof {
            self.lemma_wf_view();
            other.lemma_wf_view();
            assert forall|k: u64| #[trigger] self@.contains_key(k) implies other@.contains_key(k)
                && other@[k].key2_of() == self@[k].key2_of() && (T::obeys_eq_spec()
                ==> self@[k].eq_spec(&other@[k])) by {
                let i = table_contents(self.k1_to_item)[k];
                assert(self.items@.contains_key(i));
                assert(ixs@.contains(i));
                let a = choose|a: int| 0 <= a < ixs@.len() && ixs@[a] == i;
                assert(self.items@[ixs@[a]].key1_of() == k);
            }
            vstd::set_lib::lemma_subset_equality(self@.dom(), other@.dom());
        }
        true
    }
}

} // verus!
