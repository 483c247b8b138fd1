//! Slot storage for the items of a map.
//!
//! Items live in a vector of slots. A removed item leaves a hole; the holes
//! are kept on a free stack, and the next insertion fills the hole freed
//! last. Slot indexes are what the maps' key tables point to.

use crate::internal::{ValidateCompact, ValidationError};
use vstd::prelude::*;

verus! {

/// Slots holding a map's items, with a stack of the free ones.
#[derive(Debug)]
pub struct ItemSet<T> {
    slots: Vec<Option<T>>,
    free: Vec<usize>,
    len: usize,
}

impl<T> View for ItemSet<T> {
    type V = Map<usize, T>;

    /// The occupied slots, by index.
    closed spec fn view(&self) -> Map<usize, T> {
        Map::new(
            |i: usize| i < self.slots@.len() && self.slots@[i as int] is Some,
            |i: usize| self.slots@[i as int]->Some_0,
        )
    }
}

/// The number of holes left after one insertion into a set with `holes`
/// holes: an insertion fills a hole when there is one.
pub open spec fn after_fill(holes: nat) -> nat {
    if holes == 0 {
        0
    } else {
        (holes - 1) as nat
    }
}

/// The set of indexes below `n`.
pub open spec fn index_range(n: nat) -> Set<usize> {
    Set::new(|i: usize| i < n)
}

impl<T> ItemSet<T> {
    /// The internal invariant: the free stack holds exactly the empty slots,
    /// each once, and `len` counts the occupied ones.
    pub closed spec fn wf(&self) -> bool {
        &&& self.free@.no_duplicates()
        &&& forall|j: int|
            0 <= j < self.free@.len() ==> #[trigger] self.free@[j] < self.slots@.len()
                && self.slots@[self.free@[j] as int] is None
        &&& forall|i: int|
            0 <= i < self.slots@.len() && #[trigger] self.slots@[i] is None ==> self.free@.contains(
                i as usize,
            )
        &&& self.len + self.free@.len() == self.slots@.len()
        &&& self@.dom().finite()
        &&& self@.dom().len() == self.len
    }

    /// The number of occupied slots.
    pub closed spec fn spec_len(&self) -> nat {
        self.len as nat
    }

    /// The index that the next insertion fills: the hole freed last, or a new
    /// slot at the end when there is no hole.
    pub closed spec fn spec_next_index(&self) -> usize {
        if self.free@.len() == 0 {
            self.slots@.len() as usize
        } else {
            self.free@.last()
        }
    }

    /// Whether the occupied slots are exactly `0..len`.
    pub open spec fn is_compact(&self) -> bool {
        self@.dom() =~= index_range(self.spec_len())
    }

    /// The number of empty slots below the end of the slot vector.
    pub closed spec fn holes(&self) -> nat {
        self.free@.len()
    }

    /// Whether no slot below the end is empty: every removal since the set
    /// was made has been filled again.
    pub open spec fn hole_free(&self) -> bool {
        self.holes() == 0
    }

    /// A set without holes is compact, and its next insertion goes to the
    /// end: items inserted one after another get the indexes 0, 1, 2, ...
    pub proof fn lemma_hole_free_compact(&self)
        requires
            self.wf(),
            self.hole_free(),
        ensures
            self.is_compact(),
            self.spec_next_index() == self.spec_len(),
    {
        assert forall|i: usize| #[trigger] self@.dom().contains(i) implies index_range(
            self.spec_len(),
        ).contains(i) by {}
        assert forall|i: usize| #[trigger] index_range(self.spec_len()).contains(i) implies self@.dom().contains(
            i,
        ) by {
            if self.slots@[i as int] is None {
                assert(self.free@.contains(i));
            }
        }
        assert(self@.dom() =~= index_range(self.spec_len()));
    }

    /// The number of occupied slots is the size of the view.
    pub proof fn lemma_len(&self)
        requires
            self.wf(),
        ensures
            self@.dom().finite(),
            self@.len() == self.spec_len(),
    {
    }

    proof fn lemma_next_index_free(&self)
        requires
            self.wf(),
        ensures
            !self@.contains_key(self.spec_next_index()),
            self.spec_next_index() <= self.slots@.len(),
    {
        if self.free@.len() > 0 {
            let j = self.free@.len() - 1;
            assert(self.free@[j] < self.slots@.len());
        }
    }

    /// Creates an empty set.
    pub fn new() -> (s: Self)
        ensures
            s.wf(),
            s@ == Map::<usize, T>::empty(),
            s.spec_len() == 0,
            s.spec_next_index() == 0,
            s.hole_free(),
    {
        let s = ItemSet { slots: Vec::new(), free: Vec::new(), len: 0 };
        assert(s@ =~= Map::<usize, T>::empty());
        s
    }

    /// Creates an empty set with room for `capacity` items.
    pub fn with_capacity(capacity: usize) -> (s: Self)
        ensures
            s.wf(),
            s@ == Map::<usize, T>::empty(),
            s.spec_len() == 0,
            s.spec_next_index() == 0,
            s.hole_free(),
    {
        let s = ItemSet { slots: Vec::with_capacity(capacity), free: Vec::new(), len: 0 };
        assert(s@ =~= Map::<usize, T>::empty());
        s
    }

    /// The number of items the slot vector holds without reallocating.
    pub fn capacity(&self) -> (c: usize)
        requires
            self.wf(),
        ensures
            c >= self.spec_len(),
    {
        vec_capacity(&self.slots)
    }

    /// The number of items.
    pub fn len(&self) -> (n: usize)
        requires
            self.wf(),
        ensures
            n == self.spec_len(),
            n == self@.len(),
    {
        self.len
    }

    /// Whether there are no items.
    pub fn is_empty(&self) -> (b: bool)
        requires
            self.wf(),
        ensures
            b <==> self@.len() == 0,
    {
        self.len == 0
    }

    /// The index that the next insertion fills.
    pub fn next_index(&self) -> (ix: usize)
        requires
            self.wf(),
        ensures
            ix == self.spec_next_index(),
            !self@.contains_key(ix),
    {
        proof {
            self.lemma_next_index_free();
        }
        if self.free.len() == 0 {
            self.slots.len()
        } else {
            self.free[self.free.len() - 1]
        }
    }

    /// The item in slot `ix`, if the slot is occupied.
    pub fn get(&self, ix: usize) -> (r: Option<&T>)
        requires
            self.wf(),
        ensures
            r == (if self@.contains_key(ix) {
                Some(&self@[ix])
            } else {
                None::<&T>
            }),
    {
        if ix < self.slots.len() {
            match &self.slots[ix] {
                Some(item) => Some(item),
                None => None,
            }
        } else {
            None
        }
    }

    /// Stores `value` in the slot that `next_index` names, and returns that
    /// index.
    pub fn insert_at_next_index(&mut self, value: T) -> (ix: usize)
        requires
            old(self).wf(),
        ensures
            final(self).wf(),
            ix == old(self).spec_next_index(),
            !old(self)@.contains_key(ix),
            final(self)@ == old(self)@.insert(ix, value),
            final(self).spec_len() == old(self).spec_len() + 1,
            final(self).holes() == after_fill(old(self).holes()),
    {
        proof {
            self.lemma_next_index_free();
        }
        let ghost old_view = self@;
        let ghost old_free = self.free@;
        if self.free.len() == 0 {
            let ix = self.slots.len();
            self.slots.push(Some(value));
            assert(self.slots@.len() == self.slots.len());
            self.len = self.len + 1;
            assert(self@ =~= old_view.insert(ix, value));
            assert forall|j: int| 0 <= j < self.free@.len() implies #[trigger] self.free@[j]
                < self.slots@.len() && self.slots@[self.free@[j] as int] is None by {}
            ix
        } else {
            let ix = self.free.pop().unwrap();
            assert(ix == old_free[old_free.len() - 1]);
            self.slots.set(ix, Some(value));
            assert(self.slots@.len() == self.slots.len());
            self.len = self.len + 1;
            assert(self@ =~= old_view.insert(ix, value));
            assert forall|j: int| 0 <= j < self.free@.len() implies #[trigger] self.free@[j]
                < self.slots@.len() && self.slots@[self.free@[j] as int] is None by {
                assert(self.free@[j] == old_free[j]);
                assert(old_free[j] != old_free[old_free.len() - 1]);
            }
            assert forall|i: int|
                0 <= i < self.slots@.len() && #[trigger] self.slots@[i] is None implies self.free@.contains(
                i as usize,
            ) by {
                assert(i != ix as int);
                assert(old_free.contains(i as usize));
                let j = choose|j: int| 0 <= j < old_free.len() && old_free[j] == i as usize;
                assert(j != old_free.len() - 1);
                assert(self.free@[j] == i as usize);
            }
            ix
        }
    }

    /// Inserts `value` into the next free slot and returns its index.
    pub fn insert(&mut self, value: T) -> (ix: usize)
        requires
            old(self).wf(),
        ensures
            final(self).wf(),
            ix == old(self).spec_next_index(),
            final(self)@ == old(self)@.insert(ix, value),
            final(self).spec_len() == old(self).spec_len() + 1,
            final(self).holes() == after_fill(old(self).holes()),
    {
        self.insert_at_next_index(value)
    }

    /// Removes and returns the item in slot `ix`, if the slot is occupied.
    /// The slot becomes the one that the next insertion fills.
    pub fn remove(&mut self, ix: usize) -> (r: Option<T>)
        requires
            old(self).wf(),
        ensures
            final(self).wf(),
            r == (if old(self)@.contains_key(ix) {
                Some(old(self)@[ix])
            } else {
                None::<T>
            }),
            final(self)@ == old(self)@.remove(ix),
            old(self)@.contains_key(ix) ==> final(self).spec_next_index() == ix
                && final(self).spec_len() == old(self).spec_len() - 1 && final(self).holes()
                == old(self).holes() + 1,
            !old(self)@.contains_key(ix) ==> *final(self) == *old(self),
    {
        if ix >= self.slots.len() {
            return None;
        }
        if self.slots[ix].is_none() {
            assert(!self@.contains_key(ix));
            assert(self@.remove(ix) =~= self@);
            return None;
        }
        let ghost old_view = self@;
        let ghost old_free = self.free@;
        let ghost old_slots = self.slots@;
        let taken = self.slots[ix].take();
        assert(self.slots@ == old_slots.update(ix as int, None));
        self.free.push(ix);
        assert(old_view.contains_key(ix));
        assert(old_view.dom().remove(ix).len() + 1 == old_view.dom().len());
        self.len = self.len - 1;
        assert(self@ =~= old_view.remove(ix));
        assert(!old_free.contains(ix));
        assert forall|j: int| 0 <= j < self.free@.len() implies #[trigger] self.free@[j]
            < self.slots@.len() && self.slots@[self.free@[j] as int] is None by {
            if j < old_free.len() {
                assert(self.free@[j] == old_free[j]);
            }
        }
        assert forall|i: int|
            0 <= i < self.slots@.len() && #[trigger] self.slots@[i] is None implies self.free@.contains(
            i as usize,
        ) by {
            if i != ix as int {
                assert(old_slots[i] is None);
                let j = choose|j: int| 0 <= j < old_free.len() && old_free[j] == i as usize;
                assert(self.free@[j] == i as usize);
            } else {
                assert(self.free@[self.free@.len() - 1] == ix);
            }
        }
        taken
    }

    /// Replaces the item in the occupied slot `ix` with `value`, returning
    /// the old item.
    pub fn replace(&mut self, ix: usize, value: T) -> (old_item: T)
        requires
            old(self).wf(),
            old(self)@.contains_key(ix),
        ensures
            final(self).wf(),
            old_item == old(self)@[ix],
            final(self)@ == old(self)@.insert(ix, value),
            final(self).spec_len() == old(self).spec_len(),
            final(self).spec_next_index() == old(self).spec_next_index(),
            final(self).holes() == old(self).holes(),
    {
        let ghost old_view = self@;
        let taken = self.slots[ix].take();
        self.slots.set(ix, Some(value));
        assert(self@ =~= old_view.insert(ix, value));
        assert(old_view.insert(ix, value).dom() =~= old_view.dom());
        taken.unwrap()
    }

    /// The occupied slot indexes, in increasing order.
    pub fn indexes(&self) -> (v: Vec<usize>)
        requires
            self.wf(),
        ensures
            forall|a: int, b: int| 0 <= a < b < v@.len() ==> v@[a] < v@[b],
            forall|a: int| 0 <= a < v@.len() ==> self@.contains_key(#[trigger] v@[a]),
            forall|i: usize| self@.contains_key(i) ==> v@.contains(i),
            v@.len() == self@.len(),
    {
        let mut v: Vec<usize> = Vec::new();
        let mut i: usize = 0;
        while i < self.slots.len()
            invariant
                self.wf(),
                i <= self.slots@.len(),
                forall|a: int, b: int| 0 <= a < b < v@.len() ==> v@[a] < v@[b],
                forall|a: int| 0 <= a < v@.len() ==> v@[a] < i && self@.contains_key(#[trigger] v@[a]),
                forall|k: usize| k < i && #[trigger] self@.contains_key(k) ==> v@.contains(k),
            decreases self.slots@.len() - i,
        {
            let ghost old_v = v@;
            if self.slots[i].is_some() {
                v.push(i);
                assert(v@[v@.len() - 1] == i);
                assert forall|k: usize| k < i && self@.contains_key(k) implies v@.contains(k) by {
                    assert(old_v.contains(k));
                    let j = choose|j: int| 0 <= j < old_v.len() && old_v[j] == k;
                    assert(v@[j] == k);
                }
            }
            i = i + 1;
        }
        proof {
            self.lemma_indexes_len(v@);
        }
        v
    }

    proof fn lemma_indexes_len(&self, v: Seq<usize>)
        requires
            self.wf(),
            forall|a: int, b: int| 0 <= a < b < v.len() ==> v[a] < v[b],
            forall|a: int| 0 <= a < v.len() ==> self@.contains_key(#[trigger] v[a]),
            forall|i: usize| self@.contains_key(i) ==> v.contains(i),
        ensures
            v.len() == self@.len(),
    {
        assert(v.no_duplicates()) by {
            assert forall|a: int, b: int| 0 <= a < v.len() && 0 <= b < v.len() && a != b implies v[a]
                != v[b] by {
                if a < b {
                } else {
                }
            }
        }
        v.unique_seq_to_set();
        assert(v.to_set() =~= self@.dom());
    }

    /// Checks that the occupied slots are exactly `0..len` when the set is
    /// expected to be compact.
    pub fn validate(&self, compactness: ValidateCompact) -> (r: Result<(), ValidationError>)
        requires
            self.wf(),
        ensures
            r is Ok <==> (compactness == ValidateCompact::NonCompact || self.is_compact()),
    {
        match compactness {
            ValidateCompact::NonCompact => Ok(()),
            ValidateCompact::Compact => {
                let mut i: usize = 0;
                while i < self.slots.len()
                    invariant
                        self.wf(),
                        compactness == ValidateCompact::Compact,
                        i <= self.slots@.len(),
                        forall|k: usize| k < i ==> (self@.contains_key(k) <==> k < self.len),
                    decreases self.slots@.len() - i,
                {
                    let occupied = self.slots[i].is_some();
                    if occupied != (i < self.len) {
                        proof {
                            if occupied {
                                assert(self@.contains_key(i));
                                assert(!index_range(self.spec_len()).contains(i));
                            } else {
                                assert(!self@.contains_key(i));
                                assert(index_range(self.spec_len()).contains(i));
                            }
                        }
                        return Err(
                            ValidationError::general(String::from_str("item slots are not compact")),
                        );
                    }
                    i = i + 1;
                }
                proof {
                    assert forall|k: usize| #[trigger] self@.contains_key(k) implies k < self.len by {
                        assert(k < self.slots@.len());
                    }
                    assert forall|k: usize| k < self.len implies #[trigger] self@.contains_key(k) by {
                        assert(k < self.slots@.len());
                    }
                    assert(self@.dom() =~= index_range(self.spec_len()));
                }
                Ok(())
            }
        }
    }
}

/// Calls `Vec::capacity`, which documents that the vector holds at least its
/// length.
#[verifier::external_body]
pub(crate) fn vec_capacity<T>(v: &Vec<T>) -> (c: usize)
    ensures
        c >= v@.len(),
{
    v.capacity()
}

} // verus!
