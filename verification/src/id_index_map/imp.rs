//! A map that keeps its items in insertion order and finds them by key.

use crate::capacity::capacity_fits;
use crate::errors::DuplicateItem;
use crate::id_hash_map::IdHashItem;
use crate::internal::{ValidateCompact, ValidationError};
use crate::item_set::vec_capacity;
use crate::key_table::{default_hasher, table_contents, table_hasher, KeyTable};
use vstd::prelude::*;

verus! {

/// The keys of the items of `s` are pairwise distinct.
pub open spec fn distinct_keys<T: IdHashItem>(s: Seq<T>) -> bool {
    forall|a: int, b: int| 0 <= a < s.len() && 0 <= b < s.len() && a != b ==> s[a].key_of() != s[b].key_of()
}

/// The position of the item with key `k` in `s`, if any.
pub open spec fn position_of<T: IdHashItem>(s: Seq<T>, k: u64) -> Option<int> {
    if exists|i: int| 0 <= i < s.len() && s[i].key_of() == k {
        Some(choose|i: int| 0 <= i < s.len() && s[i].key_of() == k)
    } else {
        None
    }
}

/// The items after `v` is inserted: in place of the item with its key, or
/// at the end when there is none.
pub open spec fn index_overwrite<T: IdHashItem>(s: Seq<T>, v: T) -> Seq<T> {
    match position_of(s, v.key_of()) {
        Some(p) => s.update(p, v),
        None => s.push(v),
    }
}

/// The items after each item of `vs` is inserted in order, each in place of
/// the item with its key, or at the end.
pub open spec fn index_overwrite_all<T: IdHashItem>(s: Seq<T>, vs: Seq<T>) -> Seq<T>
    decreases vs.len(),
{
    if vs.len() == 0 {
        s
    } else {
        index_overwrite(index_overwrite_all(s, vs.drop_last()), vs.last())
    }
}

/// `perm` lists the positions `0..n`, each once.
pub open spec fn is_permutation(perm: Seq<int>, n: int) -> bool {
    &&& perm.len() == n
    &&& forall|x: int| 0 <= x < n ==> 0 <= #[trigger] perm[x] < n
    &&& forall|x: int, y: int|
        #![trigger perm[x], perm[y]]
        0 <= x < n && 0 <= y < n && x != y ==> perm[x] != perm[y]
}

/// Moving the item at old position `perm[x]` to position `x` orders the
/// items by `keys` (given by old position) without decreasing, and keeps the
/// old order among items with equal keys.
pub open spec fn sorts_stably(perm: Seq<int>, keys: Seq<u64>) -> bool {
    forall|a: int, b: int|
        #![trigger perm[a], perm[b]]
        0 <= a < b < perm.len() ==> keys[perm[a]] <= keys[perm[b]] && (keys[perm[a]]
            == keys[perm[b]] ==> perm[a] < perm[b])
}

/// A permutation of `0..n` reaches every position.
proof fn lemma_permutation_onto(perm: Seq<int>, n: int, y: int)
    requires
        is_permutation(perm, n),
        0 <= y < n,
    ensures
        exists|x: int| 0 <= x < n && perm[x] == y,
{
    if !(exists|x: int| 0 <= x < n && perm[x] == y) {
        let ps = perm.to_set();
        assert(perm.no_duplicates()) by {
            assert forall|a: int, b: int| 0 <= a < perm.len() && 0 <= b < perm.len() && a != b
                implies perm[a] != perm[b] by {}
        }
        perm.unique_seq_to_set();
        vstd::set_lib::lemma_int_range(0, n);
        assert(ps.subset_of(vstd::set_lib::set_int_range(0, n).remove(y))) by {
            assert forall|v: int| ps.contains(v) implies vstd::set_lib::set_int_range(
                0,
                n,
            ).remove(y).contains(v) by {
                let x = choose|x: int| 0 <= x < perm.len() && perm[x] == v;
            }
        }
        vstd::set_lib::lemma_len_subset(ps, vstd::set_lib::set_int_range(0, n).remove(y));
        assert(false);
    }
}

/// The table maps the key of every item of `s` to a position, and nothing
/// else; outside `lo..hi` the position is the item's own.
pub open spec fn table_positions<T: IdHashItem>(
    s: Seq<T>,
    table: Map<u64, usize>,
    lo: int,
    hi: int,
) -> bool {
    &&& distinct_keys(s)
    &&& table.dom().finite()
    &&& table.len() == s.len()
    &&& forall|k: u64|
        #[trigger] table.contains_key(k) <==> exists|i: int| 0 <= i < s.len() && s[i].key_of() == k
    &&& forall|i: int|
        0 <= i < s.len() && !(lo <= i < hi) ==> table[(#[trigger] s[i]).key_of()] == i
}

/// Pointing the key of the item at position `j` back to `j` extends the
/// correct part of the table by one position.
proof fn lemma_reindex_step<T: IdHashItem>(s: Seq<T>, t: Map<u64, usize>, j: int, hi: int)
    requires
        table_positions(s, t, j, hi),
        0 <= j < hi <= s.len(),
        j <= usize::MAX,
    ensures
        table_positions(s, t.insert(s[j].key_of(), j as usize), j + 1, hi),
{
    let key = s[j].key_of();
    let t2 = t.insert(key, j as usize);
    assert(t.contains_key(key));
    assert(t2.dom() =~= t.dom());
    assert forall|k: u64| #[trigger] t2.contains_key(k) <==> exists|i: int|
        0 <= i < s.len() && s[i].key_of() == k by {
        assert(t.contains_key(k) == t2.contains_key(k));
    }
    assert forall|i: int| 0 <= i < s.len() && !(j + 1 <= i < hi) implies t2[(
    #[trigger] s[i]).key_of()] == i by {
        if i != j {
            assert(s[i].key_of() != key);
        }
    }
}

/// Calls `<[T]>::swap`, which exchanges the elements at `a` and `b`.
#[verifier::external_body]
fn slice_swap<T>(v: &mut Vec<T>, a: usize, b: usize)
    requires
        a < old(v)@.len(),
        b < old(v)@.len(),
    ensures
        final(v)@ == old(v)@.update(a as int, old(v)@[b as int]).update(b as int, old(v)@[a as int]),
{
    v.swap(a, b)
}

/// Reverses the order of the elements by swapping them pairwise from both
/// ends.
fn slice_reverse<T>(v: &mut Vec<T>)
    ensures
        final(v)@ == old(v)@.reverse(),
{
    let ghost s = v@;
    let n = v.len();
    let mut i: usize = 0;
    while i < n / 2
        invariant
            n == s.len(),
            v@.len() == n,
            i <= n / 2,
            forall|j: int|
                (0 <= j < i || n - i <= j < n) ==> #[trigger] v@[j] == s[n - 1 - j],
            forall|j: int| i <= j < n - i ==> #[trigger] v@[j] == s[j],
        decreases n / 2 - i,
    {
        slice_swap(v, i, n - 1 - i);
        i = i + 1;
    }
    proof {
        assert forall|j: int| 0 <= j < n implies v@[j] == s.reverse()[j] by {
            if i <= j < n - i {
                assert(j == n - 1 - j);
            }
        }
        assert(v@ =~= s.reverse());
    }
}

/// A map that keeps its items in insertion order, where the key is part of
/// the value.
///
/// Items live in a vector in order; a hash table maps each key to the
/// position of the item with that key.
#[derive(Debug)]
pub struct IdIndexMap<T: IdHashItem> {
    items: Vec<T>,
    tables: KeyTable,
}

impl<T: IdHashItem> View for IdIndexMap<T> {
    type V = Seq<T>;

    /// The items, in order.
    closed spec fn view(&self) -> Seq<T> {
        self.items@
    }
}

impl<T: IdHashItem> IdIndexMap<T> {
    /// The internal invariant: the table maps each item's key to its
    /// position.
    pub closed spec fn wf(&self) -> bool {
        table_positions(self.items@, table_contents(self.tables), 0, 0)
    }

    /// The items, by key.
    pub open spec fn by_key(&self) -> Map<u64, T> {
        Map::new(
            |k: u64| position_of(self@, k) is Some,
            |k: u64| self@[position_of(self@, k)->0],
        )
    }

    proof fn lemma_position(&self, k: u64)
        requires
            self.wf(),
        ensures
            table_contents(self.tables).contains_key(k) <==> position_of(self@, k) is Some,
            table_contents(self.tables).contains_key(k) ==> position_of(self@, k) == Some(
                table_contents(self.tables)[k] as int,
            ) && table_contents(self.tables)[k] < self@.len() && self@[table_contents(
                self.tables,
            )[k] as int].key_of() == k,
    {
        let t = table_contents(self.tables);
        if t.contains_key(k) {
            let i = choose|i: int| 0 <= i < self@.len() && self@[i].key_of() == k;
            assert(t[self@[i].key_of()] == i);
            let p = position_of(self@, k)->0;
            assert(self@[p].key_of() == k);
        }
    }

    /// The hasher state the map hashes keys with.
    pub closed spec fn spec_hasher(&self) -> hashbrown::DefaultHashBuilder {
        table_hasher(self.tables)
    }

    /// Keys are unique: the item at position `i` is the one its key finds.
    pub proof fn lemma_position_of_index(&self, i: int)
        requires
            self.wf(),
            0 <= i < self@.len(),
        ensures
            position_of(self@, self@[i].key_of()) == Some(i),
    {
        let k = self@[i].key_of();
        self.lemma_position(k);
        assert(table_contents(self.tables)[self@[i].key_of()] == i);
    }

    /// Rewrites the table entries of the items at positions `lo..hi`.
    fn reindex(&mut self, lo: usize, hi: usize)
        requires
            lo <= hi <= old(self)@.len(),
            table_positions(old(self)@, table_contents(old(self).tables), lo as int, hi as int),
        ensures
            final(self).wf(),
            final(self)@ == old(self)@,
            final(self).spec_hasher() == old(self).spec_hasher(),
    {
        let mut j = lo;
        while j < hi
            invariant
                lo <= j <= hi <= self@.len(),
                self@ == old(self)@,
                self.spec_hasher() == old(self).spec_hasher(),
                table_positions(self@, table_contents(self.tables), j as int, hi as int),
            decreases hi - j,
        {
            let ghost t = table_contents(self.tables);
            let key = self.items[j].key();
            assert(t.contains_key(key));
            self.tables.insert(key, j);
            proof {
                lemma_reindex_step(self@, t, j as int, hi as int);
            }
            j = j + 1;
        }
    }

    fn from_parts(items: Vec<T>, tables: KeyTable) -> (m: Self)
        requires
            items@ == Seq::<T>::empty(),
            table_contents(tables) == Map::<u64, usize>::empty(),
        ensures
            m.wf(),
            m@ == Seq::<T>::empty(),
            m.spec_hasher() == table_hasher(tables),
    {
        let m = IdIndexMap { items, tables };
        proof {
            assert(table_contents(m.tables).dom() =~= Set::empty());
        }
        m
    }

    /// Creates a new, empty map.
    pub fn new() -> (m: Self)
        ensures
            m.wf(),
            m@ == Seq::<T>::empty(),
    {
        Self::from_parts(Vec::new(), KeyTable::with_capacity_and_hasher(0, default_hasher()))
    }

    /// Creates a new, empty map with room for `capacity` items.
    pub fn with_capacity(capacity: usize) -> (m: Self)
        requires
            capacity_fits::<T>(capacity),
        ensures
            m.wf(),
            m@ == Seq::<T>::empty(),
    {
        Self::from_parts(
            Vec::with_capacity(capacity),
            KeyTable::with_capacity_and_hasher(capacity, default_hasher()),
        )
    }

    /// Creates a new, empty map that hashes keys with `hasher`.
    pub fn with_hasher(hasher: hashbrown::DefaultHashBuilder) -> (m: Self)
        ensures
            m.wf(),
            m@ == Seq::<T>::empty(),
            m.spec_hasher() == hasher,
    {
        Self::from_parts(Vec::new(), KeyTable::with_capacity_and_hasher(0, hasher))
    }

    /// Creates a new, empty map with room for `capacity` items that hashes
    /// keys with `hasher`.
    pub fn with_capacity_and_hasher(capacity: usize, hasher: hashbrown::DefaultHashBuilder) -> (m:
        Self)
        requires
            capacity_fits::<T>(capacity),
        ensures
            m.wf(),
            m@ == Seq::<T>::empty(),
            m.spec_hasher() == hasher,
    {
        Self::from_parts(
            Vec::with_capacity(capacity),
            KeyTable::with_capacity_and_hasher(capacity, hasher),
        )
    }

    /// The state the map hashes keys with.
    pub fn hasher(&self) -> (r: &hashbrown::DefaultHashBuilder)
        ensures
            *r == self.spec_hasher(),
    {
        self.tables.hasher()
    }

    /// The number of items the map holds without reallocating.
    pub fn capacity(&self) -> (c: usize)
        ensures
            c >= self@.len(),
    {
        vec_capacity(&self.items)
    }

    /// Returns true if the map is empty.
    pub fn is_empty(&self) -> (b: bool)
        ensures
            b <==> self@.len() == 0,
    {
        self.items.len() == 0
    }

    /// Returns the number of items in the map.
    pub fn len(&self) -> (n: usize)
        ensures
            n == self@.len(),
    {
        self.items.len()
    }

    /// The items of the map, in order.
    pub fn iter(&self) -> (v: Vec<&T>)
        ensures
            v@.len() == self@.len(),
            forall|j: int| 0 <= j < v@.len() ==> *v@[j] == self@[j],
    {
        let mut v: Vec<&T> = Vec::new();
        let mut j: usize = 0;
        while j < self.items.len()
            invariant
                j <= self@.len(),
                v@.len() == j,
                forall|a: int| 0 <= a < j ==> *v@[a] == self@[a],
            decreases self@.len() - j,
        {
            v.push(&self.items[j]);
            j = j + 1;
        }
        v
    }

    /// Checks the map's invariants. Positions are always `0..len`, so the
    /// map is always compact, and validation always succeeds.
    pub fn validate(&self, compactness: ValidateCompact) -> (r: Result<(), ValidationError>)
        requires
            self.wf(),
        ensures
            r is Ok,
    {
        let mut j: usize = 0;
        while j < self.items.len()
            invariant
                self.wf(),
                j <= self@.len(),
            decreases self@.len() - j,
        {
            let key = self.items[j].key();
            proof {
                assert(table_contents(self.tables)[self@[j as int].key_of()] == j);
                self.lemma_position(key);
            }
            if self.tables.get(key) != Some(j) {
                return Err(
                    ValidationError::general(String::from_str("item has a mismatched key index")),
                );
            }
            j = j + 1;
        }
        Ok(())
    }

    /// The position of the item with key `key`, if any.
    pub fn get_index_of(&self, key: u64) -> (r: Option<usize>)
        requires
            self.wf(),
        ensures
            r matches Some(i) ==> position_of(self@, key) == Some(i as int),
            r is None ==> position_of(self@, key) is None,
    {
        proof {
            self.lemma_position(key);
        }
        self.tables.get(key)
    }

    /// Returns true if the map contains the given key.
    pub fn contains_key(&self, key: u64) -> (b: bool)
        requires
            self.wf(),
        ensures
            b == self.by_key().contains_key(key),
    {
        self.get_index_of(key).is_some()
    }

    /// Gets a reference to the item with the given key.
    pub fn get(&self, key: u64) -> (r: Option<&T>)
        requires
            self.wf(),
        ensures
            r == (if self.by_key().contains_key(key) {
                Some(&self.by_key()[key])
            } else {
                None::<&T>
            }),
    {
        match self.get_index_of(key) {
            Some(i) => Some(&self.items[i]),
            None => None,
        }
    }

    /// Gets the item at the given position.
    pub fn get_index(&self, index: usize) -> (r: Option<&T>)
        ensures
            r == (if index < self@.len() {
                Some(&self@[index as int])
            } else {
                None::<&T>
            }),
    {
        if index < self.items.len() {
            Some(&self.items[index])
        } else {
            None
        }
    }

    /// Appends `value`, whose key is not in the map.
    fn push_new(&mut self, value: T) -> (ix: usize)
        requires
            old(self).wf(),
            position_of(old(self)@, value.key_of()) is None,
        ensures
            final(self).wf(),
            final(self).spec_hasher() == old(self).spec_hasher(),
            final(self)@ == old(self)@.push(value),
            ix == old(self)@.len(),
    {
        proof {
            self.lemma_position(value.key_of());
        }
        let key = value.key();
        let ghost t = table_contents(self.tables);
        let ix = self.items.len();
        self.items.push(value);
        self.tables.insert(key, ix);
        proof {
            let s = self@;
            let t2 = table_contents(self.tables);
            assert forall|a: int, b: int|
                0 <= a < s.len() && 0 <= b < s.len() && a != b implies s[a].key_of() != s[b].key_of() by {
                if a == ix as int {
                    assert(!(exists|i: int| 0 <= i < old(self)@.len() && old(self)@[i].key_of() == key));
                    assert(s[b] == old(self)@[b]);
                } else if b == ix as int {
                    assert(!(exists|i: int| 0 <= i < old(self)@.len() && old(self)@[i].key_of() == key));
                    assert(s[a] == old(self)@[a]);
                }
            }
            assert forall|k: u64| #[trigger] t2.contains_key(k) <==> exists|i: int|
                0 <= i < s.len() && s[i].key_of() == k by {
                if k == key {
                    assert(s[ix as int].key_of() == k);
                } else if t.contains_key(k) {
                    let i = choose|i: int| 0 <= i < old(self)@.len() && old(self)@[i].key_of() == k;
                    assert(s[i].key_of() == k);
                } else {
                    if exists|i: int| 0 <= i < s.len() && s[i].key_of() == k {
                        let i = choose|i: int| 0 <= i < s.len() && s[i].key_of() == k;
                        assert(i != ix as int);
                        assert(old(self)@[i].key_of() == k);
                    }
                }
            }
            assert forall|i: int| 0 <= i < s.len() implies t2[(#[trigger] s[i]).key_of()] == i by {
                if i != ix as int {
                    assert(s[i] == old(self)@[i]);
                }
            }
        }
        ix
    }

    /// Appends `value` unless an item with its key is present, returning the
    /// position it went to or the conflicting item.
    pub fn insert_unique_impl(&mut self, value: T) -> (r: Result<usize, DuplicateItem<T, &T>>)
        requires
            old(self).wf(),
        ensures
            final(self).wf(),
            final(self).spec_hasher() == old(self).spec_hasher(),
            match r {
                Ok(ix) => {
                    &&& position_of(old(self)@, value.key_of()) is None
                    &&& final(self)@ == old(self)@.push(value)
                    &&& ix == old(self)@.len()
                },
                Err(dup) => {
                    &&& position_of(old(self)@, value.key_of()) is Some
                    &&& *final(self) == *old(self)
                    &&& dup.spec_new_item() == value
                    &&& dup.spec_duplicates().len() == 1
                    &&& *dup.spec_duplicates()[0] == old(self)@[position_of(
                        old(self)@,
                        value.key_of(),
                    )->0]
                },
            },
    {
        match self.get_index_of(value.key()) {
            Some(i) => {
                let existing = &self.items[i];
                Err(DuplicateItem::__internal_new(value, vec![existing]))
            },
            None => Ok(self.push_new(value)),
        }
    }

    /// Appends a value, returning an error if an item with the same key is
    /// already present.
    pub fn insert_unique(&mut self, value: T) -> (r: Result<(), DuplicateItem<T, &T>>)
        requires
            old(self).wf(),
        ensures
            final(self).wf(),
            final(self).spec_hasher() == old(self).spec_hasher(),
            r is Ok <==> position_of(old(self)@, value.key_of()) is None,
            r is Ok ==> final(self)@ == old(self)@.push(value),
            r is Err ==> *final(self) == *old(self),
            r matches Err(dup) ==> dup.spec_new_item() == value && dup.spec_duplicates().len() == 1
                && *dup.spec_duplicates()[0] == old(self)@[position_of(
                old(self)@,
                value.key_of(),
            )->0],
    {
        match self.insert_unique_impl(value) {
            Ok(_) => Ok(()),
            Err(dup) => Err(dup),
        }
    }

    /// Inserts a value: it takes the place of the item with the same key, if
    /// any, which is returned; otherwise it goes at the end.
    pub fn insert_overwrite(&mut self, value: T) -> (r: Option<T>)
        requires
            old(self).wf(),
        ensures
            final(self).wf(),
            final(self).spec_hasher() == old(self).spec_hasher(),
            match position_of(old(self)@, value.key_of()) {
                Some(p) => final(self)@ == old(self)@.update(p, value) && r == Some(old(self)@[p]),
                None => final(self)@ == old(self)@.push(value) && r is None,
            },
    {
        match self.get_index_of(value.key()) {
            None => {
                self.push_new(value);
                None
            },
            Some(i) => {
                let ghost old_items = self@;
                let ghost v = value;
                let removed = self.items.remove(i);
                self.items.insert(i, value);
                proof {
                    assert(self@ =~= old_items.update(i as int, v));
                    let s = self@;
                    let t = table_contents(self.tables);
                    assert(old_items[i as int].key_of() == v.key_of());
                    assert forall|a: int, b: int|
                        0 <= a < s.len() && 0 <= b < s.len() && a != b implies s[a].key_of()
                        != s[b].key_of() by {
                        assert(old_items[a].key_of() != old_items[b].key_of());
                    }
                    assert forall|k: u64| #[trigger] t.contains_key(k) <==> exists|j: int|
                        0 <= j < s.len() && s[j].key_of() == k by {
                        if exists|j: int| 0 <= j < s.len() && s[j].key_of() == k {
                            let j = choose|j: int| 0 <= j < s.len() && s[j].key_of() == k;
                            assert(old_items[j].key_of() == k);
                        }
                        if t.contains_key(k) {
                            let j = choose|j: int|
                                0 <= j < old_items.len() && old_items[j].key_of() == k;
                            assert(s[j].key_of() == k);
                        }
                    }
                    assert forall|j: int| 0 <= j < s.len() implies t[(#[trigger] s[j]).key_of()]
                        == j by {
                        assert(s[j].key_of() == old_items[j].key_of());
                    }
                }
                Some(removed)
            },
        }
    }

    /// Removes and returns the item at position `index`, moving the items
    /// after it one position down.
    pub fn shift_remove_index(&mut self, index: usize) -> (r: Option<T>)
        requires
            old(self).wf(),
        ensures
            final(self).wf(),
            final(self).spec_hasher() == old(self).spec_hasher(),
            index < old(self)@.len() ==> r == Some(old(self)@[index as int]) && final(self)@ == old(
                self,
            )@.remove(index as int),
            index >= old(self)@.len() ==> r is None && final(self)@ == old(self)@,
    {
        if index >= self.items.len() {
            return None;
        }
        let ghost old_items = self@;
        let key = self.items[index].key();
        let ghost t = table_contents(self.tables);
        self.tables.remove(key);
        let removed = self.items.remove(index);
        proof {
            let s = self@;
            let t2 = table_contents(self.tables);
            assert(t.contains_key(key));
            assert(t.remove(key).len() == t.len() - 1);
            assert forall|a: int, b: int|
                0 <= a < s.len() && 0 <= b < s.len() && a != b implies s[a].key_of() != s[b].key_of() by {
                let oa = if a < index { a } else { a + 1 };
                let ob = if b < index { b } else { b + 1 };
                assert(s[a] == old_items[oa]);
                assert(s[b] == old_items[ob]);
            }
            assert forall|k: u64| #[trigger] t2.contains_key(k) <==> exists|j: int|
                0 <= j < s.len() && s[j].key_of() == k by {
                if t2.contains_key(k) {
                    let j = choose|j: int| 0 <= j < old_items.len() && old_items[j].key_of() == k;
                    assert(j != index as int);
                    let nj = if j < index { j } else { j - 1 };
                    assert(s[nj] == old_items[j]);
                }
                if exists|j: int| 0 <= j < s.len() && s[j].key_of() == k {
                    let j = choose|j: int| 0 <= j < s.len() && s[j].key_of() == k;
                    let oj = if j < index { j } else { j + 1 };
                    assert(s[j] == old_items[oj]);
                    assert(oj != index as int);
                    assert(old_items[oj].key_of() != old_items[index as int].key_of());
                }
            }
            assert forall|j: int|
                0 <= j < s.len() && !(index <= j < s.len()) implies t2[(
                #[trigger] s[j]).key_of()] == j by {
                assert(s[j] == old_items[j]);
                assert(old_items[j].key_of() != key);
            }
        }
        let len = self.items.len();
        self.reindex(index, len);
        Some(removed)
    }

    /// Removes and returns the item at position `index`, moving the last
    /// item into its place.
    pub fn swap_remove_index(&mut self, index: usize) -> (r: Option<T>)
        requires
            old(self).wf(),
        ensures
            final(self).wf(),
            final(self).spec_hasher() == old(self).spec_hasher(),
            index < old(self)@.len() ==> r == Some(old(self)@[index as int]) && final(self)@ == old(
                self,
            )@.update(index as int, old(self)@.last()).drop_last(),
            index >= old(self)@.len() ==> r is None && final(self)@ == old(self)@,
    {
        if index >= self.items.len() {
            return None;
        }
        let ghost old_items = self@;
        let last = (self.items.len() - 1) as usize;
        let key = self.items[index].key();
        let ghost t = table_contents(self.tables);
        self.tables.remove(key);
        let removed = self.items.swap_remove(index);
        let hi = if index < last {
            index + 1
        } else {
            index
        };
        proof {
            let s = self@;
            let t2 = table_contents(self.tables);
            assert(t.contains_key(key));
            assert(t.remove(key).len() == t.len() - 1);
            assert forall|a: int, b: int|
                0 <= a < s.len() && 0 <= b < s.len() && a != b implies s[a].key_of() != s[b].key_of() by {
                let oa = if a == index { last as int } else { a };
                let ob = if b == index { last as int } else { b };
                assert(s[a] == old_items[oa]);
                assert(s[b] == old_items[ob]);
            }
            assert forall|k: u64| #[trigger] t2.contains_key(k) <==> exists|j: int|
                0 <= j < s.len() && s[j].key_of() == k by {
                if t2.contains_key(k) {
                    let j = choose|j: int| 0 <= j < old_items.len() && old_items[j].key_of() == k;
                    assert(j != index as int);
                    let nj = if j == last { index as int } else { j };
                    assert(s[nj] == old_items[j]);
                }
                if exists|j: int| 0 <= j < s.len() && s[j].key_of() == k {
                    let j = choose|j: int| 0 <= j < s.len() && s[j].key_of() == k;
                    let oj = if j == index { last as int } else { j };
                    assert(s[j] == old_items[oj]);
                    assert(oj != index as int);
                    assert(old_items[oj].key_of() != old_items[index as int].key_of());
                }
            }
            assert forall|j: int|
                0 <= j < s.len() && !(index <= j < hi) implies t2[(#[trigger] s[j]).key_of()]
                == j by {
                assert(s[j] == old_items[j]);
                assert(old_items[j].key_of() != key);
            }
        }
        self.reindex(index, hi);
        Some(removed)
    }

    /// Moves the item at position `from` to position `to`, shifting the
    /// items in between by one.
    pub fn move_index(&mut self, from: usize, to: usize)
        requires
            old(self).wf(),
            from < old(self)@.len(),
            to < old(self)@.len(),
        ensures
            final(self).wf(),
            final(self).spec_hasher() == old(self).spec_hasher(),
            final(self)@ == old(self)@.remove(from as int).insert(to as int, old(self)@[from as int]),
    {
        let ghost old_items = self@;
        let item = self.items.remove(from);
        self.items.insert(to, item);
        let n = self.items.len();
        assert(to < n && from < n);
        let lo = if from < to {
            from
        } else {
            to
        };
        let hi = if from < to {
            to + 1
        } else {
            from + 1
        };
        proof {
            let s = self@;
            let t = table_contents(self.tables);
            // Each new position holds the item of one old position.
            let src = |j: int|
                if j == to as int {
                    from as int
                } else if from < to && from <= j < to {
                    j + 1
                } else if to < from && to < j <= from {
                    j - 1
                } else {
                    j
                };
            assert forall|j: int| 0 <= j < s.len() implies s[j] == old_items[src(j)] && 0 <= src(j)
                < old_items.len() by {}
            assert forall|a: int, b: int|
                0 <= a < s.len() && 0 <= b < s.len() && a != b implies s[a].key_of() != s[b].key_of() by {
                assert(s[a] == old_items[src(a)]);
                assert(s[b] == old_items[src(b)]);
            }
            assert forall|k: u64| #[trigger] t.contains_key(k) <==> exists|j: int|
                0 <= j < s.len() && s[j].key_of() == k by {
                if t.contains_key(k) {
                    let i = choose|i: int| 0 <= i < old_items.len() && old_items[i].key_of() == k;
                    let j = if i == from as int {
                        to as int
                    } else if from < to && from < i <= to {
                        i - 1
                    } else if to < from && to <= i < from {
                        i + 1
                    } else {
                        i
                    };
                    assert(src(j) == i);
                    assert(s[j] == old_items[i]);
                }
                if exists|j: int| 0 <= j < s.len() && s[j].key_of() == k {
                    let j = choose|j: int| 0 <= j < s.len() && s[j].key_of() == k;
                    assert(s[j] == old_items[src(j)]);
                }
            }
            assert forall|j: int| 0 <= j < s.len() && !(lo <= j < hi) implies t[(
            #[trigger] s[j]).key_of()] == j by {
                assert(src(j) == j);
                assert(s[j] == old_items[j]);
            }
        }
        self.reindex(lo, hi);
    }

    /// Exchanges the items at positions `a` and `b`.
    pub fn swap_indices(&mut self, a: usize, b: usize)
        requires
            old(self).wf(),
            a < old(self)@.len(),
            b < old(self)@.len(),
        ensures
            final(self).wf(),
            final(self).spec_hasher() == old(self).spec_hasher(),
            final(self)@ == old(self)@.update(a as int, old(self)@[b as int]).update(
                b as int,
                old(self)@[a as int],
            ),
    {
        let ghost old_items = self@;
        slice_swap(&mut self.items, a, b);
        let n = self.items.len();
        assert(a < n && b < n);
        let lo = if a < b {
            a
        } else {
            b
        };
        let hi = if a < b {
            b + 1
        } else {
            a + 1
        };
        proof {
            let s = self@;
            let t = table_contents(self.tables);
            let src = |j: int|
                if j == a as int {
                    b as int
                } else if j == b as int {
                    a as int
                } else {
                    j
                };
            assert forall|j: int| 0 <= j < s.len() implies s[j] == old_items[src(j)] by {}
            assert forall|x: int, y: int|
                0 <= x < s.len() && 0 <= y < s.len() && x != y implies s[x].key_of() != s[y].key_of() by {
                assert(s[x] == old_items[src(x)]);
                assert(s[y] == old_items[src(y)]);
            }
            assert forall|k: u64| #[trigger] t.contains_key(k) <==> exists|j: int|
                0 <= j < s.len() && s[j].key_of() == k by {
                if t.contains_key(k) {
                    let i = choose|i: int| 0 <= i < old_items.len() && old_items[i].key_of() == k;
                    assert(s[src(i)] == old_items[i]);
                }
                if exists|j: int| 0 <= j < s.len() && s[j].key_of() == k {
                    let j = choose|j: int| 0 <= j < s.len() && s[j].key_of() == k;
                    assert(s[j] == old_items[src(j)]);
                }
            }
            assert forall|j: int| 0 <= j < s.len() && !(lo <= j < hi) implies t[(
            #[trigger] s[j]).key_of()] == j by {
                assert(s[j] == old_items[j]);
            }
        }
        self.reindex(lo, hi);
    }

    /// Sorts the items by the key that `f` gives each, keeping the order of
    /// items with equal keys.
    pub fn sort_by_key<F: Fn(&T) -> u64>(&mut self, f: F)
        requires
            old(self).wf(),
            forall|t: &T| #[trigger] f.requires((t,)),
        ensures
            final(self).wf(),
            final(self).spec_hasher() == old(self).spec_hasher(),
            final(self)@.len() == old(self)@.len(),
            exists|perm: Seq<int>, keys: Seq<u64>|
                {
                    &&& is_permutation(perm, old(self)@.len() as int)
                    &&& keys.len() == old(self)@.len()
                    &&& forall|x: int|
                        0 <= x < keys.len() ==> f.ensures((&old(self)@[x],), #[trigger] keys[x])
                    &&& sorts_stably(perm, keys)
                    &&& forall|x: int|
                        0 <= x < perm.len() ==> final(self)@[x] == old(self)@[#[trigger] perm[x]]
                },
    {
        let ghost s0 = self@;
        let ghost t0 = table_contents(self.tables);
        let n = self.items.len();
        let mut ks: Vec<u64> = Vec::new();
        let mut i: usize = 0;
        while i < n
            invariant
                n == self.items@.len(),
                self.items@ == s0,
                i <= n,
                ks@.len() == i,
                forall|t: &T| #[trigger] f.requires((t,)),
                forall|x: int| 0 <= x < i ==> f.ensures((&s0[x],), #[trigger] ks@[x]),
            decreases n - i,
        {
            let k = f(&self.items[i]);
            ks.push(k);
            i = i + 1;
        }
        let ghost okeys = ks@;
        let ghost mut perm: Seq<int> = Seq::new(n as nat, |x: int| x);
        let mut i: usize = 0;
        while i < n
            invariant
                n == self.items@.len(),
                n == ks@.len(),
                i <= n,
                okeys.len() == n,
                table_contents(self.tables) == t0,
                self.spec_hasher() == old(self).spec_hasher(),
                is_permutation(perm, n as int),
                forall|x: int|
                    0 <= x < n ==> self.items@[x] == s0[#[trigger] perm[x]] && ks@[x]
                        == okeys[perm[x]],
                forall|x: int| i <= x < n ==> #[trigger] perm[x] == x,
                forall|a: int, b: int|
                    #![trigger ks@[a], ks@[b]]
                    0 <= a < b < i ==> ks@[a] <= ks@[b] && (ks@[a] == ks@[b] ==> perm[a] < perm[b]),
            decreases n - i,
        {
            proof {
                assert forall|x: int| 0 <= x <= i implies #[trigger] perm[x] <= i by {
                    if x < i && perm[x] > i {
                        assert(perm[perm[x]] == perm[x]);
                    }
                }
            }
            let mut j: usize = i;
            while j > 0 && ks[j - 1] > ks[j]
                invariant
                    n == self.items@.len(),
                    n == ks@.len(),
                    j <= i < n,
                    okeys.len() == n,
                    table_contents(self.tables) == t0,
                    self.spec_hasher() == old(self).spec_hasher(),
                    is_permutation(perm, n as int),
                    forall|x: int|
                        0 <= x < n ==> self.items@[x] == s0[#[trigger] perm[x]] && ks@[x]
                            == okeys[perm[x]],
                    forall|x: int| i < x < n ==> #[trigger] perm[x] == x,
                    perm[j as int] == i,
                    forall|x: int| 0 <= x <= i ==> #[trigger] perm[x] <= i,
                    forall|a: int, b: int|
                        #![trigger ks@[a], ks@[b]]
                        0 <= a < b <= i && a != j && b != j ==> ks@[a] <= ks@[b] && (ks@[a]
                            == ks@[b] ==> perm[a] < perm[b]),
                    forall|b: int| j < b <= i ==> ks@[j as int] < #[trigger] ks@[b],
                decreases j,
            {
                let ghost p0 = perm;
                let ghost k0 = ks@;
                slice_swap(&mut self.items, j - 1, j);
                slice_swap(&mut ks, j - 1, j);
                proof {
                    perm = p0.update(j - 1, p0[j as int]).update(j as int, p0[j - 1]);
                    assert forall|x: int, y: int|
                        0 <= x < n && 0 <= y < n && x != y implies perm[x] != perm[y] by {
                        let px = if x == j - 1 { j as int } else if x == j { j - 1 } else { x };
                        let py = if y == j - 1 { j as int } else if y == j { j - 1 } else { y };
                        assert(perm[x] == p0[px]);
                        assert(perm[y] == p0[py]);
                    }
                    assert forall|x: int| 0 <= x < n implies 0 <= #[trigger] perm[x] < n by {
                        let px = if x == j - 1 { j as int } else if x == j { j - 1 } else { x };
                        assert(perm[x] == p0[px]);
                    }
                    assert forall|a: int, b: int|
                        0 <= a < b <= i && a != j - 1 && b != j - 1 implies ks@[a] <= ks@[b]
                        && (ks@[a] == ks@[b] ==> perm[a] < perm[b]) by {
                        let pa = if a == j { j - 1 } else { a };
                        let pb = if b == j { j - 1 } else { b };
                        assert(ks@[a] == k0[pa] && perm[a] == p0[pa]);
                        assert(ks@[b] == k0[pb] && perm[b] == p0[pb]);
                        assert(pa < pb);
                        assert(pa != j && pb != j);
                    }
                    assert forall|b: int| j - 1 < b <= i implies ks@[j - 1] < #[trigger] ks@[b] by {
                        if b == j {
                            assert(ks@[b] == k0[j - 1]);
                        } else {
                            assert(ks@[b] == k0[b]);
                        }
                    }
                }
                j = j - 1;
            }
            proof {
                assert forall|a: int, b: int|
                    0 <= a < b < i + 1 implies ks@[a] <= ks@[b] && (ks@[a] == ks@[b] ==> perm[a]
                    < perm[b]) by {
                    if a == j {
                        assert(ks@[a] < ks@[b]);
                    } else if b == j {
                        if a < j - 1 {
                            assert(ks@[a] <= ks@[j - 1]);
                        }
                        assert(perm[a] <= i);
                        assert(perm[a] != perm[b]);
                    }
                }
            }
            i = i + 1;
        }
        proof {
            let s1 = self.items@;
            assert forall|x: int, y: int|
                0 <= x < n && 0 <= y < n && x != y implies s1[x].key_of() != s1[y].key_of() by {
                assert(s1[x] == s0[perm[x]]);
                assert(s1[y] == s0[perm[y]]);
                assert(perm[x] != perm[y]);
            }
            assert forall|k: u64| #[trigger] t0.contains_key(k) <==> exists|x: int|
                0 <= x < n && s1[x].key_of() == k by {
                if t0.contains_key(k) {
                    let y = choose|y: int| 0 <= y < s0.len() && s0[y].key_of() == k;
                    assert(exists|x: int| 0 <= x < n && perm[x] == y) by {
                        lemma_permutation_onto(perm, n as int, y);
                    }
                    let x = choose|x: int| 0 <= x < n && perm[x] == y;
                    assert(s1[x] == s0[y]);
                }
                if exists|x: int| 0 <= x < n && s1[x].key_of() == k {
                    let x = choose|x: int| 0 <= x < n && s1[x].key_of() == k;
                    assert(s1[x] == s0[perm[x]]);
                }
            }
            assert(sorts_stably(perm, okeys)) by {
                assert forall|a: int, b: int| 0 <= a < b < perm.len() implies okeys[perm[a]]
                    <= okeys[perm[b]] && (okeys[perm[a]] == okeys[perm[b]] ==> perm[a] < perm[b]) by {
                    assert(ks@[a] == okeys[perm[a]]);
                    assert(ks@[b] == okeys[perm[b]]);
                }
            }
            assert forall|x: int| 0 <= x < okeys.len() implies f.ensures((&s0[x],), #[trigger] okeys[x]) by {}
        }
        self.reindex(0, n);
    }

    /// Reverses the order of the items.
    pub fn reverse(&mut self)
        requires
            old(self).wf(),
        ensures
            final(self).wf(),
            final(self).spec_hasher() == old(self).spec_hasher(),
            final(self)@ == old(self)@.reverse(),
    {
        let ghost old_items = self@;
        slice_reverse(&mut self.items);
        proof {
            let s = self@;
            let n = s.len();
            let t = table_contents(self.tables);
            assert forall|j: int| 0 <= j < n implies s[j] == old_items[n - 1 - j] by {}
            assert forall|x: int, y: int|
                0 <= x < n && 0 <= y < n && x != y implies s[x].key_of() != s[y].key_of() by {
                assert(s[x] == old_items[n - 1 - x]);
                assert(s[y] == old_items[n - 1 - y]);
            }
            assert forall|k: u64| #[trigger] t.contains_key(k) <==> exists|j: int|
                0 <= j < n && s[j].key_of() == k by {
                if t.contains_key(k) {
                    let i = choose|i: int| 0 <= i < old_items.len() && old_items[i].key_of() == k;
                    assert(s[n - 1 - i] == old_items[i]);
                }
                if exists|j: int| 0 <= j < n && s[j].key_of() == k {
                    let j = choose|j: int| 0 <= j < n && s[j].key_of() == k;
                    assert(s[j] == old_items[n - 1 - j]);
                }
            }
        }
        let len = self.items.len();
        self.reindex(0, len);
    }
}

impl<T: IdHashItem> IdIndexMap<T> {
    /// Inserts every item of `values` in order, each in place of the item
    /// with its key, or at the end.
    pub fn extend(&mut self, values: Vec<T>)
        requires
            old(self).wf(),
        ensures
            final(self).wf(),
            final(self)@ == index_overwrite_all(old(self)@, values@),
            final(self).spec_hasher() == old(self).spec_hasher(),
            forall|i: int|
                #![trigger values@[i]]
                0 <= i < values@.len() && (forall|j: int|
                    i < j < values@.len() ==> values@[j].key_of() != values@[i].key_of())
                    ==> final(self)@.contains(values@[i]),
            forall|p: int|
                #![trigger old(self)@[p]]
                0 <= p < old(self)@.len() && (forall|j: int|
                    0 <= j < values@.len() ==> values@[j].key_of() != old(self)@[p].key_of())
                    ==> p < final(self)@.len() && final(self)@[p] == old(self)@[p],
    {
        let ghost s = values@;
        let ghost start = self@;
        for v in it: values
            invariant
                self.wf(),
                it.seq() == s,
                self@ == index_overwrite_all(start, s.take(it.index@ as int)),
                self.spec_hasher() == old(self).spec_hasher(),
        {
            proof {
                assert(s.take(it.index@ as int + 1).drop_last() =~= s.take(it.index@ as int));
            }
            self.insert_overwrite(v);
        }
        proof {
            assert(s.take(s.len() as int) =~= s);
            crate::laws::law_index_extend_last_wins(start, s);
        }
    }

    /// Builds a map from `values`, a later item taking the place of an
    /// earlier one with the same key.
    pub fn from_vec(values: Vec<T>) -> (m: Self)
        ensures
            m.wf(),
            m@ == index_overwrite_all(Seq::empty(), values@),
            forall|i: int|
                #![trigger values@[i]]
                0 <= i < values@.len() && (forall|j: int|
                    i < j < values@.len() ==> values@[j].key_of() != values@[i].key_of())
                    ==> m@.contains(values@[i]),
    {
        let mut m = Self::new();
        m.extend(values);
        m
    }
}

impl<T: IdHashItem> Default for IdIndexMap<T> {
    /// An empty map.
    fn default() -> (m: Self)
        ensures
            m.wf(),
            m@ == Seq::<T>::empty(),
    {
        Self::new()
    }
}

} // verus!
