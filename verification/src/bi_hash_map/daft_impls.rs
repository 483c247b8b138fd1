//! The difference between two [`BiHashMap`]s.

use super::imp::{BiHashItem, BiHashMap};
use crate::daft_utils::IdLeaf;
use vstd::prelude::*;
use vstd::std_specs::cmp::PartialEqSpec;

verus! {

/// Both maps hold an item with the first key `k1` and the same second key.
pub open spec fn in_both<T: BiHashItem>(a: Map<u64, T>, b: Map<u64, T>, k1: u64) -> bool {
    a.contains_key(k1) && b.contains_key(k1) && a[k1].key2_of() == b[k1].key2_of()
}

/// The difference between two maps: the items whose two keys both maps
/// hold, and the items only one of them holds.
pub struct Diff<'daft, T: BiHashItem> {
    /// Items that both maps hold under the same two keys, before and after.
    pub common: BiHashMap<IdLeaf<&'daft T>>,
    /// Items of the second map that the first does not hold under the same
    /// two keys.
    pub added: BiHashMap<&'daft T>,
    /// Items of the first map that the second does not hold under the same
    /// two keys.
    pub removed: BiHashMap<&'daft T>,
}

impl<'daft, T: BiHashItem> Diff<'daft, T> {
    /// All three parts are well formed.
    pub open spec fn wf(&self) -> bool {
        &&& self.common.wf()
        &&& self.added.wf()
        &&& self.removed.wf()
    }

    /// An empty difference.
    pub fn new() -> (d: Self)
        ensures
            d.wf(),
            d.common@ == Map::<u64, IdLeaf<&'daft T>>::empty(),
            d.added@ == Map::<u64, &'daft T>::empty(),
            d.removed@ == Map::<u64, &'daft T>::empty(),
            d.common.by_key2() == Map::<u64, IdLeaf<&'daft T>>::empty(),
            d.added.by_key2() == Map::<u64, &'daft T>::empty(),
            d.removed.by_key2() == Map::<u64, &'daft T>::empty(),
    {
        Diff { common: BiHashMap::new(), added: BiHashMap::new(), removed: BiHashMap::new() }
    }
}

/// Inserting an item neither of whose keys a map holds is a plain insertion.
proof fn lemma_fresh_overwrite<U: BiHashItem>(by_key1: Map<u64, U>, by_key2: Map<u64, U>, v: U)
    requires
        !by_key1.contains_key(v.key1_of()),
        !by_key2.contains_key(v.key2_of()),
    ensures
        crate::bi_hash_map::overwrite_by_key1(by_key1, by_key2, v) == by_key1.insert(v.key1_of(), v),
        crate::bi_hash_map::overwrite_by_key2(by_key1, by_key2, v) == by_key2.insert(v.key2_of(), v),
{
    assert(by_key1.remove(v.key1_of()) =~= by_key1);
    assert(by_key2.remove(v.key2_of()) =~= by_key2);
}

impl<T: BiHashItem> BiHashMap<T> {
    /// The difference from this map to `other`: items that both hold under
    /// the same two keys go to `common`, the others of this map to
    /// `removed`, the others of `other` to `added`.
    pub fn diff<'daft>(&'daft self, other: &'daft Self) -> (d: Diff<'daft, T>)
        requires
            self.wf(),
            other.wf(),
        ensures
            d.wf(),
            forall|k: u64| #[trigger] d.common@.contains_key(k) <==> in_both(self@, other@, k),
            forall|k: u64| #[trigger]
                d.common@.contains_key(k) ==> d.common@[k].spec_before() == self@[k]
                    && d.common@[k].spec_after() == other@[k],
            forall|k: u64| #[trigger]
                d.removed@.contains_key(k) <==> self@.contains_key(k) && !in_both(self@, other@, k),
            forall|k: u64| #[trigger] d.removed@.contains_key(k) ==> *d.removed@[k] == self@[k],
            forall|k: u64| #[trigger]
                d.added@.contains_key(k) <==> other@.contains_key(k) && !in_both(self@, other@, k),
            forall|k: u64| #[trigger] d.added@.contains_key(k) ==> *d.added@[k] == other@[k],
    {
        proof {
            self.lemma_keys_agree();
            other.lemma_keys_agree();
        }
        let mut diff: Diff<'daft, T> = Diff::new();
        let before = self.iter();
        let mut j: usize = 0;
        while j < before.len()
            invariant
                self.wf(),
                other.wf(),
                diff.wf(),
                j <= before@.len(),
                diff.added@ == Map::<u64, &'daft T>::empty(),
                diff.added.by_key2() == Map::<u64, &'daft T>::empty(),
                forall|a: int|
                    0 <= a < before@.len() ==> self@.contains_key(#[trigger] before@[a].key1_of())
                        && self@[before@[a].key1_of()] == *before@[a],
                forall|k: u64| #[trigger]
                    self@.contains_key(k) ==> exists|a: int|
                        0 <= a < before@.len() && before@[a].key1_of() == k,
                forall|a: int, b: int|
                    0 <= a < before@.len() && 0 <= b < before@.len() && a != b
                        ==> before@[a].key1_of() != before@[b].key1_of() && before@[a].key2_of()
                        != before@[b].key2_of(),
                forall|k: u64| #[trigger]
                    diff.common@.contains_key(k) <==> (exists|a: int|
                        0 <= a < j && before@[a].key1_of() == k) && in_both(self@, other@, k),
                forall|k: u64| #[trigger]
                    diff.common@.contains_key(k) ==> diff.common@[k].spec_before() == self@[k]
                        && diff.common@[k].spec_after() == other@[k],
                forall|k: u64| #[trigger]
                    diff.common.by_key2().contains_key(k) ==> exists|a: int|
                        0 <= a < j && before@[a].key2_of() == k,
                forall|k: u64| #[trigger]
                    diff.removed@.contains_key(k) <==> (exists|a: int|
                        0 <= a < j && before@[a].key1_of() == k) && !in_both(self@, other@, k),
                forall|k: u64| #[trigger]
                    diff.removed@.contains_key(k) ==> *diff.removed@[k] == self@[k],
                forall|k: u64| #[trigger]
                    diff.removed.by_key2().contains_key(k) ==> exists|a: int|
                        0 <= a < j && before@[a].key2_of() == k,
            decreases before@.len() - j,
        {
            proof {
                diff.common.lemma_keys_agree();
                diff.removed.lemma_keys_agree();
            }
            let item: &'daft T = before[j];
            let key1 = item.key1();
            let key2 = item.key2();
            let ghost old_common = diff.common@;
            let ghost old_common2 = diff.common.by_key2();
            let ghost old_removed = diff.removed@;
            let ghost old_removed2 = diff.removed.by_key2();
            proof {
                if old_common.contains_key(key1) || old_removed.contains_key(key1) {
                    let a = choose|a: int| 0 <= a < j && before@[a].key1_of() == key1;
                    assert(a != j as int);
                }
                if old_common2.contains_key(key2) || old_removed2.contains_key(key2) {
                    let a = choose|a: int| 0 <= a < j && before@[a].key2_of() == key2;
                    assert(a != j as int);
                }
            }
            match other.get_unique(key1, key2) {
                Some(other_item) => {
                    let leaf = IdLeaf::new(item, other_item);
                    proof {
                        lemma_fresh_overwrite(old_common, old_common2, leaf);
                    }
                    diff.common.insert_overwrite(leaf);
                },
                None => {
                    proof {
                        lemma_fresh_overwrite(old_removed, old_removed2, item);
                    }
                    diff.removed.insert_overwrite(item);
                },
            }
            proof {
                assert forall|k: u64| #[trigger]
                    diff.common@.contains_key(k) <==> (exists|a: int|
                        0 <= a < j + 1 && before@[a].key1_of() == k) && in_both(self@, other@, k) by {
                    if k == key1 {
                        assert(before@[j as int].key1_of() == k);
                    } else if exists|a: int| 0 <= a < j + 1 && before@[a].key1_of() == k {
                        let a = choose|a: int| 0 <= a < j + 1 && before@[a].key1_of() == k;
                        assert(a != j as int);
                    }
                }
                assert forall|k: u64| #[trigger]
                    diff.removed@.contains_key(k) <==> (exists|a: int|
                        0 <= a < j + 1 && before@[a].key1_of() == k) && !in_both(self@, other@, k) by {
                    if k == key1 {
                        assert(before@[j as int].key1_of() == k);
                    } else if exists|a: int| 0 <= a < j + 1 && before@[a].key1_of() == k {
                        let a = choose|a: int| 0 <= a < j + 1 && before@[a].key1_of() == k;
                        assert(a != j as int);
                    }
                }
                assert forall|k: u64| #[trigger] diff.common.by_key2().contains_key(k) implies exists|
                    a: int,
                | 0 <= a < j + 1 && before@[a].key2_of() == k by {
                    if k == key2 {
                        assert(before@[j as int].key2_of() == k);
                    } else {
                        assert(old_common2.contains_key(k));
                        let a = choose|a: int| 0 <= a < j && before@[a].key2_of() == k;
                        assert(0 <= a < j + 1);
                    }
                }
                assert forall|k: u64| #[trigger] diff.removed.by_key2().contains_key(k) implies exists|
                    a: int,
                | 0 <= a < j + 1 && before@[a].key2_of() == k by {
                    if k == key2 {
                        assert(before@[j as int].key2_of() == k);
                    } else {
                        assert(old_removed2.contains_key(k));
                        let a = choose|a: int| 0 <= a < j && before@[a].key2_of() == k;
                        assert(0 <= a < j + 1);
                    }
                }
            }
            j = j + 1;
        }
        let after = other.iter();
        let mut j: usize = 0;
        while j < after.len()
            invariant
                self.wf(),
                other.wf(),
                diff.wf(),
                j <= after@.len(),
                forall|a: int|
                    0 <= a < after@.len() ==> other@.contains_key(#[trigger] after@[a].key1_of())
                        && other@[after@[a].key1_of()] == *after@[a],
                forall|k: u64| #[trigger]
                    other@.contains_key(k) ==> exists|a: int|
                        0 <= a < after@.len() && after@[a].key1_of() == k,
                forall|a: int, b: int|
                    0 <= a < after@.len() && 0 <= b < after@.len() && a != b
                        ==> after@[a].key1_of() != after@[b].key1_of() && after@[a].key2_of()
                        != after@[b].key2_of(),
                forall|k: u64| #[trigger] diff.common@.contains_key(k) <==> in_both(self@, other@, k),
                forall|k: u64| #[trigger]
                    diff.common@.contains_key(k) ==> diff.common@[k].spec_before() == self@[k]
                        && diff.common@[k].spec_after() == other@[k],
                forall|k: u64| #[trigger]
                    diff.removed@.contains_key(k) <==> self@.contains_key(k) && !in_both(
                        self@,
                        other@,
                        k,
                    ),
                forall|k: u64| #[trigger]
                    diff.removed@.contains_key(k) ==> *diff.removed@[k] == self@[k],
                forall|k: u64| #[trigger]
                    diff.added@.contains_key(k) <==> (exists|a: int|
                        0 <= a < j && after@[a].key1_of() == k) && !in_both(self@, other@, k),
                forall|k: u64| #[trigger] diff.added@.contains_key(k) ==> *diff.added@[k] == other@[k],
                forall|k: u64| #[trigger]
                    diff.added.by_key2().contains_key(k) ==> exists|a: int|
                        0 <= a < j && after@[a].key2_of() == k,
            decreases after@.len() - j,
        {
            proof {
                diff.added.lemma_keys_agree();
            }
            let item: &'daft T = after[j];
            let key1 = item.key1();
            let key2 = item.key2();
            let ghost old_added = diff.added@;
            let ghost old_added2 = diff.added.by_key2();
            if !self.contains_key_unique(key1, key2) {
                proof {
                    if old_added.contains_key(key1) {
                        let a = choose|a: int| 0 <= a < j && after@[a].key1_of() == key1;
                        assert(a != j as int);
                    }
                    if old_added2.contains_key(key2) {
                        let a = choose|a: int| 0 <= a < j && after@[a].key2_of() == key2;
                        assert(a != j as int);
                    }
                    lemma_fresh_overwrite(old_added, old_added2, item);
                }
                diff.added.insert_overwrite(item);
            }
            proof {
                assert forall|k: u64| #[trigger]
                    diff.added@.contains_key(k) <==> (exists|a: int|
                        0 <= a < j + 1 && after@[a].key1_of() == k) && !in_both(self@, other@, k) by {
                    if k == key1 {
                        assert(after@[j as int].key1_of() == k);
                    } else if exists|a: int| 0 <= a < j + 1 && after@[a].key1_of() == k {
                        let a = choose|a: int| 0 <= a < j + 1 && after@[a].key1_of() == k;
                        assert(a != j as int);
                    }
                }
                assert forall|k: u64| #[trigger] diff.added.by_key2().contains_key(k) implies exists|
                    a: int,
                | 0 <= a < j + 1 && after@[a].key2_of() == k by {
                    if k == key2 {
                        assert(after@[j as int].key2_of() == k);
                    } else {
                        assert(old_added2.contains_key(k));
                        let a = choose|a: int| 0 <= a < j && after@[a].key2_of() == k;
                        assert(0 <= a < j + 1);
                    }
                }
            }
            j = j + 1;
        }
        diff
    }
}

impl<'daft, T: BiHashItem + PartialEq> Diff<'daft, T> {
    /// The items under common keys that did not change.
    pub fn unchanged(&self) -> (v: Vec<&'daft T>)
        requires
            self.wf(),
        ensures
            forall|j: int|
                0 <= j < v@.len() ==> self.common@.contains_key(#[trigger] v@[j].key1_of())
                    && self.common@[v@[j].key1_of()].spec_before() == v@[j] && (T::obeys_eq_spec()
                    ==> self.common@[v@[j].key1_of()].spec_is_unchanged()),
            forall|a: int, b: int|
                0 <= a < v@.len() && 0 <= b < v@.len() && a != b ==> v@[a].key1_of()
                    != v@[b].key1_of(),
            T::obeys_eq_spec() ==> forall|k: u64| #[trigger]
                self.common@.contains_key(k) && self.common@[k].spec_is_unchanged() ==> exists|j: int|
                    0 <= j < v@.len() && v@[j].key1_of() == k,
    {
        let leaves = self.common.iter();
        let mut v: Vec<&'daft T> = Vec::new();
        let mut j: usize = 0;
        while j < leaves.len()
            invariant
                self.wf(),
                j <= leaves@.len(),
                forall|a: int|
                    0 <= a < leaves@.len() ==> self.common@.contains_key(
                        #[trigger] leaves@[a].key1_of(),
                    ) && self.common@[leaves@[a].key1_of()] == *leaves@[a],
                forall|a: int, b: int|
                    0 <= a < leaves@.len() && 0 <= b < leaves@.len() && a != b
                        ==> leaves@[a].key1_of() != leaves@[b].key1_of(),
                forall|k: u64| #[trigger]
                    self.common@.contains_key(k) ==> exists|a: int|
                        0 <= a < leaves@.len() && leaves@[a].key1_of() == k,
                forall|x: int|
                    0 <= x < v@.len() ==> exists|a: int|
                        0 <= a < j && (#[trigger] v@[x]).key1_of() == leaves@[a].key1_of(),
                forall|x: int|
                    0 <= x < v@.len() ==> self.common@.contains_key(#[trigger] v@[x].key1_of())
                        && self.common@[v@[x].key1_of()].spec_before() == v@[x] && (
                    T::obeys_eq_spec() ==> self.common@[v@[x].key1_of()].spec_is_unchanged()),
                forall|x: int, y: int|
                    0 <= x < v@.len() && 0 <= y < v@.len() && x != y ==> v@[x].key1_of()
                        != v@[y].key1_of(),
                T::obeys_eq_spec() ==> forall|a: int|
                    0 <= a < j && (#[trigger] leaves@[a]).spec_is_unchanged() ==> exists|x: int|
                        0 <= x < v@.len() && v@[x].key1_of() == leaves@[a].key1_of(),
            decreases leaves@.len() - j,
        {
            let leaf = leaves[j];
            let ghost old_v = v@;
            if leaf.is_unchanged() {
                v.push(*leaf.before());
                proof {
                    let n = v@.len() - 1;
                    assert(v@[n] == leaf.spec_before());
                    assert(v@[n].key1_of() == leaves@[j as int].key1_of());
                    assert forall|x: int| 0 <= x < n implies (#[trigger] v@[x]).key1_of()
                        != v@[n].key1_of() by {
                        assert(v@[x] == old_v[x]);
                        let a = choose|a: int| 0 <= a < j && old_v[x].key1_of() == leaves@[a].key1_of();
                        assert(a != j as int);
                    }
                }
            }
            proof {
                assert forall|x: int| 0 <= x < v@.len() implies exists|a: int|
                    0 <= a < j + 1 && (#[trigger] v@[x]).key1_of() == leaves@[a].key1_of() by {
                    if x < old_v.len() {
                        assert(v@[x] == old_v[x]);
                        let a = choose|a: int| 0 <= a < j && old_v[x].key1_of() == leaves@[a].key1_of();
                        assert(0 <= a < j + 1);
                    } else {
                        assert(v@[x].key1_of() == leaves@[j as int].key1_of());
                    }
                }
                if T::obeys_eq_spec() {
                    assert forall|a: int|
                        0 <= a < j + 1 && (#[trigger] leaves@[a]).spec_is_unchanged() implies exists|x: int|
                        0 <= x < v@.len() && v@[x].key1_of() == leaves@[a].key1_of() by {
                        if a < j {
                            let x = choose|x: int|
                                0 <= x < old_v.len() && old_v[x].key1_of() == leaves@[a].key1_of();
                            assert(v@[x] == old_v[x]);
                        } else {
                            assert(v@[v@.len() - 1].key1_of() == leaves@[a].key1_of());
                        }
                    }
                }
            }
            j = j + 1;
        }
        proof {
            if T::obeys_eq_spec() {
                assert forall|k: u64| #[trigger]
                    self.common@.contains_key(k) && self.common@[k].spec_is_unchanged() implies exists|j: int|
                    0 <= j < v@.len() && v@[j].key1_of() == k by {
                    let a = choose|a: int| 0 <= a < leaves@.len() && leaves@[a].key1_of() == k;
                    assert(leaves@[a].spec_is_unchanged());
                }
            }
        }
        v
    }

    /// Whether `key` is, as key 1, a common key whose item did not change.
    pub fn is_unchanged1(&self, key: u64) -> (b: bool)
        requires
            self.wf(),
        ensures
            T::obeys_eq_spec() ==> (b <==> self.common@.contains_key(key)
                && self.common@[key].spec_is_unchanged()),
            b ==> self.common@.contains_key(key),
    {
        match self.common.get1(key) {
            Some(leaf) => leaf.is_unchanged(),
            None => false,
        }
    }

    /// Whether `key` is, as key 2, a common key whose item did not change.
    pub fn is_unchanged2(&self, key: u64) -> (b: bool)
        requires
            self.wf(),
        ensures
            T::obeys_eq_spec() ==> (b <==> self.common.by_key2().contains_key(key)
                && self.common.by_key2()[key].spec_is_unchanged()),
            b ==> self.common.by_key2().contains_key(key),
    {
        match self.common.get2(key) {
            Some(leaf) => leaf.is_unchanged(),
            None => false,
        }
    }

    /// The item under key 1 `key`, if `key` is common and its item did not change.
    pub fn get_unchanged1(&self, key: u64) -> (r: Option<&'daft T>)
        requires
            self.wf(),
        ensures
            r matches Some(t) ==> self.common@.contains_key(key) && self.common@[key].spec_before()
                == t,
            T::obeys_eq_spec() ==> (r is Some <==> self.common@.contains_key(key)
                && self.common@[key].spec_is_unchanged()),
    {
        match self.common.get1(key) {
            Some(leaf) => {
                if leaf.is_unchanged() {
                    Some(*leaf.before())
                } else {
                    None
                }
            },
            None => None,
        }
    }

    /// The item under key 2 `key`, if `key` is common and its item did not change.
    pub fn get_unchanged2(&self, key: u64) -> (r: Option<&'daft T>)
        requires
            self.wf(),
        ensures
            r matches Some(t) ==> self.common.by_key2().contains_key(key) && self.common.by_key2()[key].spec_before()
                == t,
            T::obeys_eq_spec() ==> (r is Some <==> self.common.by_key2().contains_key(key)
                && self.common.by_key2()[key].spec_is_unchanged()),
    {
        match self.common.get2(key) {
            Some(leaf) => {
                if leaf.is_unchanged() {
                    Some(*leaf.before())
                } else {
                    None
                }
            },
            None => None,
        }
    }

    /// The common items that changed, before and after.
    pub fn modified(&self) -> (v: Vec<IdLeaf<&'daft T>>)
        requires
            self.wf(),
        ensures
            forall|j: int|
                0 <= j < v@.len() ==> self.common@.contains_key(#[trigger] v@[j].key1_of())
                    && self.common@[v@[j].key1_of()] == v@[j] && (T::obeys_eq_spec()
                    ==> !v@[j].spec_is_unchanged()),
            forall|a: int, b: int|
                0 <= a < v@.len() && 0 <= b < v@.len() && a != b ==> v@[a].key1_of()
                    != v@[b].key1_of(),
            T::obeys_eq_spec() ==> forall|k: u64| #[trigger]
                self.common@.contains_key(k) && !self.common@[k].spec_is_unchanged() ==> exists|
                    j: int,
                | 0 <= j < v@.len() && v@[j].key1_of() == k,
    {
        let leaves = self.common.iter();
        let mut v: Vec<IdLeaf<&'daft T>> = Vec::new();
        let mut j: usize = 0;
        while j < leaves.len()
            invariant
                self.wf(),
                j <= leaves@.len(),
                forall|a: int|
                    0 <= a < leaves@.len() ==> self.common@.contains_key(
                        #[trigger] leaves@[a].key1_of(),
                    ) && self.common@[leaves@[a].key1_of()] == *leaves@[a],
                forall|a: int, b: int|
                    0 <= a < leaves@.len() && 0 <= b < leaves@.len() && a != b
                        ==> leaves@[a].key1_of() != leaves@[b].key1_of(),
                forall|k: u64| #[trigger]
                    self.common@.contains_key(k) ==> exists|a: int|
                        0 <= a < leaves@.len() && leaves@[a].key1_of() == k,
                forall|x: int|
                    0 <= x < v@.len() ==> exists|a: int|
                        0 <= a < j && (#[trigger] v@[x]).key1_of() == leaves@[a].key1_of(),
                forall|x: int|
                    0 <= x < v@.len() ==> self.common@.contains_key(#[trigger] v@[x].key1_of())
                        && self.common@[v@[x].key1_of()] == v@[x] && (T::obeys_eq_spec()
                        ==> !v@[x].spec_is_unchanged()),
                forall|x: int, y: int|
                    0 <= x < v@.len() && 0 <= y < v@.len() && x != y ==> v@[x].key1_of()
                        != v@[y].key1_of(),
                T::obeys_eq_spec() ==> forall|a: int|
                    0 <= a < j && !(#[trigger] leaves@[a]).spec_is_unchanged() ==> exists|x: int|
                        0 <= x < v@.len() && v@[x].key1_of() == leaves@[a].key1_of(),
            decreases leaves@.len() - j,
        {
            let leaf = leaves[j];
            let ghost old_v = v@;
            if leaf.is_modified() {
                v.push(*leaf);
                proof {
                    let n = v@.len() - 1;
                    assert(v@[n] == *leaves@[j as int]);
                    assert forall|x: int| 0 <= x < n implies (#[trigger] v@[x]).key1_of()
                        != v@[n].key1_of() by {
                        assert(v@[x] == old_v[x]);
                        let a = choose|a: int| 0 <= a < j && old_v[x].key1_of() == leaves@[a].key1_of();
                        assert(a != j as int);
                    }
                }
            }
            proof {
                assert forall|x: int| 0 <= x < v@.len() implies exists|a: int|
                    0 <= a < j + 1 && (#[trigger] v@[x]).key1_of() == leaves@[a].key1_of() by {
                    if x < old_v.len() {
                        assert(v@[x] == old_v[x]);
                        let a = choose|a: int| 0 <= a < j && old_v[x].key1_of() == leaves@[a].key1_of();
                        assert(0 <= a < j + 1);
                    } else {
                        assert(v@[x].key1_of() == leaves@[j as int].key1_of());
                    }
                }
                if T::obeys_eq_spec() {
                    assert forall|a: int|
                        0 <= a < j + 1 && !(#[trigger] leaves@[a]).spec_is_unchanged() implies exists|
                        x: int,
                    | 0 <= x < v@.len() && v@[x].key1_of() == leaves@[a].key1_of() by {
                        if a < j {
                            let x = choose|x: int|
                                0 <= x < old_v.len() && old_v[x].key1_of() == leaves@[a].key1_of();
                            assert(v@[x] == old_v[x]);
                        } else {
                            assert(v@[v@.len() - 1].key1_of() == leaves@[a].key1_of());
                        }
                    }
                }
            }
            j = j + 1;
        }
        proof {
            if T::obeys_eq_spec() {
                assert forall|k: u64| #[trigger]
                    self.common@.contains_key(k) && !self.common@[k].spec_is_unchanged() implies exists|
                    j: int,
                | 0 <= j < v@.len() && v@[j].key1_of() == k by {
                    let a = choose|a: int| 0 <= a < leaves@.len() && leaves@[a].key1_of() == k;
                    assert(!leaves@[a].spec_is_unchanged());
                }
            }
        }
        v
    }

    /// Whether `key` is, as key 1, a common key whose item changed.
    pub fn is_modified1(&self, key: u64) -> (b: bool)
        requires
            self.wf(),
        ensures
            T::obeys_eq_spec() ==> (b <==> self.common@.contains_key(key)
                && !self.common@[key].spec_is_unchanged()),
            b ==> self.common@.contains_key(key),
    {
        match self.common.get1(key) {
            Some(leaf) => leaf.is_modified(),
            None => false,
        }
    }

    /// Whether `key` is, as key 2, a common key whose item changed.
    pub fn is_modified2(&self, key: u64) -> (b: bool)
        requires
            self.wf(),
        ensures
            T::obeys_eq_spec() ==> (b <==> self.common.by_key2().contains_key(key)
                && !self.common.by_key2()[key].spec_is_unchanged()),
            b ==> self.common.by_key2().contains_key(key),
    {
        match self.common.get2(key) {
            Some(leaf) => leaf.is_modified(),
            None => false,
        }
    }

    /// The item under key 1 `key`, before and after, if `key` is common and its
    /// item changed.
    pub fn get_modified1(&self, key: u64) -> (r: Option<IdLeaf<&'daft T>>)
        requires
            self.wf(),
        ensures
            r matches Some(leaf) ==> self.common@.contains_key(key) && self.common@[key] == leaf,
            T::obeys_eq_spec() ==> (r is Some <==> self.common@.contains_key(key)
                && !self.common@[key].spec_is_unchanged()),
    {
        match self.common.get1(key) {
            Some(leaf) => {
                if leaf.is_modified() {
                    Some(*leaf)
                } else {
                    None
                }
            },
            None => None,
        }
    }

    /// The item under key 2 `key`, before and after, if `key` is common and its
    /// item changed.
    pub fn get_modified2(&self, key: u64) -> (r: Option<IdLeaf<&'daft T>>)
        requires
            self.wf(),
        ensures
            r matches Some(leaf) ==> self.common.by_key2().contains_key(key) && self.common.by_key2()[key] == leaf,
            T::obeys_eq_spec() ==> (r is Some <==> self.common.by_key2().contains_key(key)
                && !self.common.by_key2()[key].spec_is_unchanged()),
    {
        match self.common.get2(key) {
            Some(leaf) => {
                if leaf.is_modified() {
                    Some(*leaf)
                } else {
                    None
                }
            },
            None => None,
        }
    }
}

} // verus!
