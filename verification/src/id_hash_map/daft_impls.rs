//! The difference between two [`IdHashMap`]s.

use super::imp::{IdHashItem, IdHashMap};
use crate::daft_utils::IdLeaf;
use vstd::prelude::*;
use vstd::std_specs::cmp::PartialEqSpec;

verus! {

/// The difference between two maps: the items under keys both hold, and
/// the items only one of them holds.
pub struct Diff<'daft, T: IdHashItem> {
    /// Items under keys that both maps hold, before and after.
    pub common: IdHashMap<IdLeaf<&'daft T>>,
    /// Items under keys only the second map holds.
    pub added: IdHashMap<&'daft T>,
    /// Items under keys only the first map holds.
    pub removed: IdHashMap<&'daft T>,
}

impl<'daft, T: IdHashItem> Diff<'daft, T> {
    /// All three parts are well formed.
    pub open spec fn wf(&self) -> bool {
        &&& self.common.wf()
        &&& self.added.wf()
        &&& self.removed.wf()
    }

    /// An empty difference.
    pub fn new() -> (d: Self)
        ensures
            d.wf(),
            d.common@ == Map::<u64, IdLeaf<&'daft T>>::empty(),
            d.added@ == Map::<u64, &'daft T>::empty(),
            d.removed@ == Map::<u64, &'daft T>::empty(),
    {
        Diff { common: IdHashMap::new(), added: IdHashMap::new(), removed: IdHashMap::new() }
    }

    /// An empty difference whose maps hash keys with `hasher`.
    pub fn with_hasher(hasher: hashbrown::DefaultHashBuilder) -> (d: Self)
        ensures
            d.wf(),
            d.common@ == Map::<u64, IdLeaf<&'daft T>>::empty(),
            d.added@ == Map::<u64, &'daft T>::empty(),
            d.removed@ == Map::<u64, &'daft T>::empty(),
            d.common.spec_hasher() == hasher,
            d.added.spec_hasher() == hasher,
            d.removed.spec_hasher() == hasher,
    {
        let h2 = crate::key_table::clone_hasher(&hasher);
        let h3 = crate::key_table::clone_hasher(&hasher);
        Diff {
            common: IdHashMap::with_hasher(hasher),
            added: IdHashMap::with_hasher(h2),
            removed: IdHashMap::with_hasher(h3),
        }
    }
}

impl<T: IdHashItem> IdHashMap<T> {
    /// The difference from this map to `other`: keys both hold go to
    /// `common` with the item of each, keys only this map holds go to
    /// `removed`, keys only `other` holds go to `added`.
    pub fn diff<'daft>(&'daft self, other: &'daft Self) -> (d: Diff<'daft, T>)
        requires
            self.wf(),
            other.wf(),
        ensures
            d.wf(),
            forall|k: u64| #[trigger]
                d.common@.contains_key(k) <==> self@.contains_key(k) && other@.contains_key(k),
            forall|k: u64| #[trigger]
                d.common@.contains_key(k) ==> d.common@[k].spec_before() == self@[k]
                    && d.common@[k].spec_after() == other@[k],
            forall|k: u64| #[trigger]
                d.removed@.contains_key(k) <==> self@.contains_key(k) && !other@.contains_key(k),
            forall|k: u64| #[trigger] d.removed@.contains_key(k) ==> *d.removed@[k] == self@[k],
            forall|k: u64| #[trigger]
                d.added@.contains_key(k) <==> other@.contains_key(k) && !self@.contains_key(k),
            forall|k: u64| #[trigger] d.added@.contains_key(k) ==> *d.added@[k] == other@[k],
            d.common.spec_hasher() == self.spec_hasher(),
            d.added.spec_hasher() == self.spec_hasher(),
            d.removed.spec_hasher() == self.spec_hasher(),
    {
        let mut diff: Diff<'daft, T> = Diff::with_hasher(
            crate::key_table::clone_hasher(self.hasher()),
        );
        let before = self.iter();
        let mut j: usize = 0;
        while j < before.len()
            invariant
                self.wf(),
                other.wf(),
                diff.wf(),
                diff.common.spec_hasher() == self.spec_hasher(),
                diff.added.spec_hasher() == self.spec_hasher(),
                diff.removed.spec_hasher() == self.spec_hasher(),
                j <= before@.len(),
                diff.added@ == Map::<u64, &'daft T>::empty(),
                forall|a: int|
                    0 <= a < before@.len() ==> self@.contains_key(#[trigger] before@[a].key_of())
                        && self@[before@[a].key_of()] == *before@[a],
                forall|k: u64| #[trigger]
                    self@.contains_key(k) ==> exists|a: int|
                        0 <= a < before@.len() && before@[a].key_of() == k,
                forall|a: int, b: int|
                    0 <= a < before@.len() && 0 <= b < before@.len() && a != b
                        ==> before@[a].key_of() != before@[b].key_of(),
                forall|k: u64| #[trigger]
                    diff.common@.contains_key(k) <==> (exists|a: int|
                        0 <= a < j && before@[a].key_of() == k) && other@.contains_key(k),
                forall|k: u64| #[trigger]
                    diff.common@.contains_key(k) ==> diff.common@[k].spec_before() == self@[k]
                        && diff.common@[k].spec_after() == other@[k],
                forall|k: u64| #[trigger]
                    diff.removed@.contains_key(k) <==> (exists|a: int|
                        0 <= a < j && before@[a].key_of() == k) && !other@.contains_key(k),
                forall|k: u64| #[trigger]
                    diff.removed@.contains_key(k) ==> *diff.removed@[k] == self@[k],
            decreases before@.len() - j,
        {
            let item: &'daft T = before[j];
            let key = item.key();
            let ghost old_common = diff.common@;
            let ghost old_removed = diff.removed@;
            match other.get(key) {
                Some(other_item) => {
                    let leaf = IdLeaf::new(item, other_item);
                    diff.common.insert_overwrite(leaf);
                    proof {
                        assert(diff.common@ == old_common.insert(key, leaf));
                        assert forall|k: u64| #[trigger]
                            diff.common@.contains_key(k) <==> (exists|a: int|
                                0 <= a < j + 1 && before@[a].key_of() == k) && other@.contains_key(
                                k,
                            ) by {
                            if k == key {
                                assert(before@[j as int].key_of() == k);
                            } else if exists|a: int| 0 <= a < j + 1 && before@[a].key_of() == k {
                                let a = choose|a: int| 0 <= a < j + 1 && before@[a].key_of() == k;
                                assert(a != j as int);
                            }
                        }
                        assert forall|k: u64| #[trigger]
                            diff.removed@.contains_key(k) <==> (exists|a: int|
                                0 <= a < j + 1 && before@[a].key_of() == k) && !other@.contains_key(
                                k,
                            ) by {
                            if exists|a: int| 0 <= a < j + 1 && before@[a].key_of() == k {
                                let a = choose|a: int| 0 <= a < j + 1 && before@[a].key_of() == k;
                                if a == j as int {
                                    assert(other@.contains_key(k));
                                }
                            }
                        }
                    }
                },
                None => {
                    diff.removed.insert_overwrite(item);
                    proof {
                        assert(diff.removed@ == old_removed.insert(key, item));
                        assert forall|k: u64| #[trigger]
                            diff.removed@.contains_key(k) <==> (exists|a: int|
                                0 <= a < j + 1 && before@[a].key_of() == k) && !other@.contains_key(
                                k,
                            ) by {
                            if k == key {
                                assert(before@[j as int].key_of() == k);
                            } else if exists|a: int| 0 <= a < j + 1 && before@[a].key_of() == k {
                                let a = choose|a: int| 0 <= a < j + 1 && before@[a].key_of() == k;
                                assert(a != j as int);
                            }
                        }
                        assert forall|k: u64| #[trigger]
                            diff.common@.contains_key(k) <==> (exists|a: int|
                                0 <= a < j + 1 && before@[a].key_of() == k) && other@.contains_key(
                                k,
                            ) by {
                            if exists|a: int| 0 <= a < j + 1 && before@[a].key_of() == k {
                                let a = choose|a: int| 0 <= a < j + 1 && before@[a].key_of() == k;
                                if a == j as int {
                                    assert(!other@.contains_key(k));
                                }
                            }
                        }
                    }
                },
            }
            j = j + 1;
        }
        let after = other.iter();
        let mut j: usize = 0;
        while j < after.len()
            invariant
                self.wf(),
                other.wf(),
                diff.wf(),
                diff.common.spec_hasher() == self.spec_hasher(),
                diff.added.spec_hasher() == self.spec_hasher(),
                diff.removed.spec_hasher() == self.spec_hasher(),
                j <= after@.len(),
                forall|a: int|
                    0 <= a < after@.len() ==> other@.contains_key(#[trigger] after@[a].key_of())
                        && other@[after@[a].key_of()] == *after@[a],
                forall|k: u64| #[trigger]
                    other@.contains_key(k) ==> exists|a: int|
                        0 <= a < after@.len() && after@[a].key_of() == k,
                forall|k: u64| #[trigger]
                    diff.common@.contains_key(k) <==> self@.contains_key(k) && other@.contains_key(k),
                forall|k: u64| #[trigger]
                    diff.common@.contains_key(k) ==> diff.common@[k].spec_before() == self@[k]
                        && diff.common@[k].spec_after() == other@[k],
                forall|k: u64| #[trigger]
                    diff.removed@.contains_key(k) <==> self@.contains_key(k) && !other@.contains_key(
                        k,
                    ),
                forall|k: u64| #[trigger]
                    diff.removed@.contains_key(k) ==> *diff.removed@[k] == self@[k],
                forall|k: u64| #[trigger]
                    diff.added@.contains_key(k) <==> (exists|a: int|
                        0 <= a < j && after@[a].key_of() == k) && !self@.contains_key(k),
                forall|k: u64| #[trigger] diff.added@.contains_key(k) ==> *diff.added@[k] == other@[k],
            decreases after@.len() - j,
        {
            let item: &'daft T = after[j];
            let key = item.key();
            let ghost old_added = diff.added@;
            if !self.contains_key(key) {
                diff.added.insert_overwrite(item);
                proof {
                    assert(diff.added@ == old_added.insert(key, item));
                }
            }
            proof {
                assert forall|k: u64| #[trigger]
                    diff.added@.contains_key(k) <==> (exists|a: int|
                        0 <= a < j + 1 && after@[a].key_of() == k) && !self@.contains_key(k) by {
                    if k == key {
                        assert(after@[j as int].key_of() == k);
                    } else if exists|a: int| 0 <= a < j + 1 && after@[a].key_of() == k {
                        let a = choose|a: int| 0 <= a < j + 1 && after@[a].key_of() == k;
                        assert(a != j as int);
                    }
                }
            }
            j = j + 1;
        }
        diff
    }
}

impl<'daft, T: IdHashItem + PartialEq> Diff<'daft, T> {
    /// The items under common keys that did not change.
    pub fn unchanged(&self) -> (v: Vec<&'daft T>)
        requires
            self.wf(),
        ensures
            forall|j: int|
                0 <= j < v@.len() ==> self.common@.contains_key(#[trigger] v@[j].key_of())
                    && self.common@[v@[j].key_of()].spec_before() == v@[j] && (T::obeys_eq_spec()
                    ==> self.common@[v@[j].key_of()].spec_is_unchanged()),
            forall|a: int, b: int|
                0 <= a < v@.len() && 0 <= b < v@.len() && a != b ==> v@[a].key_of()
                    != v@[b].key_of(),
            T::obeys_eq_spec() ==> forall|k: u64| #[trigger]
                self.common@.contains_key(k) && self.common@[k].spec_is_unchanged() ==> exists|j: int|
                    0 <= j < v@.len() && v@[j].key_of() == k,
    {
        let leaves = self.common.iter();
        let mut v: Vec<&'daft T> = Vec::new();
        let mut j: usize = 0;
        while j < leaves.len()
            invariant
                self.wf(),
                j <= leaves@.len(),
                forall|a: int|
                    0 <= a < leaves@.len() ==> self.common@.contains_key(
                        #[trigger] leaves@[a].key_of(),
                    ) && self.common@[leaves@[a].key_of()] == *leaves@[a],
                forall|a: int, b: int|
                    0 <= a < leaves@.len() && 0 <= b < leaves@.len() && a != b
                        ==> leaves@[a].key_of() != leaves@[b].key_of(),
                forall|k: u64| #[trigger]
                    self.common@.contains_key(k) ==> exists|a: int|
                        0 <= a < leaves@.len() && leaves@[a].key_of() == k,
                forall|x: int|
                    0 <= x < v@.len() ==> exists|a: int|
                        0 <= a < j && (#[trigger] v@[x]).key_of() == leaves@[a].key_of(),
                forall|x: int|
                    0 <= x < v@.len() ==> self.common@.contains_key(#[trigger] v@[x].key_of())
                        && self.common@[v@[x].key_of()].spec_before() == v@[x] && (
                    T::obeys_eq_spec() ==> self.common@[v@[x].key_of()].spec_is_unchanged()),
                forall|x: int, y: int|
                    0 <= x < v@.len() && 0 <= y < v@.len() && x != y ==> v@[x].key_of()
                        != v@[y].key_of(),
                T::obeys_eq_spec() ==> forall|a: int|
                    0 <= a < j && (#[trigger] leaves@[a]).spec_is_unchanged() ==> exists|x: int|
                        0 <= x < v@.len() && v@[x].key_of() == leaves@[a].key_of(),
            decreases leaves@.len() - j,
        {
            let leaf = leaves[j];
            let ghost old_v = v@;
            if leaf.is_unchanged() {
                v.push(*leaf.before());
                proof {
                    let n = v@.len() - 1;
                    assert(v@[n] == leaf.spec_before());
                    assert(v@[n].key_of() == leaves@[j as int].key_of());
                    assert forall|x: int| 0 <= x < n implies (#[trigger] v@[x]).key_of()
                        != v@[n].key_of() by {
                        assert(v@[x] == old_v[x]);
                        let a = choose|a: int| 0 <= a < j && old_v[x].key_of() == leaves@[a].key_of();
                        assert(a != j as int);
                    }
                }
            }
            proof {
                assert forall|x: int| 0 <= x < v@.len() implies exists|a: int|
                    0 <= a < j + 1 && (#[trigger] v@[x]).key_of() == leaves@[a].key_of() by {
                    if x < old_v.len() {
                        assert(v@[x] == old_v[x]);
                        let a = choose|a: int| 0 <= a < j && old_v[x].key_of() == leaves@[a].key_of();
                        assert(0 <= a < j + 1);
                    } else {
                        assert(v@[x].key_of() == leaves@[j as int].key_of());
                    }
                }
                if T::obeys_eq_spec() {
                    assert forall|a: int|
                        0 <= a < j + 1 && (#[trigger] leaves@[a]).spec_is_unchanged() implies exists|x: int|
                        0 <= x < v@.len() && v@[x].key_of() == leaves@[a].key_of() by {
                        if a < j {
                            let x = choose|x: int|
                                0 <= x < old_v.len() && old_v[x].key_of() == leaves@[a].key_of();
                            assert(v@[x] == old_v[x]);
                        } else {
                            assert(v@[v@.len() - 1].key_of() == leaves@[a].key_of());
                        }
                    }
                }
            }
            j = j + 1;
        }
        proof {
            if T::obeys_eq_spec() {
                assert forall|k: u64| #[trigger]
                    self.common@.contains_key(k) && self.common@[k].spec_is_unchanged() implies exists|j: int|
                    0 <= j < v@.len() && v@[j].key_of() == k by {
                    let a = choose|a: int| 0 <= a < leaves@.len() && leaves@[a].key_of() == k;
                    assert(leaves@[a].spec_is_unchanged());
                }
            }
        }
        v
    }

    /// Whether `key` is a common key whose item did not change.
    pub fn is_unchanged(&self, key: u64) -> (b: bool)
        requires
            self.wf(),
        ensures
            T::obeys_eq_spec() ==> (b <==> self.common@.contains_key(key)
                && self.common@[key].spec_is_unchanged()),
            b ==> self.common@.contains_key(key),
    {
        match self.common.get(key) {
            Some(leaf) => leaf.is_unchanged(),
            None => false,
        }
    }

    /// The item under `key`, if `key` is common and its item did not change.
    pub fn get_unchanged(&self, key: u64) -> (r: Option<&'daft T>)
        requires
            self.wf(),
        ensures
            r matches Some(t) ==> self.common@.contains_key(key) && self.common@[key].spec_before()
                == t,
            T::obeys_eq_spec() ==> (r is Some <==> self.common@.contains_key(key)
                && self.common@[key].spec_is_unchanged()),
    {
        match self.common.get(key) {
            Some(leaf) => {
                if leaf.is_unchanged() {
                    Some(*leaf.before())
                } else {
                    None
                }
            },
            None => None,
        }
    }

    /// The common items that changed, before and after.
    pub fn modified(&self) -> (v: Vec<IdLeaf<&'daft T>>)
        requires
            self.wf(),
        ensures
            forall|j: int|
                0 <= j < v@.len() ==> self.common@.contains_key(#[trigger] v@[j].key_of())
                    && self.common@[v@[j].key_of()] == v@[j] && (T::obeys_eq_spec()
                    ==> !v@[j].spec_is_unchanged()),
            forall|a: int, b: int|
                0 <= a < v@.len() && 0 <= b < v@.len() && a != b ==> v@[a].key_of()
                    != v@[b].key_of(),
            T::obeys_eq_spec() ==> forall|k: u64| #[trigger]
                self.common@.contains_key(k) && !self.common@[k].spec_is_unchanged() ==> exists|
                    j: int,
                | 0 <= j < v@.len() && v@[j].key_of() == k,
    {
        let leaves = self.common.iter();
        let mut v: Vec<IdLeaf<&'daft T>> = Vec::new();
        let mut j: usize = 0;
        while j < leaves.len()
            invariant
                self.wf(),
                j <= leaves@.len(),
                forall|a: int|
                    0 <= a < leaves@.len() ==> self.common@.contains_key(
                        #[trigger] leaves@[a].key_of(),
                    ) && self.common@[leaves@[a].key_of()] == *leaves@[a],
                forall|a: int, b: int|
                    0 <= a < leaves@.len() && 0 <= b < leaves@.len() && a != b
                        ==> leaves@[a].key_of() != leaves@[b].key_of(),
                forall|k: u64| #[trigger]
                    self.common@.contains_key(k) ==> exists|a: int|
                        0 <= a < leaves@.len() && leaves@[a].key_of() == k,
                forall|x: int|
                    0 <= x < v@.len() ==> exists|a: int|
                        0 <= a < j && (#[trigger] v@[x]).key_of() == leaves@[a].key_of(),
                forall|x: int|
                    0 <= x < v@.len() ==> self.common@.contains_key(#[trigger] v@[x].key_of())
                        && self.common@[v@[x].key_of()] == v@[x] && (T::obeys_eq_spec()
                        ==> !v@[x].spec_is_unchanged()),
                forall|x: int, y: int|
                    0 <= x < v@.len() && 0 <= y < v@.len() && x != y ==> v@[x].key_of()
                        != v@[y].key_of(),
                T::obeys_eq_spec() ==> forall|a: int|
                    0 <= a < j && !(#[trigger] leaves@[a]).spec_is_unchanged() ==> exists|x: int|
                        0 <= x < v@.len() && v@[x].key_of() == leaves@[a].key_of(),
            decreases leaves@.len() - j,
        {
            let leaf = leaves[j];
            let ghost old_v = v@;
            if leaf.is_modified() {
                v.push(*leaf);
                proof {
                    let n = v@.len() - 1;
                    assert(v@[n] == *leaves@[j as int]);
                    assert forall|x: int| 0 <= x < n implies (#[trigger] v@[x]).key_of()
                        != v@[n].key_of() by {
                        assert(v@[x] == old_v[x]);
                        let a = choose|a: int| 0 <= a < j && old_v[x].key_of() == leaves@[a].key_of();
                        assert(a != j as int);
                    }
                }
            }
            proof {
                assert forall|x: int| 0 <= x < v@.len() implies exists|a: int|
                    0 <= a < j + 1 && (#[trigger] v@[x]).key_of() == leaves@[a].key_of() by {
                    if x < old_v.len() {
                        assert(v@[x] == old_v[x]);
                        let a = choose|a: int| 0 <= a < j && old_v[x].key_of() == leaves@[a].key_of();
                        assert(0 <= a < j + 1);
                    } else {
                        assert(v@[x].key_of() == leaves@[j as int].key_of());
                    }
                }
                if T::obeys_eq_spec() {
                    assert forall|a: int|
                        0 <= a < j + 1 && !(#[trigger] leaves@[a]).spec_is_unchanged() implies exists|
                        x: int,
                    | 0 <= x < v@.len() && v@[x].key_of() == leaves@[a].key_of() by {
                        if a < j {
                            let x = choose|x: int|
                                0 <= x < old_v.len() && old_v[x].key_of() == leaves@[a].key_of();
                            assert(v@[x] == old_v[x]);
                        } else {
                            assert(v@[v@.len() - 1].key_of() == leaves@[a].key_of());
                        }
                    }
                }
            }
            j = j + 1;
        }
        proof {
            if T::obeys_eq_spec() {
                assert forall|k: u64| #[trigger]
                    self.common@.contains_key(k) && !self.common@[k].spec_is_unchanged() implies exists|
                    j: int,
                | 0 <= j < v@.len() && v@[j].key_of() == k by {
                    let a = choose|a: int| 0 <= a < leaves@.len() && leaves@[a].key_of() == k;
                    assert(!leaves@[a].spec_is_unchanged());
                }
            }
        }
        v
    }

    /// Whether `key` is a common key whose item changed.
    pub fn is_modified(&self, key: u64) -> (b: bool)
        requires
            self.wf(),
        ensures
            T::obeys_eq_spec() ==> (b <==> self.common@.contains_key(key)
                && !self.common@[key].spec_is_unchanged()),
            b ==> self.common@.contains_key(key),
    {
        match self.common.get(key) {
            Some(leaf) => leaf.is_modified(),
            None => false,
        }
    }

    /// The item under `key`, before and after, if `key` is common and its
    /// item changed.
    pub fn get_modified(&self, key: u64) -> (r: Option<IdLeaf<&'daft T>>)
        requires
            self.wf(),
        ensures
            r matches Some(leaf) ==> self.common@.contains_key(key) && self.common@[key] == leaf,
            T::obeys_eq_spec() ==> (r is Some <==> self.common@.contains_key(key)
                && !self.common@[key].spec_is_unchanged()),
    {
        match self.common.get(key) {
            Some(leaf) => {
                if leaf.is_modified() {
                    Some(*leaf)
                } else {
                    None
                }
            },
            None => None,
        }
    }
}

} // verus!
