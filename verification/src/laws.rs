//! Properties that relate several operations of the maps.
//!
//! Each proof function states, over the views that the operations' own
//! contracts speak of, what holds of a sequence of calls or of every state.

use crate::bi_hash_map;
use crate::bi_hash_map::{
    bi_overwrite_all, bi_views_match, overwrite_by_key1, overwrite_by_key2, overwritten_items, BiHashItem, BiHashMap,
};
use crate::daft_utils::IdLeaf;
use crate::id_hash_map;
use crate::id_btree_map::{btree_overwrite_all, btree_pairwise_eq, IdBTreeMapEntry};
use crate::id_hash_map::{overwrite_all, views_match, IdHashItem, IdHashMap};
use crate::id_index_map::{index_overwrite, index_overwrite_all, position_of, IdIndexMap};
use crate::records::{
    RecordBorrowedU32, RecordLargeBorrowedU32, RecordLargeOwnedU32, RecordOwnedU32,
};
use std::rc::Rc;
use std::sync::Arc;
use crate::id_ord_map::{ord_overwrite_all, pairwise_eq, IdOrdItem, IdOrdMap};
use vstd::laws_eq::obeys_eq_spec_properties;
use vstd::prelude::*;
use vstd::std_specs::cmp::PartialEqSpec;

verus! {

/// Map equality is an equivalence whenever the items' `==` is symmetric and
/// transitive: two maps that match a third match each other, and matching
/// does not depend on the order of the two maps. Where every item equals
/// itself, every map matches itself.
pub proof fn law_views_match_equivalence<T: PartialEq>(a: Map<u64, T>, b: Map<u64, T>, c: Map<u64, T>)
    requires
        obeys_eq_spec_properties::<T>(),
    ensures
        views_match(a, b) ==> views_match(b, a),
        views_match(a, b) && views_match(b, c) ==> views_match(a, c),
        (forall|x: T| #[trigger] x.eq_spec(&x)) ==> views_match(a, a),
{
    reveal(obeys_eq_spec_properties);
    if views_match(a, b) {
        assert forall|k: u64| #[trigger] b.contains_key(k) implies b[k].eq_spec(&a[k]) by {
            assert(a.contains_key(k));
        }
    }
    if views_match(a, b) && views_match(b, c) {
        assert forall|k: u64| #[trigger] a.contains_key(k) implies a[k].eq_spec(&c[k]) by {
            assert(b.contains_key(k));
            assert(a[k].eq_spec(&b[k]));
            assert(b[k].eq_spec(&c[k]));
        }
    }
}

/// Equality of maps with two keys is an equivalence whenever the items'
/// `==` is symmetric and transitive.
pub proof fn law_bi_views_match_equivalence<T: BiHashItem + PartialEq>(
    a: Map<u64, T>,
    b: Map<u64, T>,
    c: Map<u64, T>,
)
    requires
        obeys_eq_spec_properties::<T>(),
    ensures
        bi_views_match(a, b) ==> bi_views_match(b, a),
        bi_views_match(a, b) && bi_views_match(b, c) ==> bi_views_match(a, c),
        (forall|x: T| #[trigger] x.eq_spec(&x)) ==> bi_views_match(a, a),
{
    reveal(obeys_eq_spec_properties);
    if bi_views_match(a, b) {
        assert forall|k: u64| #[trigger] b.contains_key(k) implies b[k].key2_of() == a[k].key2_of()
            && b[k].eq_spec(&a[k]) by {
            assert(a.contains_key(k));
        }
    }
    if bi_views_match(a, b) && bi_views_match(b, c) {
        assert forall|k: u64| #[trigger] a.contains_key(k) implies a[k].key2_of() == c[k].key2_of()
            && a[k].eq_spec(&c[k]) by {
            assert(b.contains_key(k));
            assert(a[k].eq_spec(&b[k]));
            assert(b[k].eq_spec(&c[k]));
        }
    }
}

/// Equality of ordered maps, which compares their items in key order, is an
/// equivalence whenever the items' `==` is symmetric and transitive.
pub proof fn law_pairwise_eq_equivalence<T: PartialEq>(a: Seq<T>, b: Seq<T>, c: Seq<T>)
    requires
        obeys_eq_spec_properties::<T>(),
    ensures
        pairwise_eq(a, b) ==> pairwise_eq(b, a),
        pairwise_eq(a, b) && pairwise_eq(b, c) ==> pairwise_eq(a, c),
        (forall|x: T| #[trigger] x.eq_spec(&x)) ==> pairwise_eq(a, a),
{
    reveal(obeys_eq_spec_properties);
    if pairwise_eq(a, b) {
        assert forall|j: int| 0 <= j < b.len() implies (#[trigger] b[j]).eq_spec(&a[j]) by {
            assert(a[j].eq_spec(&b[j]));
        }
    }
    if pairwise_eq(a, b) && pairwise_eq(b, c) {
        assert forall|j: int| 0 <= j < a.len() implies (#[trigger] a[j]).eq_spec(&c[j]) by {
            assert(a[j].eq_spec(&b[j]));
            assert(b[j].eq_spec(&c[j]));
        }
    }
}

/// Inserting an item whose key is absent, then removing that key, gives
/// back the map as it was; the item is found by its key in between.
pub proof fn law_id_hash_remove_undoes_insert<T: IdHashItem>(
    before: &IdHashMap<T>,
    inserted: &IdHashMap<T>,
    removed: &IdHashMap<T>,
    v: T,
)
    requires
        before.wf(),
        !before@.contains_key(v.key_of()),
        inserted@ == before@.insert(v.key_of(), v),
        removed@ == inserted@.remove(v.key_of()),
    ensures
        inserted@.contains_key(v.key_of()) && inserted@[v.key_of()] == v,
        removed@ == before@,
{
    assert(removed@ =~= before@);
}

/// Inserting an item whose key is absent, then removing that key, gives
/// back the ordered map as it was.
pub proof fn law_id_ord_remove_undoes_insert<T: IdOrdItem>(
    before: &IdOrdMap<T>,
    inserted: &IdOrdMap<T>,
    removed: &IdOrdMap<T>,
    v: T,
)
    requires
        before.wf(),
        !before@.contains_key(v.key_of()),
        inserted@ == before@.insert(v.key_of(), v),
        removed@ == inserted@.remove(v.key_of()),
    ensures
        inserted@.contains_key(v.key_of()) && inserted@[v.key_of()] == v,
        removed@ == before@,
{
    assert(removed@ =~= before@);
}

/// Inserting an item whose keys are both absent, then removing it by its
/// first key, gives back the map as it was, seen from either key.
pub proof fn law_bi_remove_undoes_insert<T: BiHashItem>(
    before: &BiHashMap<T>,
    inserted: &BiHashMap<T>,
    removed: &BiHashMap<T>,
    v: T,
)
    requires
        before.wf(),
        !before@.contains_key(v.key1_of()),
        !before.by_key2().contains_key(v.key2_of()),
        inserted@ == before@.insert(v.key1_of(), v),
        inserted.by_key2() == before.by_key2().insert(v.key2_of(), v),
        removed@ == inserted@.remove(v.key1_of()),
        removed.by_key2() == inserted.by_key2().remove(inserted@[v.key1_of()].key2_of()),
    ensures
        removed@ == before@,
        removed.by_key2() == before.by_key2(),
{
    assert(removed@ =~= before@);
    assert(removed.by_key2() =~= before.by_key2());
}

/// After an overwriting insertion, the new item is found by each of its two
/// keys, and the map holds one item more than before less the items it
/// displaced.
pub proof fn law_bi_overwrite_reaches_both_keys<T: BiHashItem>(
    before: &BiHashMap<T>,
    after: &BiHashMap<T>,
    v: T,
)
    requires
        before.wf(),
        after@ == overwrite_by_key1(before@, before.by_key2(), v),
        after.by_key2() == overwrite_by_key2(before@, before.by_key2(), v),
    ensures
        after@.contains_key(v.key1_of()) && after@[v.key1_of()] == v,
        after.by_key2().contains_key(v.key2_of()) && after.by_key2()[v.key2_of()] == v,
        after@.len() + overwritten_items(before@, before.by_key2(), v).len() == before@.len() + 1,
{
    before.lemma_keys_agree();
    let m0 = before@;
    let by2 = before.by_key2();
    let k1 = v.key1_of();
    let k2 = v.key2_of();
    let m1 = m0.remove(k1);
    assert(m1.dom() =~= m0.dom().remove(k1));
    assert(m1.len() + (if m0.contains_key(k1) { 1int } else { 0int }) == m0.len());
    let displaced2 = by2.contains_key(k2) && by2[k2].key1_of() != k1;
    let m2 = if by2.contains_key(k2) {
        m1.remove(by2[k2].key1_of())
    } else {
        m1
    };
    if by2.contains_key(k2) {
        assert(m0.contains_key(by2[k2].key1_of()));
    }
    if by2.contains_key(k2) {
        assert(m2.dom() =~= m1.dom().remove(by2[k2].key1_of()));
    }
    assert(m2.len() + (if displaced2 { 1int } else { 0int }) == m1.len());
    assert(!m2.contains_key(k1));
    assert(after@ == m2.insert(k1, v));
    assert(after@.dom() =~= m2.dom().insert(k1));
    assert(after@.len() == m2.len() + 1);
}

/// Reversing an index map twice restores the order it started from.
pub proof fn law_index_reverse_twice<T: IdHashItem>(
    before: &IdIndexMap<T>,
    once: &IdIndexMap<T>,
    twice: &IdIndexMap<T>,
)
    requires
        once@ == before@.reverse(),
        twice@ == once@.reverse(),
    ensures
        twice@ == before@,
{
    assert(twice@ =~= before@);
}

/// Swapping the same two positions twice restores the order it started from.
pub proof fn law_index_swap_twice<T: IdHashItem>(
    before: &IdIndexMap<T>,
    once: &IdIndexMap<T>,
    twice: &IdIndexMap<T>,
    a: int,
    b: int,
)
    requires
        0 <= a < before@.len(),
        0 <= b < before@.len(),
        once@ == before@.update(a, before@[b]).update(b, before@[a]),
        twice@ == once@.update(a, once@[b]).update(b, once@[a]),
    ensures
        twice@ == before@,
{
    assert(twice@ =~= before@);
}

/// Moving an item from one position to another and back gives back the
/// order it started from.
pub proof fn law_index_move_back<T: IdHashItem>(
    before: &IdIndexMap<T>,
    moved: &IdIndexMap<T>,
    back: &IdIndexMap<T>,
    from: int,
    to: int,
)
    requires
        0 <= from < before@.len(),
        0 <= to < before@.len(),
        moved@ == before@.remove(from).insert(to, before@[from]),
        back@ == moved@.remove(to).insert(from, moved@[to]),
    ensures
        back@ == before@,
{
    assert(moved@[to] == before@[from]);
    assert(moved@.remove(to) =~= before@.remove(from));
    assert(back@ =~= before@);
}

/// Pushing an item and then removing the last position,
/// shifting nothing, gives back the map it started from.
pub proof fn law_index_remove_undoes_push<T: IdHashItem>(
    before: &IdIndexMap<T>,
    pushed: &IdIndexMap<T>,
    removed: &IdIndexMap<T>,
    v: T,
)
    requires
        pushed@ == before@.push(v),
        removed@ == pushed@.remove(before@.len() as int),
    ensures
        pushed@[before@.len() as int] == v,
        removed@ == before@,
{
    assert(removed@ =~= before@);
}

/// Two duplicate-free key lists that are disjoint and together hold exactly
/// the keys of a finite set are as long as the set together.
proof fn lemma_split_len(dom: Set<u64>, a: Seq<u64>, b: Seq<u64>)
    requires
        dom.finite(),
        a.no_duplicates(),
        b.no_duplicates(),
        forall|x: u64| dom.contains(x) <==> a.contains(x) || b.contains(x),
        forall|i: int, j: int| 0 <= i < a.len() && 0 <= j < b.len() ==> a[i] != b[j],
    ensures
        a.len() + b.len() == dom.len(),
{
    a.unique_seq_to_set();
    b.unique_seq_to_set();
    assert(dom =~= a.to_set() + b.to_set());
    assert(a.to_set().disjoint(b.to_set())) by {
        assert forall|x: u64| !(a.to_set().contains(x) && b.to_set().contains(x)) by {
            if a.contains(x) && b.contains(x) {
                let i = choose|i: int| 0 <= i < a.len() && a[i] == x;
                let j = choose|j: int| 0 <= j < b.len() && b[j] == x;
                assert(a[i] != b[j]);
            }
        }
    }
    vstd::set_lib::lemma_set_disjoint_lens(a.to_set(), b.to_set());
}

/// The unchanged and the modified items of a difference of two hash maps
/// split the keys both maps hold: each such key is listed by exactly one of
/// the two, once, when the items' `==` follows its specification.
pub proof fn law_id_hash_diff_splits_common<'daft, T: IdHashItem + PartialEq>(
    d: &id_hash_map::Diff<'daft, T>,
    unchanged: Seq<&'daft T>,
    modified: Seq<IdLeaf<&'daft T>>,
)
    requires
        d.wf(),
        T::obeys_eq_spec(),
        forall|j: int|
            0 <= j < unchanged.len() ==> d.common@.contains_key(#[trigger] unchanged[j].key_of())
                && d.common@[unchanged[j].key_of()].spec_before() == unchanged[j]
                && d.common@[unchanged[j].key_of()].spec_is_unchanged(),
        forall|a: int, b: int|
            0 <= a < unchanged.len() && 0 <= b < unchanged.len() && a != b
                ==> unchanged[a].key_of() != unchanged[b].key_of(),
        forall|k: u64| #[trigger]
            d.common@.contains_key(k) && d.common@[k].spec_is_unchanged() ==> exists|j: int|
                0 <= j < unchanged.len() && unchanged[j].key_of() == k,
        forall|j: int|
            0 <= j < modified.len() ==> d.common@.contains_key(#[trigger] modified[j].key_of())
                && d.common@[modified[j].key_of()] == modified[j] && !modified[j].spec_is_unchanged(),
        forall|a: int, b: int|
            0 <= a < modified.len() && 0 <= b < modified.len() && a != b
                ==> modified[a].key_of() != modified[b].key_of(),
        forall|k: u64| #[trigger]
            d.common@.contains_key(k) && !d.common@[k].spec_is_unchanged() ==> exists|j: int|
                0 <= j < modified.len() && modified[j].key_of() == k,
    ensures
        forall|k: u64|
            d.common@.contains_key(k) <==> (exists|j: int|
                0 <= j < unchanged.len() && unchanged[j].key_of() == k) || (exists|j: int|
                0 <= j < modified.len() && modified[j].key_of() == k),
        forall|i: int, j: int|
            0 <= i < unchanged.len() && 0 <= j < modified.len() ==> unchanged[i].key_of()
                != modified[j].key_of(),
        unchanged.len() + modified.len() == d.common@.len(),
{
    d.common.lemma_items_under_own_keys();
    let ku = Seq::new(unchanged.len(), |j: int| unchanged[j].key_of());
    let km = Seq::new(modified.len(), |j: int| modified[j].key_of());
    assert forall|i: int, j: int|
        0 <= i < unchanged.len() && 0 <= j < modified.len() implies unchanged[i].key_of()
        != modified[j].key_of() by {
        let k = unchanged[i].key_of();
        if k == modified[j].key_of() {
            assert(d.common@[k].spec_is_unchanged());
            assert(!modified[j].spec_is_unchanged());
        }
    }
    assert forall|x: u64| d.common@.dom().contains(x) <==> ku.contains(x) || km.contains(x) by {
        if d.common@.contains_key(x) {
            if d.common@[x].spec_is_unchanged() {
                let j = choose|j: int| 0 <= j < unchanged.len() && unchanged[j].key_of() == x;
                assert(ku[j] == x);
            } else {
                let j = choose|j: int| 0 <= j < modified.len() && modified[j].key_of() == x;
                assert(km[j] == x);
            }
        }
        if ku.contains(x) {
            let j = choose|j: int| 0 <= j < ku.len() && ku[j] == x;
            assert(d.common@.contains_key(unchanged[j].key_of()));
        }
        if km.contains(x) {
            let j = choose|j: int| 0 <= j < km.len() && km[j] == x;
            assert(d.common@.contains_key(modified[j].key_of()));
        }
    }
    assert forall|k: u64|
        d.common@.contains_key(k) <==> (exists|j: int|
            0 <= j < unchanged.len() && unchanged[j].key_of() == k) || (exists|j: int|
            0 <= j < modified.len() && modified[j].key_of() == k) by {
        assert(d.common@.dom().contains(k) <==> ku.contains(k) || km.contains(k));
        if ku.contains(k) {
            let j = choose|j: int| 0 <= j < ku.len() && ku[j] == k;
            assert(unchanged[j].key_of() == k);
        }
        if km.contains(k) {
            let j = choose|j: int| 0 <= j < km.len() && km[j] == k;
            assert(modified[j].key_of() == k);
        }
        if exists|j: int| 0 <= j < unchanged.len() && unchanged[j].key_of() == k {
            let j = choose|j: int| 0 <= j < unchanged.len() && unchanged[j].key_of() == k;
            assert(ku[j] == k);
        }
        if exists|j: int| 0 <= j < modified.len() && modified[j].key_of() == k {
            let j = choose|j: int| 0 <= j < modified.len() && modified[j].key_of() == k;
            assert(km[j] == k);
        }
    }
    assert(ku.no_duplicates());
    assert(km.no_duplicates());
    lemma_split_len(d.common@.dom(), ku, km);
}

/// The unchanged and the modified items of a difference of two maps with two
/// keys split the first keys both maps hold: each such key is listed by
/// exactly one of the two, once, when the items' `==` follows its
/// specification.
pub proof fn law_bi_diff_splits_common<'daft, T: BiHashItem + PartialEq>(
    d: &bi_hash_map::Diff<'daft, T>,
    unchanged: Seq<&'daft T>,
    modified: Seq<IdLeaf<&'daft T>>,
)
    requires
        d.wf(),
        T::obeys_eq_spec(),
        forall|j: int|
            0 <= j < unchanged.len() ==> d.common@.contains_key(#[trigger] unchanged[j].key1_of())
                && d.common@[unchanged[j].key1_of()].spec_before() == unchanged[j]
                && d.common@[unchanged[j].key1_of()].spec_is_unchanged(),
        forall|a: int, b: int|
            0 <= a < unchanged.len() && 0 <= b < unchanged.len() && a != b
                ==> unchanged[a].key1_of() != unchanged[b].key1_of(),
        forall|k: u64| #[trigger]
            d.common@.contains_key(k) && d.common@[k].spec_is_unchanged() ==> exists|j: int|
                0 <= j < unchanged.len() && unchanged[j].key1_of() == k,
        forall|j: int|
            0 <= j < modified.len() ==> d.common@.contains_key(#[trigger] modified[j].key1_of())
                && d.common@[modified[j].key1_of()] == modified[j] && !modified[j].spec_is_unchanged(),
        forall|a: int, b: int|
            0 <= a < modified.len() && 0 <= b < modified.len() && a != b
                ==> modified[a].key1_of() != modified[b].key1_of(),
        forall|k: u64| #[trigger]
            d.common@.contains_key(k) && !d.common@[k].spec_is_unchanged() ==> exists|j: int|
                0 <= j < modified.len() && modified[j].key1_of() == k,
    ensures
        forall|k: u64|
            d.common@.contains_key(k) <==> (exists|j: int|
                0 <= j < unchanged.len() && unchanged[j].key1_of() == k) || (exists|j: int|
                0 <= j < modified.len() && modified[j].key1_of() == k),
        forall|i: int, j: int|
            0 <= i < unchanged.len() && 0 <= j < modified.len() ==> unchanged[i].key1_of()
                != modified[j].key1_of(),
        unchanged.len() + modified.len() == d.common@.len(),
{
    d.common.lemma_keys_agree();
    let ku = Seq::new(unchanged.len(), |j: int| unchanged[j].key1_of());
    let km = Seq::new(modified.len(), |j: int| modified[j].key1_of());
    assert forall|i: int, j: int|
        0 <= i < unchanged.len() && 0 <= j < modified.len() implies unchanged[i].key1_of()
        != modified[j].key1_of() by {
        let k = unchanged[i].key1_of();
        if k == modified[j].key1_of() {
            assert(d.common@[k].spec_is_unchanged());
            assert(!modified[j].spec_is_unchanged());
        }
    }
    assert forall|x: u64| d.common@.dom().contains(x) <==> ku.contains(x) || km.contains(x) by {
        if d.common@.contains_key(x) {
            if d.common@[x].spec_is_unchanged() {
                let j = choose|j: int| 0 <= j < unchanged.len() && unchanged[j].key1_of() == x;
                assert(ku[j] == x);
            } else {
                let j = choose|j: int| 0 <= j < modified.len() && modified[j].key1_of() == x;
                assert(km[j] == x);
            }
        }
        if ku.contains(x) {
            let j = choose|j: int| 0 <= j < ku.len() && ku[j] == x;
            assert(d.common@.contains_key(unchanged[j].key1_of()));
        }
        if km.contains(x) {
            let j = choose|j: int| 0 <= j < km.len() && km[j] == x;
            assert(d.common@.contains_key(modified[j].key1_of()));
        }
    }
    assert forall|k: u64|
        d.common@.contains_key(k) <==> (exists|j: int|
            0 <= j < unchanged.len() && unchanged[j].key1_of() == k) || (exists|j: int|
            0 <= j < modified.len() && modified[j].key1_of() == k) by {
        assert(d.common@.dom().contains(k) <==> ku.contains(k) || km.contains(k));
        if ku.contains(k) {
            let j = choose|j: int| 0 <= j < ku.len() && ku[j] == k;
            assert(unchanged[j].key1_of() == k);
        }
        if km.contains(k) {
            let j = choose|j: int| 0 <= j < km.len() && km[j] == k;
            assert(modified[j].key1_of() == k);
        }
        if exists|j: int| 0 <= j < unchanged.len() && unchanged[j].key1_of() == k {
            let j = choose|j: int| 0 <= j < unchanged.len() && unchanged[j].key1_of() == k;
            assert(ku[j] == k);
        }
        if exists|j: int| 0 <= j < modified.len() && modified[j].key1_of() == k {
            let j = choose|j: int| 0 <= j < modified.len() && modified[j].key1_of() == k;
            assert(km[j] == k);
        }
    }
    assert(ku.no_duplicates());
    assert(km.no_duplicates());
    lemma_split_len(d.common@.dom(), ku, km);
}

proof fn ord_last_wins<T: IdOrdItem>(m: Map<u64, T>, s: Seq<T>, i: int)
    requires
        0 <= i < s.len(),
        forall|j: int| i < j < s.len() ==> s[j].key_of() != s[i].key_of(),
    ensures
        ord_overwrite_all(m, s).contains_key(s[i].key_of()),
        ord_overwrite_all(m, s)[s[i].key_of()] == s[i],
    decreases s.len(),
{
    let t = s.drop_last();
    if i < s.len() - 1 {
        assert(s[s.len() - 1].key_of() != s[i].key_of());
        assert(t[i] == s[i]);
        assert forall|j: int| i < j < t.len() implies t[j].key_of() != t[i].key_of() by {
            assert(t[j] == s[j]);
        }
        ord_last_wins(m, t, i);
    }
}

proof fn ord_untouched<T: IdOrdItem>(m: Map<u64, T>, s: Seq<T>, k: u64)
    requires
        forall|j: int| 0 <= j < s.len() ==> s[j].key_of() != k,
    ensures
        ord_overwrite_all(m, s).contains_key(k) <==> m.contains_key(k),
        m.contains_key(k) ==> ord_overwrite_all(m, s)[k] == m[k],
    decreases s.len(),
{
    if s.len() > 0 {
        let t = s.drop_last();
        assert(s[s.len() - 1].key_of() != k);
        assert forall|j: int| 0 <= j < t.len() implies t[j].key_of() != k by {
            assert(t[j] == s[j]);
        }
        ord_untouched(m, t, k);
    }
}

proof fn ord_no_new_keys<T: IdOrdItem>(m: Map<u64, T>, s: Seq<T>, k: u64)
    requires
        ord_overwrite_all(m, s).contains_key(k),
    ensures
        m.contains_key(k) || exists|j: int| 0 <= j < s.len() && s[j].key_of() == k,
    decreases s.len(),
{
    if s.len() > 0 {
        let t = s.drop_last();
        if k == s.last().key_of() {
            assert(s[s.len() - 1].key_of() == k);
        } else {
            ord_no_new_keys(m, t, k);
            if !m.contains_key(k) {
                let j = choose|j: int| 0 <= j < t.len() && t[j].key_of() == k;
                assert(s[j] == t[j]);
            }
        }
    }
}

/// Inserting the items of `s` one after another, each in place of an item
/// with its key, leaves under the key of an item of `s` the last item of
/// `s` with that key; keeps every key that no item of `s` has as it was; and
/// adds no key that neither the map nor `s` has.
pub proof fn law_ord_extend_last_wins<T: IdOrdItem>(m: Map<u64, T>, s: Seq<T>)
    ensures
        forall|i: int|
            #![trigger s[i]]
            0 <= i < s.len() && (forall|j: int| i < j < s.len() ==> s[j].key_of() != s[i].key_of())
                ==> ord_overwrite_all(m, s).contains_key(s[i].key_of()) && ord_overwrite_all(m, s)[s[i].key_of()] == s[i],
        forall|k: u64|
            #![trigger ord_overwrite_all(m, s).contains_key(k)]
            (forall|j: int| 0 <= j < s.len() ==> s[j].key_of() != k) ==> (ord_overwrite_all(
                m,
                s,
            ).contains_key(k) <==> m.contains_key(k)) && (m.contains_key(k) ==> ord_overwrite_all(m, s)[k]
                == m[k]),
        forall|k: u64|
            #[trigger] ord_overwrite_all(m, s).contains_key(k) ==> m.contains_key(k) || exists|j: int|
                0 <= j < s.len() && s[j].key_of() == k,
{
    assert forall|i: int|
        0 <= i < s.len() && (forall|j: int| i < j < s.len() ==> s[j].key_of() != s[i].key_of())
            implies ord_overwrite_all(m, s).contains_key(s[i].key_of()) && ord_overwrite_all(m, s)[s[i].key_of()]
            == s[i] by {
        ord_last_wins(m, s, i);
    }
    assert forall|k: u64|
        #![trigger ord_overwrite_all(m, s).contains_key(k)]
        (forall|j: int| 0 <= j < s.len() ==> s[j].key_of() != k) implies (ord_overwrite_all(
            m,
            s,
        ).contains_key(k) <==> m.contains_key(k)) && (m.contains_key(k) ==> ord_overwrite_all(m, s)[k]
            == m[k]) by {
        ord_untouched(m, s, k);
    }
    assert forall|k: u64| #[trigger] ord_overwrite_all(m, s).contains_key(k) implies m.contains_key(k)
        || exists|j: int| 0 <= j < s.len() && s[j].key_of() == k by {
        ord_no_new_keys(m, s, k);
    }
}

proof fn btree_last_wins<T: IdBTreeMapEntry>(m: Map<u64, T>, s: Seq<T>, i: int)
    requires
        0 <= i < s.len(),
        forall|j: int| i < j < s.len() ==> s[j].key_of() != s[i].key_of(),
    ensures
        btree_overwrite_all(m, s).contains_key(s[i].key_of()),
        btree_overwrite_all(m, s)[s[i].key_of()] == s[i],
    decreases s.len(),
{
    let t = s.drop_last();
    if i < s.len() - 1 {
        assert(s[s.len() - 1].key_of() != s[i].key_of());
        assert(t[i] == s[i]);
        assert forall|j: int| i < j < t.len() implies t[j].key_of() != t[i].key_of() by {
            assert(t[j] == s[j]);
        }
        btree_last_wins(m, t, i);
    }
}

proof fn btree_untouched<T: IdBTreeMapEntry>(m: Map<u64, T>, s: Seq<T>, k: u64)
    requires
        forall|j: int| 0 <= j < s.len() ==> s[j].key_of() != k,
    ensures
        btree_overwrite_all(m, s).contains_key(k) <==> m.contains_key(k),
        m.contains_key(k) ==> btree_overwrite_all(m, s)[k] == m[k],
    decreases s.len(),
{
    if s.len() > 0 {
        let t = s.drop_last();
        assert(s[s.len() - 1].key_of() != k);
        assert forall|j: int| 0 <= j < t.len() implies t[j].key_of() != k by {
            assert(t[j] == s[j]);
        }
        btree_untouched(m, t, k);
    }
}

proof fn btree_no_new_keys<T: IdBTreeMapEntry>(m: Map<u64, T>, s: Seq<T>, k: u64)
    requires
        btree_overwrite_all(m, s).contains_key(k),
    ensures
        m.contains_key(k) || exists|j: int| 0 <= j < s.len() && s[j].key_of() == k,
    decreases s.len(),
{
    if s.len() > 0 {
        let t = s.drop_last();
        if k == s.last().key_of() {
            assert(s[s.len() - 1].key_of() == k);
        } else {
            btree_no_new_keys(m, t, k);
            if !m.contains_key(k) {
                let j = choose|j: int| 0 <= j < t.len() && t[j].key_of() == k;
                assert(s[j] == t[j]);
            }
        }
    }
}

/// Inserting the items of `s` one after another, each in place of an item
/// with its key, leaves under the key of an item of `s` the last item of
/// `s` with that key; keeps every key that no item of `s` has as it was; and
/// adds no key that neither the map nor `s` has.
pub proof fn law_btree_extend_last_wins<T: IdBTreeMapEntry>(m: Map<u64, T>, s: Seq<T>)
    ensures
        forall|i: int|
            #![trigger s[i]]
            0 <= i < s.len() && (forall|j: int| i < j < s.len() ==> s[j].key_of() != s[i].key_of())
                ==> btree_overwrite_all(m, s).contains_key(s[i].key_of()) && btree_overwrite_all(m, s)[s[i].key_of()] == s[i],
        forall|k: u64|
            #![trigger btree_overwrite_all(m, s).contains_key(k)]
            (forall|j: int| 0 <= j < s.len() ==> s[j].key_of() != k) ==> (btree_overwrite_all(
                m,
                s,
            ).contains_key(k) <==> m.contains_key(k)) && (m.contains_key(k) ==> btree_overwrite_all(m, s)[k]
                == m[k]),
        forall|k: u64|
            #[trigger] btree_overwrite_all(m, s).contains_key(k) ==> m.contains_key(k) || exists|j: int|
                0 <= j < s.len() && s[j].key_of() == k,
{
    assert forall|i: int|
        0 <= i < s.len() && (forall|j: int| i < j < s.len() ==> s[j].key_of() != s[i].key_of())
            implies btree_overwrite_all(m, s).contains_key(s[i].key_of()) && btree_overwrite_all(m, s)[s[i].key_of()]
            == s[i] by {
        btree_last_wins(m, s, i);
    }
    assert forall|k: u64|
        #![trigger btree_overwrite_all(m, s).contains_key(k)]
        (forall|j: int| 0 <= j < s.len() ==> s[j].key_of() != k) implies (btree_overwrite_all(
            m,
            s,
        ).contains_key(k) <==> m.contains_key(k)) && (m.contains_key(k) ==> btree_overwrite_all(m, s)[k]
            == m[k]) by {
        btree_untouched(m, s, k);
    }
    assert forall|k: u64| #[trigger] btree_overwrite_all(m, s).contains_key(k) implies m.contains_key(k)
        || exists|j: int| 0 <= j < s.len() && s[j].key_of() == k by {
        btree_no_new_keys(m, s, k);
    }
}

proof fn id_hash_last_wins<T: IdHashItem>(m: Map<u64, T>, s: Seq<T>, i: int)
    requires
        0 <= i < s.len(),
        forall|j: int| i < j < s.len() ==> s[j].key_of() != s[i].key_of(),
    ensures
        overwrite_all(m, s).contains_key(s[i].key_of()),
        overwrite_all(m, s)[s[i].key_of()] == s[i],
    decreases s.len(),
{
    let t = s.drop_last();
    if i < s.len() - 1 {
        assert(s[s.len() - 1].key_of() != s[i].key_of());
        assert(t[i] == s[i]);
        assert forall|j: int| i < j < t.len() implies t[j].key_of() != t[i].key_of() by {
            assert(t[j] == s[j]);
        }
        id_hash_last_wins(m, t, i);
    }
}

proof fn id_hash_untouched<T: IdHashItem>(m: Map<u64, T>, s: Seq<T>, k: u64)
    requires
        forall|j: int| 0 <= j < s.len() ==> s[j].key_of() != k,
    ensures
        overwrite_all(m, s).contains_key(k) <==> m.contains_key(k),
        m.contains_key(k) ==> overwrite_all(m, s)[k] == m[k],
    decreases s.len(),
{
    if s.len() > 0 {
        let t = s.drop_last();
        assert(s[s.len() - 1].key_of() != k);
        assert forall|j: int| 0 <= j < t.len() implies t[j].key_of() != k by {
            assert(t[j] == s[j]);
        }
        id_hash_untouched(m, t, k);
    }
}

proof fn id_hash_no_new_keys<T: IdHashItem>(m: Map<u64, T>, s: Seq<T>, k: u64)
    requires
        overwrite_all(m, s).contains_key(k),
    ensures
        m.contains_key(k) || exists|j: int| 0 <= j < s.len() && s[j].key_of() == k,
    decreases s.len(),
{
    if s.len() > 0 {
        let t = s.drop_last();
        if k == s.last().key_of() {
            assert(s[s.len() - 1].key_of() == k);
        } else {
            id_hash_no_new_keys(m, t, k);
            if !m.contains_key(k) {
                let j = choose|j: int| 0 <= j < t.len() && t[j].key_of() == k;
                assert(s[j] == t[j]);
            }
        }
    }
}

/// Inserting the items of `s` one after another, each in place of an item
/// with its key, leaves under the key of an item of `s` the last item of
/// `s` with that key; keeps every key that no item of `s` has as it was; and
/// adds no key that neither the map nor `s` has.
pub proof fn law_id_hash_extend_last_wins<T: IdHashItem>(m: Map<u64, T>, s: Seq<T>)
    ensures
        forall|i: int|
            #![trigger s[i]]
            0 <= i < s.len() && (forall|j: int| i < j < s.len() ==> s[j].key_of() != s[i].key_of())
                ==> overwrite_all(m, s).contains_key(s[i].key_of()) && overwrite_all(m, s)[s[i].key_of()] == s[i],
        forall|k: u64|
            #![trigger overwrite_all(m, s).contains_key(k)]
            (forall|j: int| 0 <= j < s.len() ==> s[j].key_of() != k) ==> (overwrite_all(
                m,
                s,
            ).contains_key(k) <==> m.contains_key(k)) && (m.contains_key(k) ==> overwrite_all(m, s)[k]
                == m[k]),
        forall|k: u64|
            #[trigger] overwrite_all(m, s).contains_key(k) ==> m.contains_key(k) || exists|j: int|
                0 <= j < s.len() && s[j].key_of() == k,
{
    assert forall|i: int|
        0 <= i < s.len() && (forall|j: int| i < j < s.len() ==> s[j].key_of() != s[i].key_of())
            implies overwrite_all(m, s).contains_key(s[i].key_of()) && overwrite_all(m, s)[s[i].key_of()]
            == s[i] by {
        id_hash_last_wins(m, s, i);
    }
    assert forall|k: u64|
        #![trigger overwrite_all(m, s).contains_key(k)]
        (forall|j: int| 0 <= j < s.len() ==> s[j].key_of() != k) implies (overwrite_all(
            m,
            s,
        ).contains_key(k) <==> m.contains_key(k)) && (m.contains_key(k) ==> overwrite_all(m, s)[k]
            == m[k]) by {
        id_hash_untouched(m, s, k);
    }
    assert forall|k: u64| #[trigger] overwrite_all(m, s).contains_key(k) implies m.contains_key(k)
        || exists|j: int| 0 <= j < s.len() && s[j].key_of() == k by {
        id_hash_no_new_keys(m, s, k);
    }
}

/// Comparing ordered maps compares their listings position by position:
/// equal listings have the same length and items that `==` considers equal
/// at every position, and conversely.
pub proof fn law_pairwise_eq_items<T: PartialEq>(a: Seq<T>, b: Seq<T>)
    ensures
        pairwise_eq(a, b) <==> a.len() == b.len() && forall|j: int|
            0 <= j < a.len() ==> (#[trigger] a[j]).eq_spec(&b[j]),
{
}

/// Comparing B-tree maps compares their listings position by position:
/// equal listings have the same length and items that `==` considers equal
/// at every position, and conversely.
pub proof fn law_btree_pairwise_eq_items<T: PartialEq>(a: Seq<T>, b: Seq<T>)
    ensures
        btree_pairwise_eq(a, b) <==> a.len() == b.len() && forall|j: int|
            0 <= j < a.len() ==> (#[trigger] a[j]).eq_spec(&b[j]),
{
}

/// Hash maps are equal when they hold the same keys with items that `==`
/// considers equal under each key.
pub proof fn law_views_match_by_keys<T: PartialEq>(a: Map<u64, T>, b: Map<u64, T>)
    ensures
        views_match(a, b) <==> a.dom() == b.dom() && forall|k: u64|
            #[trigger] a.contains_key(k) ==> a[k].eq_spec(&b[k]),
{
}

/// Maps with two keys are equal when they hold the same first keys with
/// items that have the same second key and that `==` considers equal.
pub proof fn law_bi_views_match_by_keys<T: BiHashItem + PartialEq>(a: Map<u64, T>, b: Map<u64, T>)
    ensures
        bi_views_match(a, b) <==> a.dom() == b.dom() && forall|k: u64|
            #[trigger] a.contains_key(k) ==> a[k].key2_of() == b[k].key2_of() && a[k].eq_spec(&b[k]),
{
}

/// A reference, a box and a shared pointer to an ordered item have the key
/// of the item they point to.
pub proof fn law_ord_item_pointer_keys<T: IdOrdItem>(r: &T, b: Box<T>, rc: Rc<T>, arc: Arc<T>)
    ensures
        <&T as IdOrdItem>::key_of(&r) == <T as IdOrdItem>::key_of(r),
        <Box<T> as IdOrdItem>::key_of(&b) == <T as IdOrdItem>::key_of(&*b),
        <Rc<T> as IdOrdItem>::key_of(&rc) == <T as IdOrdItem>::key_of(&*rc),
        <Arc<T> as IdOrdItem>::key_of(&arc) == <T as IdOrdItem>::key_of(&*arc),
{
}

/// A reference, a box and a shared pointer to a B-tree item have the key of
/// the item they point to.
pub proof fn law_btree_item_pointer_keys<T: IdBTreeMapEntry>(r: &T, b: Box<T>, rc: Rc<T>, arc: Arc<T>)
    ensures
        <&T as IdBTreeMapEntry>::key_of(&r) == <T as IdBTreeMapEntry>::key_of(r),
        <Box<T> as IdBTreeMapEntry>::key_of(&b) == <T as IdBTreeMapEntry>::key_of(&*b),
        <Rc<T> as IdBTreeMapEntry>::key_of(&rc) == <T as IdBTreeMapEntry>::key_of(&*rc),
        <Arc<T> as IdBTreeMapEntry>::key_of(&arc) == <T as IdBTreeMapEntry>::key_of(&*arc),
{
}

/// A reference to a hash item, and a before-and-after pair of hash items,
/// have the key of the item pointed to, and of the item before.
pub proof fn law_hash_item_pointer_keys<T: IdHashItem>(r: &T, leaf: IdLeaf<T>)
    ensures
        <&T as IdHashItem>::key_of(&r) == <T as IdHashItem>::key_of(r),
        <IdLeaf<T> as IdHashItem>::key_of(&leaf) == <T as IdHashItem>::key_of(&leaf.spec_before()),
{
}

/// A reference to an item with two keys, and a before-and-after pair of
/// such items, have both keys of the item pointed to, and of the item
/// before.
pub proof fn law_bi_item_pointer_keys<T: BiHashItem>(r: &T, leaf: IdLeaf<T>)
    ensures
        <&T as BiHashItem>::key1_of(&r) == <T as BiHashItem>::key1_of(r),
        <&T as BiHashItem>::key2_of(&r) == <T as BiHashItem>::key2_of(r),
        <IdLeaf<T> as BiHashItem>::key1_of(&leaf) == <T as BiHashItem>::key1_of(&leaf.spec_before()),
        <IdLeaf<T> as BiHashItem>::key2_of(&leaf) == <T as BiHashItem>::key2_of(&leaf.spec_before()),
{
}

/// Records are keyed by their index, in hash maps and in ordered maps.
pub proof fn law_record_keys(
    a: RecordOwnedU32,
    b: RecordBorrowedU32,
    c: RecordLargeOwnedU32,
    d: RecordLargeBorrowedU32,
)
    ensures
        <RecordOwnedU32 as IdHashItem>::key_of(&a) == a.index as u64,
        <RecordOwnedU32 as IdOrdItem>::key_of(&a) == a.index as u64,
        <RecordBorrowedU32 as IdHashItem>::key_of(&b) == b.index as u64,
        <RecordBorrowedU32 as IdOrdItem>::key_of(&b) == b.index as u64,
        <RecordLargeOwnedU32 as IdHashItem>::key_of(&c) == c.index as u64,
        <RecordLargeOwnedU32 as IdOrdItem>::key_of(&c) == c.index as u64,
        <RecordLargeBorrowedU32 as IdHashItem>::key_of(&d) == d.index as u64,
        <RecordLargeBorrowedU32 as IdOrdItem>::key_of(&d) == d.index as u64,
{
}

/// A mutable reference to an ordered item, or to a B-tree item, has the key
/// of the item it points to.
pub proof fn law_mut_ref_keys<T: IdOrdItem + IdBTreeMapEntry>(m: &mut T)
    ensures
        <&mut T as IdOrdItem>::key_of(&old(m)) == <T as IdOrdItem>::key_of(&*old(m)),
        <&mut T as IdBTreeMapEntry>::key_of(&old(m)) == <T as IdBTreeMapEntry>::key_of(&*old(m)),
{
}

proof fn index_position_facts<T: IdHashItem>(r: Seq<T>, k: u64)
    ensures
        match position_of(r, k) {
            Some(q) => 0 <= q < r.len() && r[q].key_of() == k,
            None => forall|j: int| 0 <= j < r.len() ==> r[j].key_of() != k,
        },
{
}

proof fn index_extend_keeps<T: IdHashItem>(s0: Seq<T>, s: Seq<T>, i: int)
    requires
        0 <= i < s.len(),
        forall|j: int| i < j < s.len() ==> s[j].key_of() != s[i].key_of(),
    ensures
        index_overwrite_all(s0, s).contains(s[i]),
    decreases s.len(),
{
    let t = s.drop_last();
    let v = s.last();
    let r = index_overwrite_all(s0, t);
    let out = index_overwrite_all(s0, s);
    assert(out == index_overwrite(r, v));
    index_position_facts(r, v.key_of());
    if i == s.len() - 1 {
        match position_of(r, v.key_of()) {
            Some(q) => {
                assert(out[q] == s[i]);
            },
            None => {
                assert(out[r.len() as int] == s[i]);
            },
        }
    } else {
        assert(t[i] == s[i]);
        assert forall|j: int| i < j < t.len() implies t[j].key_of() != t[i].key_of() by {
            assert(t[j] == s[j]);
        }
        index_extend_keeps(s0, t, i);
        let p = choose|p: int| 0 <= p < r.len() && r[p] == t[i];
        assert(v.key_of() != s[i].key_of());
        match position_of(r, v.key_of()) {
            Some(q) => {
                assert(q != p);
                assert(out[p] == s[i]);
            },
            None => {
                assert(out[p] == s[i]);
            },
        }
    }
}

proof fn index_extend_untouched<T: IdHashItem>(s0: Seq<T>, s: Seq<T>, p: int)
    requires
        0 <= p < s0.len(),
        forall|j: int| 0 <= j < s.len() ==> s[j].key_of() != s0[p].key_of(),
    ensures
        index_overwrite_all(s0, s).len() >= s0.len(),
        index_overwrite_all(s0, s)[p] == s0[p],
    decreases s.len(),
{
    if s.len() > 0 {
        let t = s.drop_last();
        let v = s.last();
        assert forall|j: int| 0 <= j < t.len() implies t[j].key_of() != s0[p].key_of() by {
            assert(t[j] == s[j]);
        }
        index_extend_untouched(s0, t, p);
        let r = index_overwrite_all(s0, t);
        assert(s[s.len() - 1].key_of() != s0[p].key_of());
        match position_of(r, v.key_of()) {
            Some(q) => {
                assert(r[q].key_of() == v.key_of());
                assert(q != p);
            },
            None => {},
        }
    }
}

/// Inserting the items of `s` one after another into an index map, each in
/// place of the item with its key or at the end, leaves every item of `s`
/// that no later item shares a key with somewhere in the map, and leaves
/// every old item whose key no item of `s` has at its old position.
pub proof fn law_index_extend_last_wins<T: IdHashItem>(s0: Seq<T>, s: Seq<T>)
    ensures
        forall|i: int|
            #![trigger s[i]]
            0 <= i < s.len() && (forall|j: int| i < j < s.len() ==> s[j].key_of() != s[i].key_of())
                ==> index_overwrite_all(s0, s).contains(s[i]),
        forall|p: int|
            #![trigger s0[p]]
            0 <= p < s0.len() && (forall|j: int| 0 <= j < s.len() ==> s[j].key_of() != s0[p].key_of())
                ==> p < index_overwrite_all(s0, s).len() && index_overwrite_all(s0, s)[p] == s0[p],
{
    assert forall|i: int|
        #![trigger s[i]]
        0 <= i < s.len() && (forall|j: int| i < j < s.len() ==> s[j].key_of() != s[i].key_of())
            implies index_overwrite_all(s0, s).contains(s[i]) by {
        index_extend_keeps(s0, s, i);
    }
    assert forall|p: int|
        #![trigger s0[p]]
        0 <= p < s0.len() && (forall|j: int| 0 <= j < s.len() ==> s[j].key_of() != s0[p].key_of())
            implies p < index_overwrite_all(s0, s).len() && index_overwrite_all(s0, s)[p] == s0[p] by {
        index_extend_untouched(s0, s, p);
    }
}

/// Inserting the items of `s` one after another into a map with two keys,
/// each displacing the items it conflicts with, leaves the last item found
/// by both of its keys.
pub proof fn law_bi_extend_last_wins<T: BiHashItem>(m1: Map<u64, T>, m2: Map<u64, T>, s: Seq<T>)
    requires
        s.len() > 0,
    ensures
        bi_overwrite_all(m1, m2, s).0.contains_key(s.last().key1_of()),
        bi_overwrite_all(m1, m2, s).0[s.last().key1_of()] == s.last(),
        bi_overwrite_all(m1, m2, s).1.contains_key(s.last().key2_of()),
        bi_overwrite_all(m1, m2, s).1[s.last().key2_of()] == s.last(),
{
}

/// Extending an ordered map by nothing leaves it as it was, and extending it
/// by one more item `v` inserts `v` under its key into what the earlier
/// items gave, replacing any item stored there.
pub proof fn law_ord_extend_steps<T: IdOrdItem>(m: Map<u64, T>, s: Seq<T>, v: T)
    ensures
        ord_overwrite_all(m, Seq::empty()) == m,
        ord_overwrite_all(m, s.push(v)) == ord_overwrite_all(m, s).insert(v.key_of(), v),
        ord_overwrite_all(m, s.push(v)).contains_key(v.key_of()),
        ord_overwrite_all(m, s.push(v))[v.key_of()] == v,
{
    assert(s.push(v).drop_last() =~= s);
}

/// Extending a B-tree map by nothing leaves it as it was, and extending it
/// by one more item `v` inserts `v` under its key into what the earlier
/// items gave, replacing any item stored there.
pub proof fn law_btree_extend_steps<T: IdBTreeMapEntry>(m: Map<u64, T>, s: Seq<T>, v: T)
    ensures
        btree_overwrite_all(m, Seq::empty()) == m,
        btree_overwrite_all(m, s.push(v)) == btree_overwrite_all(m, s).insert(v.key_of(), v),
        btree_overwrite_all(m, s.push(v)).contains_key(v.key_of()),
        btree_overwrite_all(m, s.push(v))[v.key_of()] == v,
{
    assert(s.push(v).drop_last() =~= s);
}

/// Extending a hash map by nothing leaves it as it was, and extending it by
/// one more item `v` inserts `v` under its key into what the earlier items
/// gave, replacing any item stored there.
pub proof fn law_id_hash_extend_steps<T: IdHashItem>(m: Map<u64, T>, s: Seq<T>, v: T)
    ensures
        overwrite_all(m, Seq::empty()) == m,
        overwrite_all(m, s.push(v)) == overwrite_all(m, s).insert(v.key_of(), v),
        overwrite_all(m, s.push(v)).contains_key(v.key_of()),
        overwrite_all(m, s.push(v))[v.key_of()] == v,
{
    assert(s.push(v).drop_last() =~= s);
}

} // verus!

