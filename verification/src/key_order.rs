//! Sequences of items in increasing key order.

use vstd::prelude::*;
use vstd::std_specs::cmp::OrdSpec;

verus! {

/// `s` lists the items of `m` in increasing key order: each once, every
/// one, keys strictly increasing.
pub open spec fn lists_in_key_order<T>(s: Seq<T>, m: Map<u64, T>, key: spec_fn(T) -> u64) -> bool {
    &&& s.len() == m.len()
    &&& forall|j: int| 0 <= j < s.len() ==> m.contains_key(key(#[trigger] s[j])) && m[key(s[j])] == s[j]
    &&& forall|a: int, b: int| 0 <= a < b < s.len() ==> key(s[a]) < key(s[b])
}

/// A sequence of keys that a B-tree iterates is strictly increasing.
pub proof fn lemma_increasing_keys(keys: Seq<u64>)
    requires
        vstd::std_specs::btree::increasing_seq(keys),
    ensures
        forall|a: int, b: int| 0 <= a < b < keys.len() ==> keys[a] < keys[b],
{
    assert(vstd::laws_cmp::obeys_cmp::<u64>());
    assert forall|a: int, b: int| 0 <= a < b < keys.len() implies keys[a] < keys[b] by {
        assert(keys[a].cmp_spec(&keys[b]) is Less);
    }
}

/// The keys of `s`, in order.
pub open spec fn keys_of<T>(s: Seq<T>, key: spec_fn(T) -> u64) -> Seq<u64> {
    s.map_values(|t: T| key(t))
}

proof fn lemma_increasing_keys_unique(a: Seq<u64>, b: Seq<u64>)
    requires
        forall|i: int, j: int| 0 <= i < j < a.len() ==> a[i] < a[j],
        forall|i: int, j: int| 0 <= i < j < b.len() ==> b[i] < b[j],
        a.to_set() == b.to_set(),
    ensures
        a == b,
    decreases a.len(),
{
    if a.len() == 0 {
        if b.len() > 0 {
            assert(b.to_set().contains(b[0]));
            assert(!a.to_set().contains(b[0]));
        }
        assert(a =~= b);
    } else if b.len() == 0 {
        assert(a.to_set().contains(a[0]));
        assert(!b.to_set().contains(a[0]));
    } else {
        let la = a.last();
        let lb = b.last();
        assert(a.to_set().contains(la));
        assert(b.to_set().contains(lb));
        assert(b.to_set().contains(la));
        assert(a.to_set().contains(lb));
        let ia = choose|i: int| 0 <= i < b.len() && b[i] == la;
        let ib = choose|i: int| 0 <= i < a.len() && a[i] == lb;
        assert(la <= lb) by {
            if ia < b.len() - 1 {
            }
        }
        assert(lb <= la) by {
            if ib < a.len() - 1 {
            }
        }
        let a2 = a.drop_last();
        let b2 = b.drop_last();
        assert forall|x: u64| a2.to_set().contains(x) implies b2.to_set().contains(x) by {
            let i = choose|i: int| 0 <= i < a2.len() && a2[i] == x;
            assert(a[i] == x);
            assert(x < la);
            assert(b.to_set().contains(x));
            let k = choose|k: int| 0 <= k < b.len() && b[k] == x;
            assert(k != b.len() - 1);
            assert(b2[k] == x);
        }
        assert forall|x: u64| b2.to_set().contains(x) implies a2.to_set().contains(x) by {
            let i = choose|i: int| 0 <= i < b2.len() && b2[i] == x;
            assert(b[i] == x);
            assert(x < lb);
            assert(a.to_set().contains(x));
            let k = choose|k: int| 0 <= k < a.len() && a[k] == x;
            assert(k != a.len() - 1);
            assert(a2[k] == x);
        }
        assert(a2.to_set() =~= b2.to_set());
        lemma_increasing_keys_unique(a2, b2);
        assert(a =~= a2.push(la));
        assert(b =~= b2.push(lb));
    }
}

/// There is one way to list a map's items in key order.
pub proof fn lemma_key_order_unique<T>(s1: Seq<T>, s2: Seq<T>, m: Map<u64, T>, key: spec_fn(T) -> u64)
    requires
        lists_in_key_order(s1, m, key),
        lists_in_key_order(s2, m, key),
        m.dom().finite(),
    ensures
        s1 == s2,
{
    let k1 = keys_of(s1, key);
    let k2 = keys_of(s2, key);
    assert forall|x: u64| k1.to_set().contains(x) implies k2.to_set().contains(x) by {
        let i = choose|i: int| 0 <= i < k1.len() && k1[i] == x;
        assert(m.contains_key(key(s1[i])));
        lemma_key_listed(s2, m, key, x);
        let j = choose|j: int| 0 <= j < s2.len() && key(s2[j]) == x;
        assert(k2[j] == x);
    }
    assert forall|x: u64| k2.to_set().contains(x) implies k1.to_set().contains(x) by {
        let i = choose|i: int| 0 <= i < k2.len() && k2[i] == x;
        assert(m.contains_key(key(s2[i])));
        lemma_key_listed(s1, m, key, x);
        let j = choose|j: int| 0 <= j < s1.len() && key(s1[j]) == x;
        assert(k1[j] == x);
    }
    assert(k1.to_set() =~= k2.to_set());
    lemma_increasing_keys_unique(k1, k2);
    assert forall|j: int| 0 <= j < s1.len() implies s1[j] == s2[j] by {
        assert(k1[j] == k2[j]);
    }
    assert(s1 =~= s2);
}

/// Two maps with the same keys list them at the same positions.
pub proof fn lemma_same_keys_align<T>(
    s1: Seq<T>,
    s2: Seq<T>,
    m1: Map<u64, T>,
    m2: Map<u64, T>,
    key: spec_fn(T) -> u64,
)
    requires
        lists_in_key_order(s1, m1, key),
        lists_in_key_order(s2, m2, key),
        m1.dom().finite(),
        m1.dom() == m2.dom(),
    ensures
        s1.len() == s2.len(),
        forall|j: int| 0 <= j < s1.len() ==> key(#[trigger] s1[j]) == key(s2[j]),
{
    let k1 = keys_of(s1, key);
    let k2 = keys_of(s2, key);
    assert forall|x: u64| k1.to_set().contains(x) implies k2.to_set().contains(x) by {
        let i = choose|i: int| 0 <= i < k1.len() && k1[i] == x;
        assert(m2.contains_key(key(s1[i])));
        lemma_key_listed(s2, m2, key, x);
        let j = choose|j: int| 0 <= j < s2.len() && key(s2[j]) == x;
        assert(k2[j] == x);
    }
    assert forall|x: u64| k2.to_set().contains(x) implies k1.to_set().contains(x) by {
        let i = choose|i: int| 0 <= i < k2.len() && k2[i] == x;
        assert(m1.contains_key(key(s2[i])));
        lemma_key_listed(s1, m1, key, x);
        let j = choose|j: int| 0 <= j < s1.len() && key(s1[j]) == x;
        assert(k1[j] == x);
    }
    assert(k1.to_set() =~= k2.to_set());
    lemma_increasing_keys_unique(k1, k2);
    assert forall|j: int| 0 <= j < s1.len() implies key(#[trigger] s1[j]) == key(s2[j]) by {
        assert(k1[j] == k2[j]);
    }
}

/// Every key of the map is the key of some listed item.
pub proof fn lemma_key_listed<T>(s: Seq<T>, m: Map<u64, T>, key: spec_fn(T) -> u64, k: u64)
    requires
        lists_in_key_order(s, m, key),
        m.dom().finite(),
        m.contains_key(k),
    ensures
        exists|j: int| 0 <= j < s.len() && key(s[j]) == k,
{
    let ks = keys_of(s, key);
    assert(ks.no_duplicates()) by {
        assert forall|a: int, b: int| 0 <= a < ks.len() && 0 <= b < ks.len() && a != b implies ks[a]
            != ks[b] by {
            if a < b {
                assert(key(s[a]) < key(s[b]));
            } else {
                assert(key(s[b]) < key(s[a]));
            }
        }
    }
    ks.unique_seq_to_set();
    assert forall|x: u64| ks.to_set().contains(x) implies m.dom().contains(x) by {
        let i = choose|i: int| 0 <= i < ks.len() && ks[i] == x;
        assert(m.contains_key(key(s[i])));
    }
    vstd::set_lib::lemma_subset_equality(ks.to_set(), m.dom());
    assert(ks.to_set().contains(k));
    let j = choose|j: int| 0 <= j < ks.len() && ks[j] == k;
    assert(key(s[j]) == k);
}

} // verus!
