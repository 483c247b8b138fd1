//! The model shared by the keyed maps: slots hold items, and an index table
//! maps each item's key to its slot.

use vstd::prelude::*;

verus! {

/// The table indexes the items: every key it holds names an occupied slot
/// whose item has that key, and every item is reached through its own key.
pub open spec fn indexes_items<T>(
    items: Map<usize, T>,
    table: Map<u64, usize>,
    key: spec_fn(T) -> u64,
) -> bool {
    &&& forall|k: u64| #[trigger]
        table.contains_key(k) ==> items.contains_key(table[k]) && key(items[table[k]]) == k
    &&& forall|i: usize| #[trigger]
        items.contains_key(i) ==> table.contains_key(key(items[i])) && table[key(items[i])] == i
}

/// The items by key, as the table reaches them.
pub open spec fn keyed_view<T>(items: Map<usize, T>, table: Map<u64, usize>) -> Map<u64, T> {
    Map::new(|k: u64| table.contains_key(k), |k: u64| items[table[k]])
}

/// Storing a new item in a free slot, under a key not yet used, keeps the
/// table an index and adds the item to the view.
pub proof fn lemma_index_insert<T>(
    items: Map<usize, T>,
    table: Map<u64, usize>,
    key: spec_fn(T) -> u64,
    i: usize,
    v: T,
)
    requires
        indexes_items(items, table, key),
        !items.contains_key(i),
        !table.contains_key(key(v)),
    ensures
        indexes_items(items.insert(i, v), table.insert(key(v), i), key),
        keyed_view(items.insert(i, v), table.insert(key(v), i)) == keyed_view(items, table).insert(
            key(v),
            v,
        ),
{
    let items2 = items.insert(i, v);
    let table2 = table.insert(key(v), i);
    assert forall|k: u64| #[trigger] table2.contains_key(k) implies items2.contains_key(table2[k])
        && key(items2[table2[k]]) == k by {
        if k != key(v) {
            assert(table[k] != i);
        }
    }
    assert forall|j: usize| #[trigger] items2.contains_key(j) implies table2.contains_key(
        key(items2[j]),
    ) && table2[key(items2[j])] == j by {
        if j != i {
            assert(items.contains_key(j));
            assert(key(items[j]) != key(v));
        }
    }
    assert(keyed_view(items2, table2) =~= keyed_view(items, table).insert(key(v), v));
}

/// Emptying an occupied slot, and dropping its item's key, keeps the table
/// an index and removes that key from the view.
pub proof fn lemma_index_remove<T>(
    items: Map<usize, T>,
    table: Map<u64, usize>,
    key: spec_fn(T) -> u64,
    i: usize,
)
    requires
        indexes_items(items, table, key),
        items.contains_key(i),
    ensures
        indexes_items(items.remove(i), table.remove(key(items[i])), key),
        keyed_view(items.remove(i), table.remove(key(items[i]))) == keyed_view(items, table).remove(
            key(items[i]),
        ),
        table.contains_key(key(items[i])),
        keyed_view(items, table).contains_key(key(items[i])),
        keyed_view(items, table)[key(items[i])] == items[i],
{
    let k0 = key(items[i]);
    let items2 = items.remove(i);
    let table2 = table.remove(k0);
    assert forall|k: u64| #[trigger] table2.contains_key(k) implies items2.contains_key(table2[k])
        && key(items2[table2[k]]) == k by {
        assert(table[k] != i);
    }
    assert forall|j: usize| #[trigger] items2.contains_key(j) implies table2.contains_key(
        key(items2[j]),
    ) && table2[key(items2[j])] == j by {
        assert(items.contains_key(j));
        assert(table[key(items[j])] == j);
    }
    assert(keyed_view(items2, table2) =~= keyed_view(items, table).remove(k0));
}

/// Replacing the item in an occupied slot with one of the same key keeps the
/// table an index and replaces the item in the view.
pub proof fn lemma_index_replace<T>(
    items: Map<usize, T>,
    table: Map<u64, usize>,
    key: spec_fn(T) -> u64,
    i: usize,
    v: T,
)
    requires
        indexes_items(items, table, key),
        items.contains_key(i),
        key(v) == key(items[i]),
    ensures
        indexes_items(items.insert(i, v), table, key),
        keyed_view(items.insert(i, v), table) == keyed_view(items, table).insert(key(v), v),
{
    let items2 = items.insert(i, v);
    assert forall|k: u64| #[trigger] table.contains_key(k) implies items2.contains_key(table[k])
        && key(items2[table[k]]) == k by {}
    assert forall|j: usize| #[trigger] items2.contains_key(j) implies table.contains_key(
        key(items2[j]),
    ) && table[key(items2[j])] == j by {
        if j != i {
            assert(items.contains_key(j));
        }
    }
    assert(keyed_view(items2, table) =~= keyed_view(items, table).insert(key(v), v));
}

/// An index reaches exactly as many items as it has keys.
pub proof fn lemma_index_dom<T>(items: Map<usize, T>, table: Map<u64, usize>, key: spec_fn(T) -> u64)
    requires
        indexes_items(items, table, key),
    ensures
        keyed_view(items, table).dom() == table.dom(),
{
    assert(keyed_view(items, table).dom() =~= table.dom());
}

} // verus!
