# iddqd

Maps whose keys are read from the values they store, verified with Verus.

Each map keeps its items in slots and finds them through an index from keys
to slots. Keys are `u64` values that the item types compute (`key`, with the
spec function `key_of` stating what it returns).

- `IdHashMap`: a hash map; its index is a `hashbrown` table.
- `BiHashMap`: a hash map with two keys per item, each unique, so that the
  two keys are in one-to-one correspondence.
- `IdOrdMap` and `IdBTreeMap`: ordered maps; their index is a `BTreeMap` and
  they list items in key order.
- `IdIndexMap`: a map that keeps insertion order and can reorder its items.

Every map's contracts speak of its view (a `Map` from keys to items, or a
`Seq` of items for `IdIndexMap`); the entry APIs borrow a map mutably and
state what becomes of it. `src/laws.rs` states the properties that relate
several operations. `ItemSet` (the slot storage) proves that a map whose
removals were all followed by insertions is compact.

Layout:

- `src/`: the verified library.
- `tests/`: tests of the library on concrete values.
- `app/`: serde, daft and schemars integration through wrapper types, and
  shared test helpers; plain Rust around the library.
