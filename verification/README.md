# cosmwasm_vm (verified core)

Verus-verified pieces of a CosmWasm virtual machine:

- `src/storage.rs` — `MockStorage`, an in-memory key-value store kept as a
  key-sorted vector. Its view is a `Map<Seq<u8>, Seq<u8>>`; `get`, `set` and
  `remove` are specified against that map, and `range` against the set of
  entries in a half-open key range, iterated in ascending or descending byte
  order. Laws about reads after writes and about iteration are proved there.
- `src/key_order.rs` — lexicographic order on byte strings and a verified
  three-way comparison.
- `src/memory.rs` — region headers (offset, capacity, length) in a guest's
  linear memory, modelled as a byte sequence: reading and writing regions,
  with a proof that a read gives back what a write stored.
- `src/errors.rs` — the errors of the memory operations.
- `app/` — glue to the wasmer runtime (`Ctx`, memory views) and to
  cosmwasm-std's iteration order; not verified.

## Why the storage is a sorted vector

The storage keeps its entries in a `Vec` sorted by key, with no key twice,
stated as the type's invariant. vstd's specification of `BTreeMap` holds
only for key types that obey its model of `Ord`. vstd establishes that model
for no `Vec<u8>` or byte-slice key, and it does not specify
`BTreeMap::range` at all. Iteration over a key range in byte order, which
`range` needs, therefore could not be proved over a `BTreeMap<Vec<u8>, _>`.
The sorted vector lets the order, lookups, insertions and range iteration be
proved against the `Map` view.
