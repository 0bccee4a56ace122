# sparse_tags

Stores of entries, each carrying any number of key-value tags (more than one
tag may share a key on one entry), with fast access both to the tags of an
entry and to the tags under a key. Every store is verified with Verus against
one mathematical model of a store.

## Layout

- `src/lib.rs`: `EntryId` and the `Store` trait, whose contracts state every
  operation over `StoreModel`.
- `src/model.rs`: `StoreModel`, the store as a value, with the operations that
  the contracts use.
- `src/laws.rs`: what holds across operations, proved over the model: each
  operation keeps a store well formed, which entries and keys it touches, that
  the tags of an entry under a key and the tags under a key on that entry
  agree, and that clearing an entry is removing it and putting it back.
- `src/multi_linked.rs`: `MultiLinkedStore`, a graph of nodes, one per tag,
  each linked into the list of its entry and the list of its key
  (`src/node_list.rs`).
- `src/indexed.rs`: `IndexedStore`, in which each entry lists its tags and
  each key keeps, in a stable vector, where its tags sit.
- `src/sparse.rs`: `SparseStore`, a store of entries without data.
- `src/entry_data.rs`: the per-entry data that both stores keep by index.
- `src/perm.rs`: that reordering distinct items keeps what they map to, as a
  multiset; the contract of `MultiLinkedStore::tags` rests on it.
- `src/outside.rs`: the calls into `stable-vec`, `slab` and `indexmap`, each
  with the contract that the crate's source gives it.
- `tests/`: scenarios run against the stores.
