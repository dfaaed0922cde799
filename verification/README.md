# patricia_tree

A Patricia (radix) tree keyed by byte strings, and the decisions behind an
`AutoTryFrom` derive, written in Verus and proved against their contracts.

- `src/model.rs` — the model of a node (`Tree`), `get_exact` (the value stored
  under exactly a key, which makes a tree a map from keys to values), what it
  means for a tree to be valid, and the steps of the operations on the model:
  `insert_tree` (insert, update, upsert) and `remove_tree`.
- `src/node.rs` — `PatriciaNode`. `search` answers what `get_exact` says; on a
  valid tree, `insert`, `update`, `upsert` and `remove` act on the tree as the
  same operations act on a map, are refused exactly when the map would refuse
  them, and keep the tree valid.
- `src/laws.rs` — the laws behind those contracts, over every valid tree: a
  write or removal acts as a map write or removal, a refused request changes
  nothing, `remove` undoes `insert`, an `upsert` of the value already stored
  changes nothing.
- `src/label.rs` — `IntoLabel`, turning strings into labels.
- `src/auto_impl/` — how the `auto_try_from` attribute is read and which
  `TryFrom` impls it asks for, with the laws of the list of source types.
- `app/` — the error type with its messages, and the derive itself, which reads
  and writes Rust syntax with `syn` and `quote`.
