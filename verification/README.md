# limousine_core

The core of a hybrid key-value index whose layers are either classical
B-tree layers or learned (PGM) layers, with its contracts proved by Verus.

- `src/` is the verified library: keys and searches, the gapped array, the
  B-tree nodes, the linked node lists and walks over them, the B-tree
  layers built on those lists and the top, internal and base components
  made of them, a self-contained hybrid index (whose persisted layers are
  saved as its pairs in key order and read back by putting them in again),
  the catalog of a list of pages and the layer of B-tree nodes kept in
  pages, which decides what each page holds, the PGM segmentation in
  integer arithmetic, with the proof that every point of a segment lies
  within the error of the segment's line, and an in-memory layer of learned
  nodes built on it,
  the layout description and its rules, the state of the
  index-generating macro's input, and the line format of saved benchmark
  workloads. The linked node lists keep their nodes in a slab of their own.
- `tests/` exercises the library on concrete values.
- `app/` holds what Verus does not check: reading layout descriptions from
  token streams, the tokens of the generated types, paths on disk, reading
  workload files, the store that writes and reads pages and index logs, and the floating-point parts of the learned layers and of
  the gapped array.
