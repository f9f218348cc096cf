# cell_sdk

Building blocks of a blockchain node, with their behaviour stated as Verus
contracts and proved:

- `tree`: key-value stores with commits, roll-back to committed heights,
  pending-write caches, key prefixes, ordered iteration, and the write
  batches and bookkeeping keys a storage engine uses.
- `zktree`: a sparse Merkle tree over a node store (paths, proofs, leaf
  writes that recompute the root) and a key-value store on its leaves.
- `pipelines`: executors chained over a value, and reactors run in turn.
- `configuration`: layered configuration repositories, where a module's
  file is looked up along the inheritance list of configuration types.
- `logsdk`: log levels, the layout and colours of log lines, finding the
  caller in a backtrace, and which records a console logger writes.

`src/` is the verified library. `app/` holds what Verus does not see: file
reading and serde formats of the configuration, and the log output through
`backtrace`, `chrono` and `log4rs`. `tests/` runs the library on concrete
values.

The disk-backed stores (the Merk, RocksDB, sparse-tree and trie engines) are
not included: their engines are not available here. What they decide on
their own (commit batches, height keys, the next entry of a sparse tree,
snapshot rules and paths) is in `tree/`.
