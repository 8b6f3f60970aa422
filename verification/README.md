# qmdb

The updater of one shard of an append-only key-value store, with the rules that
place keys in shards and threads on NUMA nodes. The library is verified with
Verus.

- `src/entry.rs`, `src/bytes.rs`, `src/hash.rs`: entries, their layout in the
  log, and the order of key hashes.
- `src/buffer.rs`, `src/file.rs`, `src/cache.rs`, `src/indexer.rs`: where
  entries stand, and how they are found.
- `src/tasks.rs`, `src/compactor.rs`: what is to be done.
- `src/updater.rs`, `src/compare.rs`, `src/error.rs`: the updater.
- `src/model.rs`: what the updater does, as functions on mathematical values.
- `src/search.rs`, `src/chain.rs`, `src/active.rs`, `src/numbering.rs`,
  `src/counting.rs`, `src/versions.rs`, `src/effects.rs`, `src/progress.rs`,
  `src/laws.rs`: what holds of it as a whole.
- `src/sharding.rs`, `src/numa_info.rs`, `src/def.rs`: shards, NUMA nodes,
  constants.
- `app/`: the process around the library: channels, threads, `lscpu`.
- `tests/`: tests of the library.

An operation that is refused returns an error and changes nothing. Where a
compaction that is due after an operation wants a job and none is left, the task
stops with an error that says so; running the task again, once more jobs have
come, goes on from there.

The hash that orders keys is SHA-256, from the crate `sha2`; the library rests on
nothing of it but that it depends on the bytes of the key alone.

The entry file is kept in memory as a whole: `app/entry_file.rs` reads it when a
shard is opened, and writes what is added to it to disk too.
