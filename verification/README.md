# sema_engine

A database engine whose versioned commit log is the source of truth, with its
behaviour stated in contracts and proved by Verus.

Records belong to families. A family has a name, a schema hash and the table
its rows stand in now. Every durable write goes through one logged path: the
record tables, the commit log, the versioned entry with its digest and the
outbox row for the mirror land together or not at all. The record tables are a
view that the log folds to, so they can be rebuilt from it, checkpointed,
exported and imported. A family declares the generations that its rows may
still be stored in, each with the carry that brings them forward; registering
it evolves a store that holds one of them, as one commit. Records that were
archived elsewhere are read back before they are replayed, land or are
announced. Once one checkpoint covers the history, entries beyond a budget can
leave the logs.

## Layout

- `src/` is the verified library.
  - `engine` runs the operations; `engine_model` says what each of them makes of
    a store, as plain values.
  - `store`, `tables`, `ordered_table` and `listing` hold what a store keeps.
  - `versioning`, `fold`, `checkpoint`, `import`, `outbox`, `staging`,
    `subscribe`, `commit_log` and `log` are the parts the engine is made of.
  - `digest` holds the digest inputs and the one call into `blake3`.
  - `versioned` is a smaller log of its own: families, reducers, frames and the
    view that a log folds to. It calls `rkyv` for the archive of a transition.
  - `laws` holds what spans several operations: reads after writes, rebuilds,
    checkpoints, imports, evolution, compaction, staging, mirroring and digests,
    and what any run of calls keeps.
- `tests/` runs the library.
- `app/` is ordinary Rust around it: typed records, a store in a file, sinks on
  threads, printable errors and logs in files.

## What is trusted

`blake3::hash`, whose result is only named, and `rkyv::to_bytes` and
`rkyv::from_bytes` on a pair of thirty-two byte arrays. Nothing is claimed about
collisions: the laws about digests are laws about what a digest covers.
