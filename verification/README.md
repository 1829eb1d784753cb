# horton

A log-structured merge-tree key-value store for small devices, in Verus:
every function of the library carries a contract that the verifier proves.

- `src/` is the library. All I/O goes through the `BlockDevice` trait in
  whole blocks; sizes are const generics. `src/lib.rs` lists the modules.
  Functions named `law_...` state what holds of several operations
  together: what a read gives back of a write, that a flush, a compaction
  and a reopen keep every read, that a snapshot holds over a run of calls,
  that a torn commit leaves the state from before.
- `tests/` runs the library over in-memory devices.
- `app/` is ordinary Rust around it: a poll-based device adapter, a scan
  that borrows its database, `Display` for the errors, and a shorthand for
  naming a database's types.

What the proofs rest on: a device that keeps the contract of
`BlockDevice`. A written block reads back and nothing else changes; a write
that was not flushed may be lost, or leave its block torn, in a power loss;
what was stored when a flush returned survives one. Where a law speaks of a
crash, it also rests on torn blocks failing their CRC. `Db::kept` is what a
power loss leaves, and each write, batch, flush, commit and archival that
succeeded says that all it stored is kept.

They also rest on one function of the standard library, `as_flattened`,
whose contract stands in `src/grid.rs`.

Nothing is allocated: every buffer is an array whose size the const generics
fix.
