# anvil

A multi-writer embedded relational store whose replicas merge by CRDT rules:
per-cell last-writer-wins registers ordered by Lamport versions, delete-wins
rows with tombstones, a uniqueness-claim registry, and frontier-based delta
sync. The library in `src/` is written in Verus. Its functions carry
contracts that Verus proves, except the trusted wrappers around outside
code, whose contracts are believed: `utils::blake3_hash` (`blake3::hash`),
`utils::hex_encode` (`hex::encode`), `sql::parse_i64` (`str::parse::<i64>`),
and the `sqlparser` parse and its conversion helpers in `sql_parse.rs`.

## Layout

- `src/order.rs`, `src/ordmap.rs`: total orders on strings and keys, and a
  sorted association list with a `Map` view.
- `src/types.rs`, `src/clock.rs`, `src/utils.rs`, `src/error.rs`: values,
  versions, rows, the Lamport clock, frontiers, error texts.
- `src/merge.rs`, `src/tombstone.rs`, `src/uniqueness.rs`: the merge rules and
  their algebraic laws (idempotent, commutative, associative).
- `src/storage.rs`, `src/replication.rs`, `src/metadata.rs`, `src/gc.rs`:
  replica state, schemas, metadata and tombstone collection.
- `src/sync/`: delta extraction and application, sessions, the replay laws
  (a delta applied twice changes nothing more; two deltas in either order
  leave the same tombstones, owners, clock and frontier) and the convergence laws (one
  round leaves both replicas with the same rows, tombstones, owners and
  snapshot hash).
- `src/index.rs`, `src/hashing.rs`, `src/sql.rs`, `src/engine.rs`: secondary
  indexes, the canonical snapshot hash, the SQL model for DDL, and the
  multi-peer host with its snapshot state.
- `src/sql_parse.rs`: SQL text to the statement model through `sqlparser`,
  and the check for the statement keywords on which that parser can panic.
- `src/json_values.rs`: SQL values to and from the JSON values of the
  process protocol.
- `app/`: the JSON-lines process front end and its JSON serialization.
- `tests/`: executable tests of the library.
