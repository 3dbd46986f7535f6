# vnt — verifiable network telemetry, verified

Routers write one log per hop of each flow; every few seconds each router's
log table is committed to with a SHA-256 hash. An aggregation round folds the
logs written since the last round into one record per user, whose Poseidon
hash chain runs over that user's logs in arrival order, and the records are
committed to with a Poseidon Merkle tree. A query answers from the records,
and a consistency proof ties the Merkle root to a SHA-256 hash of the
records' bytes.

## Layout

- `src/` — the library, verified with Verus:
  - `types.rs`: the records (nodes, routes, flows, logs, aggregated records,
    prover inputs and journals) and their text forms;
  - `aggregate.rs`: folding logs into per-user hash chains, and splitting the
    result into updates and insertions;
  - `circuit.rs`: the padded inputs of the aggregation circuit and its public
    hash chain over batches;
  - `merkle.rs`: the streamed Merkle root over a list of leaf digests and the
    root of an authentication path;
  - `zk.rs`: packing logs and records into field elements, the records'
    Merkle tree, and the consistency circuit's inputs and constraints;
  - `query.rs`: the checks and answers of the query and aggregation guests;
  - `simulator.rs`: the routing table and the walk of a flow;
  - `crypto.rs`, `encoding.rs`, `text.rs`, `level.rs`, `postgres.rs`,
    `util.rs`: hashing, byte encodings, text, log levels and settings.
- `tests/` — tests of the library on concrete values.
- `app/` — the programs around the library: the simulator, the aggregation
  round, the query, and the consistency prover and verifier, with their database and file
  I/O and the constraint-system code of the consistency circuit.

The aggregation round updates the records and writes them, with the root of
the records' Merkle tree, but produces no proof of aggregation: the
aggregation circuit rests on a Merkle-tree library that is not part of this
project. The consistency proof takes that root as its public root.
