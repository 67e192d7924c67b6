# aimp_node

A mesh node for deterministic AI decisions: a Merkle-DAG CRDT replicated by
gossip, a Byzantine-tolerant quorum over decisions, and an integer-only
epistemic layer (log-odds belief, trust propagation, correlation-aware
aggregation, claim reduction).

Layout:

- `src/` — the library, written in Verus and verified:
  - `crdt/` — DAG nodes and their content hash, the slab arena, the engine
    (append, compaction, delta sync, Merkle root), the quorum and
    equivocation detection, the actor's append and merge decisions, and
    the cipher that encrypts stored nodes.
  - `epistemic/` — log-odds arithmetic, the knowledge graph, cycle
    detection, trust propagation, reducers, belief and intent engines.
  - `crypto/` — the node's Ed25519 identity, envelope verification and
    BLAKE3 hashing.
  - `network/` — the gossip filter, per-peer rate limiting and circuit
    breaker, the Noise session state machine, and session eviction.
  - `dashboard.rs` — the bounded event log and the text of the monitor's
    panels.
  - `semantic_topology.rs`, `ai_bridge.rs`, `config.rs`, `event.rs`,
    `protocol/`, `legacy/` (the v0.2 log-odds types), `ordering.rs`.
- `tests/` — tests of the library.
- `app/` — the node program: sockets, the table of Noise sessions, MessagePack of the
  library's types, the redb database, metrics, the terminal drawing, and the
  loops that hand events to the library and carry out what it decides.
