# aether_core

The core of the Aether node, verified with Verus: the ledger's value types,
threshold encryption of transactions, the contract VM, the flat state store,
sequential and Block-STM execution, the DAG consensus engine, the encrypted
mempool, BitTorrent DHT message framing, the peer table, HTTP request parsing,
and the node's round state machine.

Layout:

- `src/` — the verified library. Each module states its behaviour in
  `requires`/`ensures` over spec models (`Seq`, `Map`, views) and proves it.
  `field.rs`, `polynomial.rs` and `interpolation.rs` prove that any
  threshold-many shares of distinct validators recover the secret; `state.rs` drives a node's
  rounds as steps that take and give plain values.
- `tests/` — tests run against the compiled library.
- `app/` — the node binary: sockets, threads, JSON, files and the clock, around
  the library. `aether demo` runs the measured walkthrough.
