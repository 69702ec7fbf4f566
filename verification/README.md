# BetSync

A replicated fake-chip dice-betting table built on hand-made CRDTs, with its logic
specified and proved in Verus.

Replicas record immutable operations stamped with Lamport times and unique ids,
keep them in a deduplicated log, and rebuild their state by replaying the log in
Lamport order. Chips are tracked twice: with a positive-negative counter, which
converges but lets two offline replicas spend the same chips, and with a bounded
counter of per-replica spending rights, which refuses a bet that the local
replica's rights do not cover.

## Layout

- `src/collections.rs`, `src/text.rs`: sorted maps and sets with map and set
  models, text order, decimal rendering.
- `src/crdt/`: last-writer-wins register, observed-remove set, positive-negative
  counter, bounded counter, each with its merge laws.
- `src/domain/`: bets, rounds and the state rebuilt from operations, with the
  laws on payouts, late bets and spending rights that never go negative.
- `src/sync/`: operations, the Lamport clock, the operation log, wire messages.
- `src/client/`: the local client, and the convergence laws
  (`client/convergence.rs`).
- `src/server/`: the sync server's store and its per-connection decisions.
- `src/console.rs`: the terminal client's command interpreter.
- `src/frontend.rs`: the web demo's two-replica state machine.
- `src/simulation.rs`: the offline-merge and double-spend scenarios;
  `src/scenario.rs` computes the states they reach, so that their outcomes are
  proved, not only tested.
- `app/`: the program around the library: command line, TCP server and client,
  HTTP server, JSON.
- `tests/`: executable tests of the library.
