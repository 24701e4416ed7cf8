# spice_sim

A discrete-event simulator of a sharded blockchain protocol, written in Verus.

- `src/sim_core/`: the generic simulation core. Node identities and the
  per-node framework state (clock and outbox), messages, the message queue
  that hands out the earliest message first (ties broken by message hash),
  the dispatch loop and the `Simulator` that owns nodes and queue.
- `src/spice/`: the protocol's roles (block producers, chunk producers, data
  owners, replicas, validators), the availability and endorsement trackers
  and the payloads they exchange.
- `src/types/`, `src/core_state.rs`, `src/config.rs`, `src/naming.rs`: blocks,
  chunks and certificates with their byte encoding and hash, the chain state
  every role keeps, the protocol's parameters and the names of the nodes.
- `src/node.rs`, `src/message.rs`, `src/pingpong.rs`, `src/block_producer.rs`,
  `src/data_owner.rs`: a small stand-alone message layer in which each node
  owns its framework state, with a ping-pong game.
- `src/text.rs`: the text the simulation prints for its values.
- `app/main.rs`: runs the simulation with the default configuration and
  prints every message received and sent.

Verus proves the contract of every function in `src/` except four small
wrappers around the calls into `blake3`, `borsh`, `fxhash` and `rand`:
their `ensures` clauses (none for the `fxhash` digest) are trusted, and
their doc comments say what they claim.
