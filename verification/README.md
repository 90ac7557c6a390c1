# gossiper

Deterministic, transport-independent gossip protocol building blocks, with
their behaviour stated in Verus contracts and proved.

The protocol core never opens sockets, sleeps or reads a clock: a node's
`tick` and `receive` return effects ("send this message to that peer",
"a new rumor arrived"), and the caller decides how to carry them out, over an
in-memory transport, a real network, or the bundled simulator.

## Layout

- `src/` — the verified library.
  - `identity`, `time`, `rumor`, `message`, `event`, `effect`, `config`:
    protocol value types.
  - `rumor_store`: the bounded, duplicate-free store of rumors a node keeps.
  - `peer_selection`, `rng`: seeded, reproducible choice of gossip targets.
  - `node`: the gossip state machine (`receive`, `tick`, `publish`, ...).
  - `anti_entropy`: digest/delta reconciliation between stores.
  - `transport`: the transport trait, effect application and an in-memory
    transport.
  - `network`, `delivery`, `sim`, `cluster`, `builder`, `experiment`: the
    simulator — lossy, duplicating, delaying and partitioned networks, seeded
    clusters, reach runs and repeated convergence experiments.
  - `replay`: runs that start from alike clusters make the same decisions
    and give the same reports.
- `tests/` — executable tests of the library.
- `app/` — what stays outside the proofs: serde encodings of the value types,
  `Display`/`Error` for the error types, and the simulator's floating-point
  rates and statistics, which it converts to and from the library's integer
  chances and counts.
