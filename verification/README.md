# elevatorlab

The decision logic of a networked elevator controller (several cars that
share hall calls over UDP gossip, with one elected master assigning hall
calls through an external cost function), written in Verus and verified.

- `src/types.rs` – orders, buttons, directions, roles and the constants of the system.
- `src/orders.rs` – order lists with set-like insertion and removal.
- `src/fsm.rs` – the car: target selection, serving, door, button panel and lamps.
- `src/gossip.rs` – the broadcast state message and its per-peer order tables.
- `src/network.rs` – this node's broadcast state and how peers' gossip is folded in.
- `src/ip.rs`, `src/election.rs` – master election by lowest live IP address.
- `src/assigner.rs`, `src/master.rs`, `src/duties.rs` – the cost function input,
  the master's and a slave's work each tick, clearing and recovering orders.
- `src/laws.rs` – properties that relate the operations to each other.
- `src/testfunctions.rs`, `src/exercises.rs` – small helpers.
- `app/` – the program: elevator hardware, UDP sockets, the cost function
  process, and the main loop that drives the library.
