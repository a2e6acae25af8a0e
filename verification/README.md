# prescient

Typed channels whose behaviour is stated in contracts and proved by Verus: local MPMC
channels, broadcast, brokered delivery, leased payload blocks, and process channels over
shared memory.

- `src/` is the library. Every channel is a state machine: shared state is an argument,
  each endpoint keeps what is its own, and an operation that would block says how to wait.
- `src/backend` holds the storage (`Ring`, `Seg`, `Batch`), `src/mpmc` the local channels,
  `src/ipc` the process channels, `src/declaration` the declarations, and `src/capacity.rs`
  the automatic capacity.
- `app/` drives the machines with threads, shared memory, futexes and sockets.
- `tests/` runs the library.

Public proof functions named `law_*` state what holds of several operations together, such
as that a process transfer delivers its source however the steps of the two sides
interleave.
