# vela-sim

Deterministic simulation of a replicated log cluster. A run is a function of a 64-bit
seed, its parameters and what the replicas answer: virtual time, the network, timers,
faults, disks and the client workload are all drawn from streams derived from the seed.

- `src/` is the simulation itself, verified with Verus. `runtime`, `dispatch`, `output`,
  `timeline` and `drive` make up a run; `checker` holds the Raft safety, Kafka parity and
  liveness checks; `course` and `verdict` state that runs and their outcomes are
  reproducible, `ledger` that every client operation is recorded once, `timekeeping` that
  records stay in time with the clock, and `firing` that what is scheduled fires.
- `tests/` runs it, with a small consensus protocol where replicas are needed.
- `app/` is ordinary Rust around it: the run loop over replicas that live outside, skewed
  clocks, report files, generators of inputs and error types.

The consensus code runs outside the library. `SimRuntime::step` fires one event and says
what has to be done for it; what came of it is handed to `observe_replica`,
`committed_commands`, `apply_committed_metadata` and `finish_output`; `after_event` then
runs the checks of that event, and `finish_run` the last ones. Where node clocks are
skewed, `begin_upkeep` and `finish_upkeep` take the place of `after_event`, and the caller
says in between when first election timers fire.
