# lease_sim

A deterministic, discrete-event simulator of distributed leases: one-to-one leases
with a guard phase and renewals, and the patterns built from them (lease manager,
leader leases, quorum leases, roster leases), with lossy links, drifting clocks,
crashing nodes and writes that do or do not disrupt leases.

The library is written in Verus. Every function carries a contract, and what the
engine does is stated by a model of the whole simulation, on which the laws of
leasing are proved.

| where | what |
|---|---|
| `src/scenario.rs`, `src/demos.rs` | what to simulate |
| `src/engine.rs`, `src/sim.rs` | the engine, and the model it is proved to follow |
| `src/upkeep.rs`, `src/progress.rs`, `src/history.rs` | what every step keeps; that time moves forward and runs can be cut into parts |
| `src/safety.rs`, `src/exchange.rs`, `src/crossing.rs`, `src/once.rs` | the grantor's promise outlasts the grantee's hold: with messages that take bounded time, and whatever they take |
| `src/mail.rs`, `src/pacing.rs`, `src/revoking.rs` | what becomes of messages; one renew at a time; revokes only on command |
| `src/health.rs` | a lease that nothing disturbs stays up |
| `src/protocol.rs`, `src/polling.rs` | the rules of single messages; that expiry is noticed in time |
| `src/cutoff.rs`, `src/writing.rs` | leases that cannot come up; writes |
| `src/run.rs`, `src/milestone.rs`, `src/walkthrough.rs`, `src/playground.rs` | recorded runs and when they stop |
| `src/topology.rs`, `src/grants.rs`, `src/stage.rs`, `src/frame.rs` | what there is to draw |
| `src/rng.rs`, `src/prob.rs`, `src/dist.rs`, `src/clock.rs`, `src/rounding.rs` | randomness and clocks, in exact integers |
| `app/` | the website: drawing, floating-point geometry, timers |
| `tests/` | the library on concrete values |

Probabilities, clock rates and fractions are exact integers. A Gaussian delay needs a
logarithm and a cosine; the engine is handed a function that turns the two uniform
draws behind it into ticks.
