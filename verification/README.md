# des — a verified discrete-event simulation engine

A discrete-event simulator for queueing networks and LLM inference scheduling.
The engine and the scheduling decisions are written in Verus and proved against
their contracts; sampling, timing arithmetic and statistics over real numbers
live in the program around it.

## Layout

- `src/` — the verified library
  - `heap.rs`: binary min-heap over a two-level integer key (`Keyed`)
  - `calendar.rs`, `event.rs`: timestamped events and the event calendar
  - `clock.rs`, `sim.rs`: the simulation clock and the single-station event loop
  - `queue.rs`: FCFS and SRPT waiting rooms; `server.rs`: servers with service epochs
  - `stats.rs`: empirical distribution with tail counts and ranks
  - `llm.rs`: the shared-GPU LLM serving scheduler (prefill, KV-cache admission,
    decode batching) as a state machine with a spec model and invariants
  - `network.rs`: job bookkeeping of an open Jackson network
- `app/` — the program: distributions, running statistics, the timed LLM and
  Jackson simulations built on the library, and the validation tables
- `tests/` — tests of the library

## Time and order keys

The library never handles real numbers. Instants, durations and observations
reach it as `u64` order keys: the program maps a non-negative time to its IEEE-754
bit pattern (which orders non-negative values exactly) and an arbitrary observation
to the key of its total order. Everything the library decides depends only on how
these keys compare.
