# zyvor-janus

A discrete-event simulator for GPU cluster scheduling: nodes and GPUs with
NVLink domains and MIG slices, tenants with quotas, federation sites, gang
jobs, preemption and LLM-serving requests. The scheduling core is written in
Verus and proved against its contracts.

## Layout

- `src/` — the verified library.
  - `cluster`, `model`, `job`, `strmap`: the cluster state and its views.
  - `resource`, `groups`, `topology`, `mig`: placement of whole GPUs (first
    fit, best fit, NVLink-aware, gang) and of MIG slices, tenant quotas, and
    the runtime multiplier of a placement.
  - `lifecycle`: starting, finishing, evicting and failing jobs; queue order.
  - `scheduler`, `preemption`: FIFO, priority, best-fit and preemptive
    schedulers.
  - `events`, `engine`, `shadow`, `rl`: the event queue, the simulation
    engine, primary-versus-shadow runs, and a step-by-step session for
    reinforcement learning.
  - `metrics`, `snapshot`, `serving`: run totals, timelines, observations and
    serving traces.
  - `tickets`, `shim`, `api`: signed WebSocket tickets, the token accounting
    and rate limit of the OpenAI-compatible endpoint, and request checks of
    the HTTP API.
- `tests/` — tests of the library.
- `app/` — the HTTP server: routes, configuration and trace files, run
  bookkeeping, SQLite access, and the floating-point timing and benchmark
  scores.

Times are whole seconds and means and rates are exact ratios in the library;
the server renders them as floating-point numbers.
