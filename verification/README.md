# throttle

Semaphores for distributed systems, served over HTTP. Peers acquire locks with a count to named
semaphores; locks are granted fairly, expire unless kept alive by heartbeats, and lock hierarchies
prevent deadlocks. Clients can restore their locks after the server lost its state.

The bookkeeping is a library verified with Verus:

* `src/leases.rs`: peers, their acquired and pending locks, and the resolution of pending locks.
* `src/state.rs`: the configured semaphores together with the ledger of peers.
* `src/event_loop.rs`: what the service does for each request, and whom it wakes.
* `src/laws.rs`: properties kept across requests (full counts are never exceeded, fairness,
  no starvation of large locks, idempotent acquiring, lock hierarchies, expiration).
* `src/name_map.rs`, `src/tally.rs`, `src/text.rs`: an insertion ordered map keyed by names, sums
  and minima over maps, and string helpers.
* `src/error.rs`, `src/protocol.rs`, `src/cli.rs`, `src/application_cfg.rs`: errors with their
  messages and status codes, the HTTP status conventions, command line and configuration.

`app/` runs the server: configuration file, HTTP routes, timers, waking of waiting requests,
metrics, and an HTTP client. Instants and durations cross into the library as nanoseconds.
