# hyper_lib

A simulator of address relay in a Bitcoin-like peer-to-peer network, written in
Verus. It models each node's addrman, the GETADDR/ADDR exchange with its
per-network response cache and three cache timestamp algorithms, self-announcements
and their relay, and network churn; once a day it collects the totals behind the
fingerprinting and staleness measurements.

## Layout

- `src/` — the verified library.
  - `address.rs`: addresses, the two networks, the address registry.
  - `addrman.rs`: the addrman and its update rules (penalty, hysteresis,
    `IsTerrible()`), and their laws.
  - `node.rs`: one node — connections, GETADDR caches, message handlers — and the
    laws of the cache and of relay.
  - `network.rs`: the set of nodes, joining, leaving, reconnecting; the network
    invariant every operation keeps.
  - `delivery.rs`: handing messages and timers to the node they concern.
  - `simulator.rs`: the time-ordered event queue, the simulation loop, the initial
    network and the daily statistics.
  - `statistics.rs`, `fingerprint.rs`: the daily totals and the cache comparison.
  - `cli.rs`, `display.rs`: the configuration the options select, and time
    splitting for display.
  - `random.rs`, `maps.rs`: the random draws (trusted calls into `rand`) and map
    helpers.
- `tests/` — tests of the library on concrete values.
- `app/` — the `hyperion-addr` program: option parsing, logging, CSV output, the
  interactive terminal view, and the floating-point averages of the report.
