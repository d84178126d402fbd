# raptorpath

The decision laws of the RaptorPath multipath FEC tunnel's data path, written
in Verus and proved against their contracts.

- `src/` — the verified library:
  - `patience` — recovery clocks: the RFC 9002 time threshold, the derived
    patience floor, stall thresholds, cooldowns, the tail-sweep clamp, the
    ack-merge emission decision.
  - `timing` — the `Duration`-valued hole-refresh cadence and in-order hold.
  - `runs`, `sack` — gap reports, SACK ranges and their exact round trip.
  - `ledger`, `release`, `retention` — the retention store: per-path
    outstanding accounts, the loan ledger, SACK-clocked release and the
    cumulative ack, with the invariants every event keeps.
  - `placement` — per-path admission gates, guarded redirects, the lender
    choice and the window's source paths.
  - `deficit` — generation deficit reports and the repair-coverage horizon.
  - `feed` — the delivery-attribution cursor: each seq is attributed once
    across the ack stream, to the path whose flight delivered it.
  - `wire` — MTU-aware symbol sizing, greedy datagram batching and the
    reroute of oversized symbols.
  - `loss`, `profile`, `netmask` — loss evidence, pipeline shape, netmasks.
- `tests/` — the library's tests.
- `app/` — the runtime glue: peer configuration and CIDR parsing, the
  floating-point rate and store-cap laws, the NACK congestion throttle,
  packet delivery, and a lock-shared delivery feed.
