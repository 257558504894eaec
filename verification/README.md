# packetworks

Packet framing and traffic counters for a UDP packet source and sink, verified with Verus.

- `src/wire.rs`: packets are an eight-byte big-endian sequence number followed by a
  payload. `Packet` reads a received buffer, `PacketMut` frames one in place.
- `src/stats.rs`: `PacketStats` counts packets and bytes, in total and per interval
  between snapshots; `ReceiverPacketStats` adds sequence tracking.
- `src/sequence.rs`: follows received sequence numbers and counts missing and
  out-of-order packets; `src/ranges.rs` holds the missing numbers as disjoint ranges.
- `src/settings.rs`: the checks on the packet size and statistics interval a source
  or sink runs with.
- `app/`: the programs (`source`, `sink`, `relay`, `participant`, `xtask`), with
  configuration, logging, UDP I/O, and the floating-point rates and size formatting.
