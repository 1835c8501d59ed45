# mping

A multi-target ping tool that sends up to 10,000 ICMP echo requests per second and
reports loss, latency and corrupted replies per target and per second.

The library under `src/` is written in Verus and verified:

- `stat` — ping results, the bucket of one second (results keyed by target and
  sequence number) and the collection of buckets, popped oldest first.
- `summary` — the per-target tallies of a bucket, ordered as strings order.
- `packet` — the ICMP echo wire format: building requests (checksum by
  `pnet_packet`), reading replies out of IPv4 packets, payload patterns and
  timestamps.
- `ping` — the decisions of the send, receive and report loops and of a single
  ping, and the choice of kernel timestamps.
- `targets` — splitting the target list, expanding networks (parsed by
  `ipnetwork`) into addresses.

`app/` is the command-line program: sockets, threads, clocks, logging and name
resolution, around the library.
