# kospi200_parser

Parses KOSPI 200 quote packets (UDP payloads starting with `B6034`) from pcap
captures or a live UDP feed and prints one line per quote:

```
<pkt-time> <accept-time> <issue-code> <bqty5>@<bprice5> ... <bqty1>@<bprice1> <aqty1>@<aprice1> ... <aqty5>@<aprice5>
```

With `-r`, quotes pass through a reorder window and come out ordered by the
exchange accept time, then by network arrival time; a quote is released once
the newest network time is 3 seconds past its arrival. Quotes with equal
accept and arrival times keep the order in which they came.

The library under `src/` is verified with Verus:

- `sources` — pcap global and record headers (read in the host's byte order,
  as pcap fields are), Ethernet / Linux cooked / raw IP framing, IPv4 and UDP
  headers, and the walk over a capture held in memory.
- `format` — the text of a quote line.
- `reorder` — the binary min-heap of the reorder window, the specification of
  a run of the window, and its laws (nothing lost, output sorted when no
  packet arrives too late).
- `kospi` — `KospiHandler`, the streaming parser with its slab of quote slots.
- `quote_parser` — whole-capture parsing into lines.
- `accept_time` — shifting `HHMMSS` accept times.
- `feed_tools` — splitting a capture into records and shifting them in time
  (for building large test captures), the payloads a replay sends, and
  checking the accept-time order of a forwarded quote stream.

`app/` holds the `parse-quote` command: argument handling, memory-mapped pcap
files, the UDP socket and output to stdout; `--generate-10g`,
`--udp-replay` and `--mock-receiver` run the feed tools.
