# l4scope

Layer-4 network health, verified with Verus: packets are decoded, followed per
conversation, checked for trouble (retransmissions, refused and unanswered
handshakes, duplicate ACKs, stalled receivers, reset storms, SYN backlogs,
connection churn, slow round trips) and the findings are published as JSON
lines, Prometheus text and OTLP/HTTP JSON.

The library in `src/` is verified code without I/O: it works on bytes, packets
and plain values, and hands text and events back.

| modules | what they hold |
| --- | --- |
| `types`, `address`, `error`, `clock` | packets, flow keys, events, addresses, errors |
| `bytes`, `parse`, `pcapio`, `ebpf` | decoders of frames, pcap streams and kernel records |
| `capture`, `synthetic` | choice of a packet source, the scripted source |
| `window`, `flow`, `detectors`, `engine` | rolling rates, the flow table, the rules, the engine |
| `laws`, `coverage` | what holds across packets and sweeps, what the script raises |
| `config`, `cli`, `attribution` | settings, arguments, pod attribution |
| `series`, `metrics`, `json`, `sink`, `http`, `otlp` | counters and the formats they are published in |
| `pipeline` | one packet through engine, metrics and sinks |
| `text`, `number`, `binary`, `shortest` | text, thresholds and ratios, doubles, their shortest text |
| `table` | a hash table |

`app/` is the agent around it: `main`, files and pipes, sockets, threads, and the
kernel's ring buffer. It loads the kernel program from
`/usr/lib/l4scope/l4scope.bpf.o`, or from the path in `L4SCOPE_BPF_OBJECT`.

Thresholds, rates and ratios behave as doubles: each is rounded to the nearest
number of 53 significant bits, ties to even, in comparisons and in text. The
arithmetic is done on integers and proved against that rounding.
