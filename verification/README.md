# h2core

Capture HTTP/2 traffic in the middle of its connections, and get headers that
decode.

HTTP/2 compresses headers with HPACK, which keeps a *dynamic table* in each
endpoint's memory. The table is never on the wire, so a capture that starts
mid-connection lacks the insertions that built it. The thing that has to start
early is the decoder, not the capture: a passive keeper watches continuously,
holds the tables, and writes them down at the byte where a capture begins. The
normalizer replays the capture from there and spells every header out in full.

A table applied at the wrong offset does not fail loudly; it yields plausible
headers that are wrong. This is why the engine is a verified library: framing,
decoding, reassembly, tracking and rebuilding are Verus code with contracts, and
the promises that span them are proof functions.

## Layout

| | |
|---|---|
| `src/hpack.rs`, `src/hpack/` | tolerant HPACK decoder, literal encoder |
| `src/frame.rs` | HTTP/2 frames |
| `src/reassembly.rs` | TCP segments back in order |
| `src/conn.rs` | one direction of a connection |
| `src/pkt.rs`, `src/addr.rs` | Ethernet, IP and TCP packets |
| `src/tracker.rs`, `src/snapshot.rs` | connections and their snapshots |
| `src/capture.rs`, `src/ring.rs`, `src/status.rs` | the keeper's state and what it reports |
| `src/filter.rs`, `src/ports.rs` | the kernel packet filter and port lists |
| `src/api.rs` | what control requests ask for |
| `src/rebuild.rs`, `src/rebuild/` | the normalizer |
| `src/loadgen.rs` | requests for measuring the keeper |
| `*/laws.rs`, `src/rebuild/synth_laws.rs` | what holds across functions and calls |
| `src/conn/framing.rs` | where frames start, however the stream is cut |
| `src/conn/runs.rs` | what holds whatever happens to a direction |
| `src/reassembly/pieces.rs` | a stream that arrives in pieces comes out whole |
| `src/rebuild/counting.rs` | the output holds what the report counts |
| `src/rebuild/telling.rs` | the output tells what was taken off the capture |
| `src/reassembly/supply.rs`, `src/tracker/pending.rs` | which bytes a capture has to start with |
| `app/` | sockets, files, HTTP, JSON and the command line |

## What is trusted

Proofs rest on the contracts of a few wrappers around code that is not verified
here: Huffman decoding (`src/hpack/huffman.rs`), lossy text (`src/hpack.rs`), UTF-8
checking (`src/snapshot.rs`) and appending a character (`src/text.rs`). Each says
above itself what it claims.

## Use

```sh
h2core tapd --iface eth0 --ports 8080,7777,29500-29520 --out-dir /var/lib/h2tapd
curl -XPOST localhost:9099/captures -d '{"name":"test"}'
curl -XDELETE localhost:9099/captures/test
h2core rebuild -r test.pcap -s test.snapshot.json -w test-normalized.pcap
```
