# prism-core

The data plane of a low-latency remote desktop: what travels between a host that shows its
screen and a client that plays on it, verified with Verus.

## Layout

| Path | Contents |
|---|---|
| `src/bytes.rs` | Little-endian fields in byte buffers |
| `src/net/packet.rs`, `packetize.rs`, `reassemble.rs` | Packets, cutting slices, rebuilding frames |
| `src/net/fec.rs` | Reed-Solomon parity |
| `src/net/sender.rs`, `sendpace.rs`, `cc.rs`, `loss.rs` | The send path, pacing, congestion control, loss injection |
| `src/net/ack.rs`, `clocksync.rs` | Frame acknowledgements, clock offsets |
| `src/net/handshake.rs`, `seal.rs`, `secure.rs`, `crypto.rs` | Session keys, sealed packets |
| `src/net/negotiate.rs`, `pairing.rs`, `rendezvous.rs`, `grant.rs` | Agreeing, pairing, finding each other, relay grants |
| `src/net/transfer.rs` | Moving files |
| `src/render/` | Presentation pacing, cursor bitmap, overlay panel, plane cache |
| `src/stats.rs`, `src/yuv.rs` | Latency summaries, colour conversion |
| `app/` | Sockets, files, threads, GPU backends and floating point around the library |
| `tests/` | Tests of the library from outside |

Times are integers, in microseconds or nanoseconds as each name says, and are always passed in.
Nothing in `src/` reads a clock, a socket or a file.
