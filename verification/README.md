# vortice

BEEP (RFC 3080 and RFC 3081) in verified Rust.

`src/` is a sans-IO library, every item of which is checked by Verus against the contract it
states:

| Module | Contents |
|---|---|
| `frame`, `codec` | Frames, their encoding, and an incremental decoder |
| `window`, `channel` | Sequence numbers, flow control, fragmentation and reassembly |
| `mime`, `xml`, `greeting`, `management` | What is said on channel 0 |
| `session` | The session state machine; `session::delivery` states what holds between two ends, `session::ordering` what holds of replies produced out of order |
| `head` | HTTP heads, as far as an upgrade needs them |
| `upgrade` | Reaching BEEP through an HTTP upgrade |
| `ws` | BEEP over WebSocket: framing, handshake, and the stream in between; `ws::reading` states what a whole run of reads gives |
| `tls` | The TLS profile, certificates, and telling TLS from what else may arrive |
| `interop` | Reading what the LibVortex regression suite prints |
| `octets`, `text`, `decimal`, `error` | What the others share |

`app/` puts the library on sockets: tokio transports, an axum extractor, TLS streams, and the
processes of the regression suite. `tests/` holds the library's tests.

The functions marked `external_body`, and the `assume_specification` items, are the calls into
other crates and into the standard library. Their contracts are not proved; each says in its doc
comment what it claims.

What holds of several functions at once is stated in the public proof functions whose names begin
with `law_`.
