# mp_http_server

A multi-protocol HTTP server (HTTP/1.1, a subset of HTTP/2, an experimental
HTTP/3-style framing over UDP, TLS 1.3) whose protocol logic is a library
verified with Verus.

## Layout

- `src/` — the verified library.
  - `text.rs`: character and byte helpers (splitting, trimming, ASCII case,
    decimal rendering and parsing) with their specifications.
  - `string_map.rs`: the header and parameter map (a later insert wins).
  - `request.rs`: methods and HTTP/1.x request parsing on top of `httparse`.
  - `compression.rs`: `Accept-Encoding` negotiation and gzip through `flate2`.
  - `response.rs`: response construction and the HTTP/1.x wire format.
  - `router.rs`: path patterns (`{param}`, `*`), first-match dispatch with
    404 / 405 answers, and the server's endpoint table.
  - `handler.rs`: the answers of the built-in routes, given what the file
    system reported.
  - `header_block.rs`: the field layout of HPACK header blocks, and the check
    that refuses blocks whose dynamic-table size updates are cut short.
  - `http2.rs`: frame headers, the connection state machine (preface, HEADERS,
    DATA, WINDOW_UPDATE) with HPACK decoding through `hpack` (the decoder's
    table is part of the connection's state), and response framing.
  - `http3.rs`: QUIC packet headers, datagram framing and QPACK-style literal
    fields.
  - `buffer.rs`: the connection buffers (`bytes::BytesMut`).
  - `connection.rs`: protocol detection, the per-connection state machine
    between readiness events, when a connection is dropped, idle sweeps, and
    round-robin worker selection.
  - `tls.rs`: the TLS configuration through `rcgen` and `rustls`.
- `app/` — the program around the library: argument handling, the `mio`
  reactors and sockets, file access for the routes.
- `tests/` — tests of the library.

Public functions state their behaviour in `requires` / `ensures`; the
properties that span several functions are stated as public proof functions
whose names begin with `law_`.  Where a result comes from an outside crate,
the contract says what that crate's source shows and no more: the TLS
configuration, for one, is stated to offer the ALPN ids `h2` then
`http/1.1`, while its certificate and key, generated at random, are only
carried through; HPACK decoding and gzip compression are named results
(with the gzip frame stated); the HTTP/1.x head comes from `httparse`.
