# nevy

Networking building blocks for games, verified with Verus: message framing
over streams, stream headers, transport-independent access to connections
and streams, and the WebTransport session handshake on top of QUIC.

- `src/` is the verified library. Its contracts state what the library
  itself decides. Where a result comes from a transport (a send, a read, a
  poll), the contract follows the run of calls made on that stream or
  connection, each from the state the one before left it in, as far as the
  transport's own trait says what one call does (`recv_step`, `send_step`,
  `poll_step`, `open_step`), and says what the library did with each
  result. The laws of the library are the public `law_*` proof functions.
- `src/wire.rs` and `src/quinn.rs` hold the trusted items: the calls into
  `web_transport_proto`, `url` and `quinn_proto`, with the contracts that the
  rest of the library relies on.
- `tests/` runs the library on in-memory connections.
- `app/` holds what the library leaves out: the UDP sockets, the clock,
  bincode (de)serialization of messages and the loops that drive endpoints.
