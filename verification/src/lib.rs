//! Networking building blocks for games: message framing over streams,
//! stream headers, and the WebTransport session handshake.
use vstd::prelude::*;

pub mod interface;
pub mod wire;
pub mod session;
pub mod handshake;
pub mod streams;
pub mod headers;
pub mod deserialize;
pub mod serialize;
pub mod protocol;
pub mod connections;
pub mod plugins;
pub mod endpoint;
pub mod quic;
pub mod transports;
pub mod quinn;

verus! {

} // verus!
