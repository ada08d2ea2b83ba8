//! The error types of the transports' streams, and the transports' stream
//! ids and endpoints that carry no state of their own.
use vstd::prelude::*;
use crate::interface::ErrorFatality;

verus! {

/// Why writing to a QUIC stream failed.
#[derive(Clone, Copy, Debug, PartialEq, Eq, Structural)]
pub enum QuinnSendError {
    /// the peer cannot take more data yet, or the stream is congested
    Blocked,
    /// the stream was never opened, was finished or was reset
    NoStream,
}

/// Why reading a QUIC stream failed.
#[derive(Clone, Copy, Debug, PartialEq, Eq, Structural)]
pub enum QuinnReadError {
    /// no more data for now; a closed stream event may follow
    Blocked,
    /// the stream was never opened, was finished or was reset
    NoStream,
}

impl ErrorFatality for QuinnSendError {
    open spec fn fatal(&self) -> bool {
        *self == QuinnSendError::NoStream
    }

    fn is_fatal(&self) -> (r: bool) {
        match self {
            QuinnSendError::Blocked => false,
            QuinnSendError::NoStream => true,
        }
    }
}

impl ErrorFatality for QuinnReadError {
    open spec fn fatal(&self) -> bool {
        *self == QuinnReadError::NoStream
    }

    fn is_fatal(&self) -> (r: bool) {
        match self {
            QuinnReadError::Blocked => false,
            QuinnReadError::NoStream => true,
        }
    }
}

/// Why writing to a browser WebTransport stream failed.
#[derive(Clone, Copy, Debug, PartialEq, Eq, Structural)]
pub enum WebTransportSendError {
    Blocked,
    NoStream,
}

/// Why reading a browser WebTransport stream failed.
#[derive(Clone, Copy, Debug, PartialEq, Eq, Structural)]
pub enum WebTransportReadError {
    Blocked,
    Finished,
    NoStream,
}

impl ErrorFatality for WebTransportSendError {
    open spec fn fatal(&self) -> bool {
        *self == WebTransportSendError::NoStream
    }

    fn is_fatal(&self) -> (r: bool) {
        match self {
            WebTransportSendError::Blocked => false,
            WebTransportSendError::NoStream => true,
        }
    }
}

impl ErrorFatality for WebTransportReadError {
    open spec fn fatal(&self) -> bool {
        *self == WebTransportReadError::NoStream
    }

    fn is_fatal(&self) -> (r: bool) {
        match self {
            WebTransportReadError::Blocked => false,
            WebTransportReadError::Finished => false,
            WebTransportReadError::NoStream => true,
        }
    }
}

/// The send buffer of a browser stream is full. This is fatal: writing
/// again cannot succeed before the buffer is flushed to the socket, which
/// happens once per update.
#[derive(Clone, Copy, Debug, PartialEq, Eq, Structural)]
pub struct SendBufferFull;

impl ErrorFatality for SendBufferFull {
    open spec fn fatal(&self) -> bool {
        true
    }

    fn is_fatal(&self) -> (r: bool) {
        true
    }
}

/// The id of a stream of a browser WebTransport session.
#[derive(Clone, Copy, Debug, PartialEq, Eq, Structural)]
pub struct WasmStreamId(pub u64);

/// An endpoint in the browser. Browsers cannot accept connections.
#[derive(Clone, Copy, Debug, PartialEq, Eq, Structural)]
pub struct WasmEndpoint;

impl WasmEndpoint {
    /// Whether an incoming connection is accepted: never, in a browser.
    pub fn accepts_incoming(&self) -> (r: bool)
        ensures
            !r,
    {
        false
    }
}

/// What a write to a QUIC stream ended with.
#[derive(Clone, Copy, Debug, PartialEq, Eq, Structural)]
pub enum WriteOutcome {
    /// this many bytes were written
    Written(usize),
    /// the stream takes no more data for now
    Blocked,
    /// the stream was closed
    ClosedStream,
    /// the peer stopped the stream with an error code
    Stopped(u64),
}

/// The result of a write to a QUIC stream, as the stream's send error.
pub fn quinn_send_result(outcome: WriteOutcome) -> (r: Result<usize, QuinnSendError>)
    ensures
        r == (match outcome {
            WriteOutcome::Written(n) => Ok::<usize, QuinnSendError>(n),
            WriteOutcome::Blocked => Err(QuinnSendError::Blocked),
            _ => Err(QuinnSendError::NoStream),
        }),
{
    match outcome {
        WriteOutcome::Written(n) => Ok(n),
        WriteOutcome::Blocked => Err(QuinnSendError::Blocked),
        WriteOutcome::ClosedStream => Err(QuinnSendError::NoStream),
        WriteOutcome::Stopped(_) => Err(QuinnSendError::NoStream),
    }
}

/// The result of a write to a QUIC stream, as the endpoint's write error.
pub fn write_result(outcome: WriteOutcome) -> (r: Result<usize, crate::quic::WriteError>)
    ensures
        r == (match outcome {
            WriteOutcome::Written(n) => Ok::<usize, crate::quic::WriteError>(n),
            WriteOutcome::Blocked => Err(crate::quic::WriteError::Blocked),
            _ => Err(crate::quic::WriteError::StreamDoesntExist),
        }),
{
    match outcome {
        WriteOutcome::Written(n) => Ok(n),
        WriteOutcome::Blocked => Err(crate::quic::WriteError::Blocked),
        WriteOutcome::ClosedStream => Err(crate::quic::WriteError::StreamDoesntExist),
        WriteOutcome::Stopped(_) => Err(crate::quic::WriteError::StreamDoesntExist),
    }
}

} // verus!
