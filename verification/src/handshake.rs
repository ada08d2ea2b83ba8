//! The WebTransport handshake of the endpoint-level transport: connections
//! that have not finished negotiating WebTransport are held back until their
//! SETTINGS and CONNECT exchange is complete.
use vstd::prelude::*;
use crate::interface::{Side, Dir, StreamConnection, append_bytes, drain_front, is_written_suffix, conn_send_can_give, chained, lemma_chained_push, conn_recv_trace, delivered};
use crate::wire::{url_parses, WEBTRANSPORT_MAX_SESSIONS, CONNECT_OK_STATUS, is_frame_of_type, is_webtransport_settings, settings_decoded, connect_request_judged, varint_decode, decode_frame, encode_webtransport_settings, decode_settings, parse_url, encode_connect_request, judge_connect_request, connect_response, is_connect_response};
use crate::session::{ReadResult, settings_outcome, connect_outcome, settings_read_result, connect_read_result};
use std::collections::HashMap;

verus! {

broadcast use vstd::std_specs::hash::group_hash_axioms;

/// Where a server is in the handshake.
#[derive(Clone, Copy, Debug, PartialEq, Eq, Structural)]
pub enum HandshakeReceiveStream {
    /// waiting for the peer to open a unidirectional stream for its settings
    SettingsWait,
    /// reading the peer's settings on this stream
    ReceivingSettings(u64),
    /// sending the settings response on this stream
    SendSettingsResponse(u64),
    /// waiting for the peer's bidirectional CONNECT stream
    ConnectWait,
    /// reading the CONNECT request on this stream
    ReceivingConnect(u64),
    /// sending the CONNECT response on this stream
    SendConnectResponse(u64),
}

/// Where a client is in the handshake.
#[derive(Clone, Copy, Debug, PartialEq, Eq, Structural)]
pub enum HandshakeSendStream {
    /// about to produce its settings
    GenerateSettings,
    /// sending its settings on this stream
    SendSettings(u64),
    /// waiting for the peer to open a unidirectional stream for its settings
    WaitSettingStream,
    /// reading the peer's settings on this stream
    ReceiveSettings(u64),
    /// sending the CONNECT request on this stream
    SendConnect(u64),
    /// reading the CONNECT response on this stream
    ReceivingConnectResponse(u64),
}

/// A connection that has not finished the WebTransport handshake.
pub(crate) enum UninitializedConnection {
    Client { state: HandshakeSendStream, buffer: Vec<u8> },
    Server { state: HandshakeReceiveStream, buffer: Vec<u8> },
    Failed,
}

/// The model of a connection in the handshake: its state and the bytes of
/// the message being sent or read.
pub enum HandshakeModel {
    Client(HandshakeSendStream, Seq<u8>),
    Server(HandshakeReceiveStream, Seq<u8>),
    Failed,
}

impl UninitializedConnection {
    pub(crate) closed spec fn model(&self) -> HandshakeModel {
        match self {
            UninitializedConnection::Client { state, buffer } => HandshakeModel::Client(*state, buffer@),
            UninitializedConnection::Server { state, buffer } => HandshakeModel::Server(*state, buffer@),
            UninitializedConnection::Failed => HandshakeModel::Failed,
        }
    }
}

/// The WebTransport part of an endpoint: the connections still negotiating.
pub struct WebTransportEndpoint {
    uninitialized_connections: HashMap<u64, UninitializedConnection>,
}

impl View for WebTransportEndpoint {
    type V = Map<u64, HandshakeModel>;

    closed spec fn view(&self) -> Map<u64, HandshakeModel> {
        self.uninitialized_connections@.map_values(|c: UninitializedConnection| c.model())
    }
}

/// What the endpoint does with a stream the peer opened.
#[derive(Clone, Copy, Debug, PartialEq, Eq, Structural)]
pub enum NewStreamAction {
    /// report the stream to the application
    Forward,
    /// the handshake took the stream; report nothing
    Consumed,
    /// the peer broke the handshake: disconnect it and report nothing
    DisconnectPeer,
    /// the connection is established: check the stream's WebTransport
    /// header before reporting it
    CheckHeader,
}

/// One chunk read from a handshake stream has been added to the message.
#[derive(Clone, Copy, Debug, PartialEq, Eq, Structural)]
pub enum ReadStep {
    /// the message is incomplete: read the next chunk
    Continue,
    /// the message was judged
    Done(ReadResult),
}

/// The state a new connection starts the handshake in.
pub open spec fn initial_handshake(side: Side) -> HandshakeModel {
    match side {
        Side::Client => HandshakeModel::Client(HandshakeSendStream::GenerateSettings, Seq::empty()),
        Side::Server => HandshakeModel::Server(HandshakeReceiveStream::SettingsWait, Seq::empty()),
    }
}

/// How the handshake takes a stream the peer opened: the stream a waiting
/// state expects moves it on, a stream of the wrong direction fails the
/// connection (and is reported), a connection that already failed is
/// disconnected and forgotten, and other streams are taken silently.
pub open spec fn stream_taken(pre: HandshakeModel, stream: u64, bi_directional: bool) -> (Option<HandshakeModel>, NewStreamAction) {
    match pre {
        HandshakeModel::Client(HandshakeSendStream::WaitSettingStream, b) => if bi_directional {
            (Some(HandshakeModel::Failed), NewStreamAction::Forward)
        } else {
            (Some(HandshakeModel::Client(HandshakeSendStream::ReceiveSettings(stream), b)), NewStreamAction::Consumed)
        },
        HandshakeModel::Server(HandshakeReceiveStream::SettingsWait, b) => if bi_directional {
            (Some(HandshakeModel::Failed), NewStreamAction::Forward)
        } else {
            (Some(HandshakeModel::Server(HandshakeReceiveStream::ReceivingSettings(stream), b)), NewStreamAction::Consumed)
        },
        HandshakeModel::Server(HandshakeReceiveStream::ConnectWait, b) => if !bi_directional {
            (Some(HandshakeModel::Failed), NewStreamAction::Forward)
        } else {
            (Some(HandshakeModel::Server(HandshakeReceiveStream::ReceivingConnect(stream), b)), NewStreamAction::Consumed)
        },
        HandshakeModel::Failed => (None, NewStreamAction::DisconnectPeer),
        _ => (Some(pre), NewStreamAction::Consumed),
    }
}

/// The stream a handshake state reads from, if it reads.
pub open spec fn reading_stream_of(m: HandshakeModel) -> Option<u64> {
    match m {
        HandshakeModel::Client(HandshakeSendStream::ReceiveSettings(s), _) => Some(s),
        HandshakeModel::Client(HandshakeSendStream::ReceivingConnectResponse(s), _) => Some(s),
        HandshakeModel::Server(HandshakeReceiveStream::ReceivingSettings(s), _) => Some(s),
        HandshakeModel::Server(HandshakeReceiveStream::ReceivingConnect(s), _) => Some(s),
        _ => None,
    }
}

/// A read chunk added to the message of a reading state and the judgement
/// of the message so far. The server's CONNECT stream is read as a CONNECT
/// request; every other handshake stream is read as SETTINGS.
/// The state and step after the chunks `chunks` were absorbed, one after
/// the other, by a connection in state `pre`.
pub open spec fn chunks_absorbed(pre: HandshakeModel, chunks: Seq<Seq<u8>>) -> (HandshakeModel, ReadStep)
    decreases chunks.len(),
{
    if chunks.len() == 0 {
        (pre, ReadStep::Continue)
    } else {
        chunk_absorbed(chunks_absorbed(pre, chunks.drop_last()).0, chunks.last())
    }
}

/// What reading the handshake stream `s` of a connection in state `pre`
/// did, by its run of reads `t`: each read was of any length; `chunks` are
/// the bytes the reads gave, in order, each nonempty, and every one but the
/// last left the message unjudged. A judged message is the result and ends
/// the reads; otherwise the result is a failure, after a read that gave
/// nothing or failed, or after `max_reads` reads.
pub open spec fn handshake_reads<C: StreamConnection>(
    s: u64,
    pre: HandshakeModel,
    t: Seq<(C, C, usize, Result<Vec<u8>, C::ReadError>)>,
    chunks: Seq<Seq<u8>>,
    max_reads: usize,
    r: ReadResult,
) -> bool {
    &&& conn_recv_trace(s, t)
    &&& t.len() <= max_reads
    &&& forall|i: int| 0 <= i < t.len() ==> #[trigger] t[i].2 == usize::MAX
    &&& chunks.len() <= t.len() <= chunks.len() + 1
    &&& forall|i: int| 0 <= i < chunks.len() ==> (#[trigger] t[i].3 matches Ok(b) && b@ == chunks[i] && chunks[i].len() > 0)
    &&& forall|j: int| 0 < j < chunks.len() ==> (#[trigger] chunks_absorbed(pre, chunks.take(j))).1 is Continue
    &&& match chunks_absorbed(pre, chunks).1 {
        ReadStep::Done(res) => r == res && t.len() == chunks.len(),
        ReadStep::Continue => r == ReadResult::Fail && (t.len() == max_reads
            || (t.len() == chunks.len() + 1 && !delivered(t.last().3))),
    }
}

pub open spec fn chunk_absorbed(pre: HandshakeModel, chunk: Seq<u8>) -> (HandshakeModel, ReadStep) {
    match pre {
        HandshakeModel::Client(state, b) => if reading_stream_of(pre) is Some {
            (HandshakeModel::Client(state, b + chunk), read_step_of(settings_outcome(settings_decoded(b + chunk))))
        } else {
            (pre, ReadStep::Continue)
        },
        HandshakeModel::Server(state, b) => if state is ReceivingSettings {
            (HandshakeModel::Server(state, b + chunk), read_step_of(settings_outcome(settings_decoded(b + chunk))))
        } else if state is ReceivingConnect {
            (HandshakeModel::Server(state, b + chunk), read_step_of(connect_outcome(connect_request_judged(b + chunk))))
        } else {
            (pre, ReadStep::Continue)
        },
        HandshakeModel::Failed => (pre, ReadStep::Continue),
    }
}

pub open spec fn read_step_of(r: ReadResult) -> ReadStep {
    match r {
        ReadResult::Wait => ReadStep::Continue,
        _ => ReadStep::Done(r),
    }
}

/// The outcome of offering the message `b` of a sending state once to
/// stream `s` of a connection of type `C`: a send that wrote all of it
/// moves to `done`, one that wrote a part of it stays with the rest, and
/// one that failed fails the connection.
pub open spec fn write_step<C: StreamConnection>(s: u64, b: Seq<u8>, post: Option<HandshakeModel>, done: Option<HandshakeModel>, stay: HandshakeModel) -> bool {
    ||| post == Some(HandshakeModel::Failed) && exists|e: C::SendError| #[trigger] conn_send_can_give::<C>(s, b, Err(e))
    ||| post == done && conn_send_can_give::<C>(s, b, Ok(b.len() as usize))
    ||| exists|rest: Seq<u8>|
        #[trigger] is_written_suffix(b, rest) && rest.len() > 0 && post == Some(with_buffer(stay, rest))
            && conn_send_can_give::<C>(s, b, Ok((b.len() - rest.len()) as usize))
}

/// The calls one handshake step of a connection in state `pre` made on the
/// connection, from `before` to `after`, leaving the state `post`: a
/// sending state made one send of its whole message on its stream, and the
/// next state follows what it gave (all written, a rest left, or a
/// failure); a state that opens a stream opened one of the direction it
/// needs, and the next state uses that stream; any other step makes no
/// call.
pub open spec fn handshake_calls<C: StreamConnection>(pre: HandshakeModel, post: Option<HandshakeModel>, read: ReadResult, before: C, after: C) -> bool {
    match pre {
        HandshakeModel::Client(HandshakeSendStream::GenerateSettings, b) => exists|opened: Option<u64>|
            #[trigger] C::open_step(&before, &after, Dir::Uni, opened) && match opened {
                None => post == Some(HandshakeModel::Failed),
                Some(id) => post matches Some(HandshakeModel::Client(HandshakeSendStream::SendSettings(id2), _)) && id2 == id,
            },
        HandshakeModel::Client(HandshakeSendStream::SendSettings(s), b) => sent_once::<C>(s, b, post, pre, before, after),
        HandshakeModel::Client(HandshakeSendStream::ReceiveSettings(s), b) => match read {
            ReadResult::Success => exists|opened: Option<u64>|
                #[trigger] C::open_step(&before, &after, Dir::Bi, opened) && match opened {
                    None => post == Some(HandshakeModel::Failed),
                    Some(id) => if url_parses("Hello"@) {
                        post matches Some(HandshakeModel::Client(HandshakeSendStream::SendConnect(id2), request)) && id2 == id
                            && is_frame_of_type(request, 1)
                    } else {
                        post == Some(HandshakeModel::Failed)
                    },
                },
            _ => after == before,
        },
        HandshakeModel::Client(HandshakeSendStream::SendConnect(s), b) => sent_once::<C>(s, b, post, pre, before, after),
        HandshakeModel::Server(HandshakeReceiveStream::ReceivingSettings(s), b) => match read {
            ReadResult::Success => exists|opened: Option<u64>|
                #[trigger] C::open_step(&before, &after, Dir::Uni, opened) && match opened {
                    None => post == Some(HandshakeModel::Failed),
                    Some(id) => post matches Some(HandshakeModel::Server(HandshakeReceiveStream::SendSettingsResponse(id2), _)) && id2 == id,
                },
            _ => after == before,
        },
        HandshakeModel::Server(HandshakeReceiveStream::SendSettingsResponse(s), b) => sent_once::<C>(s, b, post, pre, before, after),
        HandshakeModel::Server(HandshakeReceiveStream::SendConnectResponse(s), b) => sent_once::<C>(s, b, post, pre, before, after),
        _ => after == before,
    }
}

/// One send of the message `b` on stream `s`, from `before` to `after`,
/// whose result the next state `post` follows: a failure fails the
/// connection, and a message not all written stays with the rest.
pub open spec fn sent_once<C: StreamConnection>(s: u64, b: Seq<u8>, post: Option<HandshakeModel>, stay: HandshakeModel, before: C, after: C) -> bool {
    exists|res: Result<usize, C::SendError>|
        #[trigger] C::send_step(&before, &after, s, b, res)
        && (post == Some(HandshakeModel::Failed) <==> res is Err)
        && (res matches Ok(n) ==> (n == b.len() || post == Some(with_buffer(stay, b.subrange(n as int, b.len() as int)))))
}

/// `m` with the bytes of its message replaced.
pub open spec fn with_buffer(m: HandshakeModel, bytes: Seq<u8>) -> HandshakeModel {
    match m {
        HandshakeModel::Client(state, _) => HandshakeModel::Client(state, bytes),
        HandshakeModel::Server(state, _) => HandshakeModel::Server(state, bytes),
        HandshakeModel::Failed => HandshakeModel::Failed,
    }
}

/// One handshake step of a connection, given the judgement of what its
/// reading state read this step. `None` means the handshake is complete and
/// the connection leaves the handshake.
pub open spec fn handshake_advanced<C: StreamConnection>(pre: HandshakeModel, post: Option<HandshakeModel>, read: ReadResult) -> bool {
    match pre {
        HandshakeModel::Client(HandshakeSendStream::GenerateSettings, b) => post == Some(HandshakeModel::Failed) || (
        post matches Some(HandshakeModel::Client(HandshakeSendStream::SendSettings(_), b2))
            && b2.len() >= b.len() && b2.subrange(0, b.len() as int) == b
            && is_webtransport_settings(b2.subrange(b.len() as int, b2.len() as int))),
        HandshakeModel::Client(HandshakeSendStream::SendSettings(s), b) => write_step::<C>(
            s,
            b,
            post,
            Some(HandshakeModel::Client(HandshakeSendStream::WaitSettingStream, Seq::empty())),
            pre,
        ),
        HandshakeModel::Client(HandshakeSendStream::ReceiveSettings(s), b) => match read {
            ReadResult::Wait => post == Some(pre),
            ReadResult::Fail => post == Some(HandshakeModel::Failed),
            ReadResult::Success => post == Some(HandshakeModel::Failed) || (
            post matches Some(HandshakeModel::Client(HandshakeSendStream::SendConnect(_), request)) && is_frame_of_type(request, 1)),
        },
        HandshakeModel::Client(HandshakeSendStream::SendConnect(s), b) => write_step::<C>(
            s,
            b,
            post,
            Some(HandshakeModel::Client(HandshakeSendStream::ReceivingConnectResponse(s), Seq::empty())),
            pre,
        ),
        HandshakeModel::Client(HandshakeSendStream::ReceivingConnectResponse(s), b) => match read {
            ReadResult::Wait => post == Some(pre),
            ReadResult::Fail => post == Some(HandshakeModel::Failed),
            ReadResult::Success => post is None,
        },
        HandshakeModel::Server(HandshakeReceiveStream::ReceivingSettings(s), b) => match read {
            ReadResult::Wait => post == Some(pre),
            ReadResult::Fail => post == Some(HandshakeModel::Failed),
            ReadResult::Success => post == Some(HandshakeModel::Failed) || (
            post matches Some(HandshakeModel::Server(HandshakeReceiveStream::SendSettingsResponse(_), response)) && is_webtransport_settings(response)),
        },
        HandshakeModel::Server(HandshakeReceiveStream::SendSettingsResponse(s), b) => write_step::<C>(
            s,
            b,
            post,
            Some(HandshakeModel::Server(HandshakeReceiveStream::ConnectWait, Seq::empty())),
            pre,
        ),
        HandshakeModel::Server(HandshakeReceiveStream::ReceivingConnect(s), b) => match read {
            ReadResult::Wait => post == Some(pre),
            ReadResult::Fail => post == Some(HandshakeModel::Failed),
            ReadResult::Success => post matches Some(HandshakeModel::Server(HandshakeReceiveStream::SendConnectResponse(s2), response))
                && s2 == s && is_frame_of_type(response, 1) && is_connect_response(response, CONNECT_OK_STATUS),
        },
        HandshakeModel::Server(HandshakeReceiveStream::SendConnectResponse(s), b) => write_step::<C>(s, b, post, None, pre),
        _ => post == Some(pre),
    }
}

/// What writing a handshake message did.
pub(crate) enum WriteOutcome {
    /// all of it was written
    Complete,
    /// this rest is left to write
    Partial(Vec<u8>),
    /// the write failed
    Failed,
}

/// Writes one handshake message once: the stream takes all of it, a part of
/// it, or fails.
fn write_message<C: StreamConnection>(connection: &mut C, stream: u64, buffer: Vec<u8>) -> (r: WriteOutcome)
    ensures
        r matches WriteOutcome::Partial(rest) ==> rest@.len() > 0 && is_written_suffix(buffer@, rest@)
            && conn_send_can_give::<C>(stream, buffer@, Ok((buffer@.len() - rest@.len()) as usize)),
        r is Complete ==> conn_send_can_give::<C>(stream, buffer@, Ok(buffer@.len() as usize)),
        r is Failed ==> exists|e: C::SendError| #[trigger] conn_send_can_give::<C>(stream, buffer@, Err(e)),
        exists|res: Result<usize, C::SendError>|
            #[trigger] C::send_step(&*old(connection), &*final(connection), stream, buffer@, res)
            && (r is Failed <==> res is Err)
            && (r is Complete ==> (res matches Ok(n) && n == buffer@.len()))
            && (r matches WriteOutcome::Partial(rest) ==> (res matches Ok(n) && n == buffer@.len() - rest@.len())
                && rest@ == buffer@.subrange(buffer@.len() - rest@.len(), buffer@.len() as int)),
{
    let mut buffer = buffer;
    let ghost initial = buffer@;
    let outcome = connection.send(stream, buffer.as_slice());
    assert(conn_send_can_give::<C>(stream, initial, outcome));
    match outcome {
        Ok(written) => if written == buffer.len() {
            WriteOutcome::Complete
        } else {
            drain_front(&mut buffer, written);
            assert(0 <= written as int <= initial.len() && buffer@ == initial.subrange(written as int, initial.len() as int));
            WriteOutcome::Partial(buffer)
        },
        Err(e) => {
            assert(conn_send_can_give::<C>(stream, initial, Err(e)));
            WriteOutcome::Failed
        },
    }
}

pub(crate) open spec fn option_model(c: Option<UninitializedConnection>) -> Option<HandshakeModel> {
    match c {
        Some(c) => Some(c.model()),
        None => None,
    }
}

/// One handshake step of one connection; `None` when the handshake is complete.
fn step_connection<C: StreamConnection>(pre: UninitializedConnection, connection: &mut C, read: ReadResult) -> (r: Option<UninitializedConnection>)
    requires
        !(pre.model() is Failed),
    ensures
        handshake_advanced::<C>(pre.model(), option_model(r), read),
        handshake_calls::<C>(pre.model(), option_model(r), read, *old(connection), *final(connection)),
{
    let ghost m = pre.model();
    match pre {
        UninitializedConnection::Client { state, mut buffer } => match state {
            HandshakeSendStream::GenerateSettings => {
                let ghost b = buffer@;
                let settings = encode_webtransport_settings(WEBTRANSPORT_MAX_SESSIONS);
                append_bytes(&mut buffer, settings.as_slice());
                assert(buffer@.subrange(0, b.len() as int) =~= b);
                assert(buffer@.subrange(b.len() as int, buffer@.len() as int) =~= settings@);
                match connection.open_stream(Dir::Uni) {
                    None => Some(UninitializedConnection::Failed),
                    Some(stream) => Some(UninitializedConnection::Client { state: HandshakeSendStream::SendSettings(stream), buffer }),
                }
            },
            HandshakeSendStream::SendSettings(stream) => match write_message(connection, stream, buffer) {
                WriteOutcome::Complete => Some(UninitializedConnection::Client { state: HandshakeSendStream::WaitSettingStream, buffer: Vec::new() }),
                WriteOutcome::Partial(rest) => {
                    let r = Some(UninitializedConnection::Client { state: HandshakeSendStream::SendSettings(stream), buffer: rest });
                    assert(is_written_suffix(buffer@, rest@));
                    assert(option_model(r) == Some(with_buffer(m, rest@)));
                    r
                },
                WriteOutcome::Failed => Some(UninitializedConnection::Failed),
            },
            HandshakeSendStream::ReceiveSettings(stream) => match read {
                ReadResult::Wait => Some(UninitializedConnection::Client { state, buffer }),
                ReadResult::Fail => Some(UninitializedConnection::Failed),
                ReadResult::Success => match connection.open_stream(Dir::Bi) {
                    None => Some(UninitializedConnection::Failed),
                    Some(connect_stream) => match parse_url("Hello") {
                        None => Some(UninitializedConnection::Failed),
                        Some(url) => {
                            let request = encode_connect_request(&url);
                            Some(UninitializedConnection::Client { state: HandshakeSendStream::SendConnect(connect_stream), buffer: request })
                        },
                    },
                },
            },
            HandshakeSendStream::SendConnect(stream) => match write_message(connection, stream, buffer) {
                WriteOutcome::Complete => Some(UninitializedConnection::Client { state: HandshakeSendStream::ReceivingConnectResponse(stream), buffer: Vec::new() }),
                WriteOutcome::Partial(rest) => {
                    let r = Some(UninitializedConnection::Client { state: HandshakeSendStream::SendConnect(stream), buffer: rest });
                    assert(is_written_suffix(buffer@, rest@));
                    assert(option_model(r) == Some(with_buffer(m, rest@)));
                    r
                },
                WriteOutcome::Failed => Some(UninitializedConnection::Failed),
            },
            HandshakeSendStream::ReceivingConnectResponse(_) => match read {
                ReadResult::Wait => Some(UninitializedConnection::Client { state, buffer }),
                ReadResult::Fail => Some(UninitializedConnection::Failed),
                ReadResult::Success => None,
            },
            HandshakeSendStream::WaitSettingStream => Some(UninitializedConnection::Client { state, buffer }),
        },
        UninitializedConnection::Server { state, mut buffer } => match state {
            HandshakeReceiveStream::ReceivingSettings(_) => match read {
                ReadResult::Wait => Some(UninitializedConnection::Server { state, buffer }),
                ReadResult::Fail => Some(UninitializedConnection::Failed),
                ReadResult::Success => match connection.open_stream(Dir::Uni) {
                    None => Some(UninitializedConnection::Failed),
                    Some(response_stream) => {
                        let response = encode_webtransport_settings(WEBTRANSPORT_MAX_SESSIONS);
                        Some(UninitializedConnection::Server { state: HandshakeReceiveStream::SendSettingsResponse(response_stream), buffer: response })
                    },
                },
            },
            HandshakeReceiveStream::SendSettingsResponse(stream) => match write_message(connection, stream, buffer) {
                WriteOutcome::Complete => Some(UninitializedConnection::Server { state: HandshakeReceiveStream::ConnectWait, buffer: Vec::new() }),
                WriteOutcome::Partial(rest) => {
                    let r = Some(UninitializedConnection::Server { state: HandshakeReceiveStream::SendSettingsResponse(stream), buffer: rest });
                    assert(is_written_suffix(buffer@, rest@));
                    assert(option_model(r) == Some(with_buffer(m, rest@)));
                    r
                },
                WriteOutcome::Failed => Some(UninitializedConnection::Failed),
            },
            HandshakeReceiveStream::ReceivingConnect(stream) => match read {
                ReadResult::Wait => Some(UninitializedConnection::Server { state, buffer }),
                ReadResult::Fail => Some(UninitializedConnection::Failed),
                ReadResult::Success => {
                    let response = connect_response(CONNECT_OK_STATUS);
                    Some(UninitializedConnection::Server { state: HandshakeReceiveStream::SendConnectResponse(stream), buffer: response })
                },
            },
            HandshakeReceiveStream::SendConnectResponse(stream) => match write_message(connection, stream, buffer) {
                WriteOutcome::Complete => None,
                WriteOutcome::Partial(rest) => {
                    let r = Some(UninitializedConnection::Server { state: HandshakeReceiveStream::SendConnectResponse(stream), buffer: rest });
                    assert(is_written_suffix(buffer@, rest@));
                    assert(option_model(r) == Some(with_buffer(m, rest@)));
                    r
                },
                WriteOutcome::Failed => Some(UninitializedConnection::Failed),
            },
            HandshakeReceiveStream::SettingsWait => Some(UninitializedConnection::Server { state, buffer }),
            HandshakeReceiveStream::ConnectWait => Some(UninitializedConnection::Server { state, buffer }),
        },
        UninitializedConnection::Failed => Some(UninitializedConnection::Failed),
    }
}

impl WebTransportEndpoint {
    /// An endpoint with no connection negotiating.
    pub fn new() -> (r: Self)
        ensures
            r@ == Map::<u64, HandshakeModel>::empty(),
    {
        let r = WebTransportEndpoint { uninitialized_connections: HashMap::new() };
        assert(r@ =~= Map::<u64, HandshakeModel>::empty());
        r
    }

    /// Whether connection `id` is still negotiating.
    pub fn is_initializing(&self, id: u64) -> (r: bool)
        ensures
            r == self@.contains_key(id),
    {
        self.uninitialized_connections.contains_key(&id)
    }

    /// Whether connection `id` is negotiating and its handshake failed.
    pub fn has_failed(&self, id: u64) -> (r: bool)
        ensures
            r == (self@.contains_key(id) && self@[id] is Failed),
    {
        match self.uninitialized_connections.get(&id) {
            Some(UninitializedConnection::Failed) => true,
            _ => false,
        }
    }

    /// A QUIC connection was established: it starts the handshake from the
    /// side it is on. The application hears of it only once it completes.
    pub fn new_connection(&mut self, id: u64, side: Side)
        ensures
            final(self)@ == old(self)@.insert(id, initial_handshake(side)),
    {
        let connection = match side {
            Side::Client => UninitializedConnection::Client { state: HandshakeSendStream::GenerateSettings, buffer: Vec::new() },
            Side::Server => UninitializedConnection::Server { state: HandshakeReceiveStream::SettingsWait, buffer: Vec::new() },
        };
        self.uninitialized_connections.insert(id, connection);
        assert(self@ =~= old(self)@.insert(id, initial_handshake(side)));
    }

    /// A QUIC connection was lost. Returns `true` when the application should
    /// hear of it: only connections that had finished the handshake.
    pub fn disconnected(&mut self, id: u64) -> (forward: bool)
        ensures
            final(self)@ == old(self)@.remove(id),
            forward == !old(self)@.contains_key(id),
    {
        let removed = self.uninitialized_connections.remove(&id);
        assert(self@ =~= old(self)@.remove(id));
        removed.is_none()
    }

    /// The peer opened a stream on connection `id`.
    pub fn new_stream(&mut self, id: u64, stream: u64, bi_directional: bool) -> (action: NewStreamAction)
        ensures
            !old(self)@.contains_key(id) ==> action == NewStreamAction::CheckHeader && final(self)@ == old(self)@,
            old(self)@.contains_key(id) ==> ({
                let (post, a) = stream_taken(old(self)@[id], stream, bi_directional);
                &&& action == a
                &&& match post {
                    Some(m) => final(self)@ == old(self)@.insert(id, m),
                    None => final(self)@ == old(self)@.remove(id),
                }
            }),
    {
        let taken = self.uninitialized_connections.remove(&id);
        match taken {
            None => {
                assert(self@ =~= old(self)@);
                NewStreamAction::CheckHeader
            },
            Some(connection) => {
                let ghost pre = connection.model();
                assert(pre == old(self)@[id]);
                let (post, action) = match connection {
                    UninitializedConnection::Client { state, buffer } => match state {
                        HandshakeSendStream::WaitSettingStream => if bi_directional {
                            (Some(UninitializedConnection::Failed), NewStreamAction::Forward)
                        } else {
                            (Some(UninitializedConnection::Client { state: HandshakeSendStream::ReceiveSettings(stream), buffer }), NewStreamAction::Consumed)
                        },
                        _ => (Some(UninitializedConnection::Client { state, buffer }), NewStreamAction::Consumed),
                    },
                    UninitializedConnection::Server { state, buffer } => match state {
                        HandshakeReceiveStream::SettingsWait => if bi_directional {
                            (Some(UninitializedConnection::Failed), NewStreamAction::Forward)
                        } else {
                            (Some(UninitializedConnection::Server { state: HandshakeReceiveStream::ReceivingSettings(stream), buffer }), NewStreamAction::Consumed)
                        },
                        HandshakeReceiveStream::ConnectWait => if !bi_directional {
                            (Some(UninitializedConnection::Failed), NewStreamAction::Forward)
                        } else {
                            (Some(UninitializedConnection::Server { state: HandshakeReceiveStream::ReceivingConnect(stream), buffer }), NewStreamAction::Consumed)
                        },
                        _ => (Some(UninitializedConnection::Server { state, buffer }), NewStreamAction::Consumed),
                    },
                    UninitializedConnection::Failed => (None, NewStreamAction::DisconnectPeer),
                };
                match post {
                    Some(c) => {
                        let ghost m = c.model();
                        self.uninitialized_connections.insert(id, c);
                        assert(self@ =~= old(self)@.insert(id, m));
                    },
                    None => {
                        assert(self@ =~= old(self)@.remove(id));
                    },
                }
                action
            },
        }
    }


    /// Takes one handshake step for connection `id`; `read` is the judgement
    /// of what a reading state read this step (reading every chunk the
    /// stream has without reaching a judgement counts as a failure). A
    /// connection whose handshake completes leaves the endpoint's
    /// negotiating connections; a failed connection must not be stepped.
    pub fn advance_connection<C: StreamConnection>(&mut self, id: u64, connection: &mut C, read: ReadResult)
        requires
            old(self)@.contains_key(id) ==> !(old(self)@[id] is Failed),
        ensures
            !old(self)@.contains_key(id) ==> final(self)@ == old(self)@,
            old(self)@.contains_key(id) && final(self)@.contains_key(id) ==> final(self)@ == old(self)@.insert(id, final(self)@[id])
                && handshake_advanced::<C>(old(self)@[id], Some(final(self)@[id]), read),
            old(self)@.contains_key(id) && !final(self)@.contains_key(id) ==> final(self)@ == old(self)@.remove(id)
                && handshake_advanced::<C>(old(self)@[id], None, read),
            !old(self)@.contains_key(id) ==> *final(connection) == *old(connection),
            old(self)@.contains_key(id) ==> handshake_calls::<C>(
                old(self)@[id],
                if final(self)@.contains_key(id) { Some(final(self)@[id]) } else { None },
                read,
                *old(connection),
                *final(connection),
            ),
    {
        let taken = self.uninitialized_connections.remove(&id);
        match taken {
            None => {
                assert(self@ =~= old(self)@);
            },
            Some(c) => {
                let next = step_connection(c, connection, read);
                match next {
                    Some(c2) => {
                        let ghost m = c2.model();
                        self.uninitialized_connections.insert(id, c2);
                        assert(self@ =~= old(self)@.insert(id, m));
                    },
                    None => {
                        assert(self@ =~= old(self)@.remove(id));
                    },
                }
            },
        }
    }

    /// The stream connection `id` reads its handshake message from, if it is
    /// in a reading state.
    pub fn reading_stream(&self, id: u64) -> (r: Option<u64>)
        ensures
            r == (if self@.contains_key(id) { reading_stream_of(self@[id]) } else { None }),
    {
        match self.uninitialized_connections.get(&id) {
            None => None,
            Some(connection) => match connection {
                UninitializedConnection::Client { state, buffer: _ } => match state {
                    HandshakeSendStream::ReceiveSettings(s) => Some(*s),
                    HandshakeSendStream::ReceivingConnectResponse(s) => Some(*s),
                    _ => None,
                },
                UninitializedConnection::Server { state, buffer: _ } => match state {
                    HandshakeReceiveStream::ReceivingSettings(s) => Some(*s),
                    HandshakeReceiveStream::ReceivingConnect(s) => Some(*s),
                    _ => None,
                },
                UninitializedConnection::Failed => None,
            },
        }
    }

    /// Reads the handshake stream of connection `id`, one chunk of any
    /// length after the other, adding each to the message being read, until
    /// the message is judged, a read fails or gives nothing, or `max_reads`
    /// reads were made. A message not judged by then counts as a failure; a
    /// connection that reads no stream now waits.
    pub fn read_handshake<C: StreamConnection>(&mut self, id: u64, connection: &mut C, max_reads: usize) -> (r: ReadResult)
        ensures
            !(old(self)@.contains_key(id) && reading_stream_of(old(self)@[id]) is Some) ==> r == ReadResult::Wait
                && final(self)@ == old(self)@ && *final(connection) == *old(connection),
            old(self)@.contains_key(id) ==> (reading_stream_of(old(self)@[id]) matches Some(s) ==> exists|t: Seq<(C, C, usize, Result<Vec<u8>, C::ReadError>)>, chunks: Seq<Seq<u8>>|
                #![trigger chained(t, *old(connection), *final(connection)), handshake_reads(s, old(self)@[id], t, chunks, max_reads, r)]
                chained(t, *old(connection), *final(connection)) && handshake_reads(s, old(self)@[id], t, chunks, max_reads, r)
                && final(self)@ == old(self)@.insert(id, chunks_absorbed(old(self)@[id], chunks).0)),
    {
        let stream = match self.reading_stream(id) {
            Some(stream) => stream,
            None => {
                return ReadResult::Wait;
            },
        };
        let ghost pre = self@[id];
        let ghost mut t: Seq<(C, C, usize, Result<Vec<u8>, C::ReadError>)> = Seq::empty();
        let ghost mut chunks: Seq<Seq<u8>> = Seq::empty();
        let mut read = ReadResult::Fail;
        let mut reads: usize = 0;
        assert(self@ =~= old(self)@.insert(id, chunks_absorbed(pre, chunks).0));
        while reads < max_reads
            invariant_except_break
                t.len() == reads,
                chunks.len() == t.len(),
                read == ReadResult::Fail,
                chunks_absorbed(pre, chunks).1 is Continue,
            invariant
                old(self)@.contains_key(id),
                pre == old(self)@[id],
                reading_stream_of(pre) == Some(stream),
                reads <= max_reads,
                t.len() <= max_reads,
                chained(t, *old(connection), *connection),
                conn_recv_trace(stream, t),
                forall|i: int| 0 <= i < t.len() ==> #[trigger] t[i].2 == usize::MAX,
                chunks.len() <= t.len() <= chunks.len() + 1,
                forall|i: int| 0 <= i < chunks.len() ==> (#[trigger] t[i].3 matches Ok(b) && b@ == chunks[i] && chunks[i].len() > 0),
                forall|j: int| 0 < j < chunks.len() ==> (#[trigger] chunks_absorbed(pre, chunks.take(j))).1 is Continue,
                self@ == old(self)@.insert(id, chunks_absorbed(pre, chunks).0),
            ensures
                match chunks_absorbed(pre, chunks).1 {
                    ReadStep::Done(res) => read == res && t.len() == chunks.len(),
                    ReadStep::Continue => read == ReadResult::Fail && (t.len() == max_reads
                        || (t.len() == chunks.len() + 1 && !delivered(t.last().3))),
                },
            decreases max_reads - reads,
        {
            let ghost q0 = *connection;
            let outcome = connection.recv(stream, usize::MAX);
            let ghost step = (q0, *connection, usize::MAX, outcome);
            let ghost t0 = t;
            let ghost c0 = chunks;
            proof {
                lemma_chained_push(t, *old(connection), step);
                t = t.push(step);
                assert(t.drop_last() =~= t0);
                assert forall|i: int| 0 <= i < t.len() implies #[trigger] C::recv_step(&t[i].0, &t[i].1, stream, t[i].2, t[i].3) by {
                    if i < t0.len() {
                        assert(t[i] == t0[i]);
                    }
                }
                assert forall|i: int| 0 <= i < t.len() implies #[trigger] t[i].2 == usize::MAX by {
                    if i < t0.len() {
                        assert(t[i] == t0[i]);
                    }
                }
                assert forall|i: int| 0 <= i < chunks.len() implies (#[trigger] t[i].3 matches Ok(b) && b@ == chunks[i] && chunks[i].len() > 0) by {
                    assert(t[i] == t0[i]);
                }
            }
            let chunk = match outcome {
                Ok(chunk) => chunk,
                Err(_) => {
                    break;
                },
            };
            if chunk.len() == 0 {
                break;
            }
            let ghost before = self@;
            let step_read = self.absorb_chunk(id, chunk.as_slice());
            proof {
                chunks = chunks.push(chunk@);
                assert(chunks.drop_last() =~= c0);
                assert forall|i: int| 0 <= i < chunks.len() implies (#[trigger] t[i].3 matches Ok(b) && b@ == chunks[i] && chunks[i].len() > 0) by {
                    if i < c0.len() {
                        assert(t[i] == t0[i]);
                        assert(chunks[i] == c0[i]);
                    }
                }
                assert forall|j: int| 0 < j < chunks.len() implies (#[trigger] chunks_absorbed(pre, chunks.take(j))).1 is Continue by {
                    if j < c0.len() {
                        assert(chunks.take(j) =~= c0.take(j));
                    } else {
                        assert(chunks.take(j) =~= c0);
                    }
                }
                assert(self@ =~= old(self)@.insert(id, chunks_absorbed(pre, chunks).0));
            }
            match step_read {
                ReadStep::Done(result) => {
                    read = result;
                    break;
                },
                ReadStep::Continue => {},
            }
            reads = reads + 1;
        }
        proof {
            assert(handshake_reads(stream, pre, t, chunks, max_reads, read));
        }
        read
    }

    /// Adds a chunk read from the handshake stream of connection `id` to the
    /// message being read and judges the message so far.
    pub fn absorb_chunk(&mut self, id: u64, chunk: &[u8]) -> (r: ReadStep)
        ensures
            !old(self)@.contains_key(id) ==> r == ReadStep::Continue && final(self)@ == old(self)@,
            old(self)@.contains_key(id) ==> ({
                let (post, step) = chunk_absorbed(old(self)@[id], chunk@);
                r == step && final(self)@ == old(self)@.insert(id, post)
            }),
    {
        let taken = self.uninitialized_connections.remove(&id);
        match taken {
            None => {
                assert(self@ =~= old(self)@);
                ReadStep::Continue
            },
            Some(connection) => {
                let (post, step) = match connection {
                    UninitializedConnection::Client { state, mut buffer } => {
                        let reading = match state {
                            HandshakeSendStream::ReceiveSettings(_) => true,
                            HandshakeSendStream::ReceivingConnectResponse(_) => true,
                            _ => false,
                        };
                        if reading {
                            append_bytes(&mut buffer, chunk);
                            let step = step_of(settings_read_result(decode_settings(buffer.as_slice())));
                            (UninitializedConnection::Client { state, buffer }, step)
                        } else {
                            (UninitializedConnection::Client { state, buffer }, ReadStep::Continue)
                        }
                    },
                    UninitializedConnection::Server { state, mut buffer } => match state {
                        HandshakeReceiveStream::ReceivingSettings(_) => {
                            append_bytes(&mut buffer, chunk);
                            let step = step_of(settings_read_result(decode_settings(buffer.as_slice())));
                            (UninitializedConnection::Server { state, buffer }, step)
                        },
                        HandshakeReceiveStream::ReceivingConnect(_) => {
                            append_bytes(&mut buffer, chunk);
                            let step = step_of(connect_read_result(judge_connect_request(buffer.as_slice())));
                            (UninitializedConnection::Server { state, buffer }, step)
                        },
                        _ => (UninitializedConnection::Server { state, buffer }, ReadStep::Continue),
                    },
                    UninitializedConnection::Failed => (UninitializedConnection::Failed, ReadStep::Continue),
                };
                let ghost m = post.model();
                self.uninitialized_connections.insert(id, post);
                assert(self@ =~= old(self)@.insert(id, m));
                step
            },
        }
    }
}

/// Turns the judgement of a message into a read step.
pub fn step_of(r: ReadResult) -> (step: ReadStep)
    ensures
        step == read_step_of(r),
{
    match r {
        ReadResult::Wait => ReadStep::Continue,
        _ => ReadStep::Done(r),
    }
}

/// Whether a stream the peer opened on an established connection may be
/// reported, given the first chunk read from it: a stream with no data yet,
/// or one whose data starts with a whole frame type, is reported.
pub fn stream_header_accepted(first_chunk: Option<&[u8]>) -> (r: bool)
    ensures
        r == match first_chunk {
            None => true,
            Some(chunk) => varint_decode(chunk@) is Some,
        },
{
    match first_chunk {
        None => true,
        Some(chunk) => decode_frame(chunk).is_some(),
    }
}

/// A failed connection stays failed: handshake steps leave it as it is.
pub proof fn law_failed_handshake_is_final<C: StreamConnection>(post: Option<HandshakeModel>, read: ReadResult)
    requires
        handshake_advanced::<C>(HandshakeModel::Failed, post, read),
    ensures
        post == Some(HandshakeModel::Failed),
{
}

/// A server that judged the CONNECT request acceptable answers it with the
/// CONNECT response of status 200 (OK), on the stream the request came on:
/// the connection goes on to write the bytes that encoding status 200
/// gives, and those of no other status.
pub proof fn law_server_accepts_connect_with_ok<C: StreamConnection>(id: u64)
    ensures
        CONNECT_OK_STATUS == 200,
        forall|e: &mut WebTransportEndpoint, c: &mut C| #[trigger] call_ensures(
            WebTransportEndpoint::advance_connection::<C>,
            (e, id, c, ReadResult::Success),
            (),
        ) && (*e)@.contains_key(id) ==> ((*e)@[id] matches HandshakeModel::Server(HandshakeReceiveStream::ReceivingConnect(s), _)
            ==> mut_ref_future(e)@.contains_key(id) && (mut_ref_future(e)@[id] matches HandshakeModel::Server(
            HandshakeReceiveStream::SendConnectResponse(s2),
            response,
        ) && s2 == s && is_connect_response(response, 200))),
{
}

/// A connection leaves the handshake only when the client judged the
/// CONNECT response acceptable, or the server was writing its CONNECT
/// response.
pub proof fn law_handshake_completes_after_connect<C: StreamConnection>(pre: HandshakeModel, read: ReadResult)
    requires
        handshake_advanced::<C>(pre, None, read),
    ensures
        (pre matches HandshakeModel::Client(HandshakeSendStream::ReceivingConnectResponse(_), _) && read == ReadResult::Success)
            || (pre matches HandshakeModel::Server(HandshakeReceiveStream::SendConnectResponse(_), _)),
{
}

} // verus!
