//! A WebTransport session on top of a QUIC connection: the handshake that
//! turns a fresh QUIC connection into a WebTransport session, and the
//! per-stream WebTransport headers once it is established.
use vstd::prelude::*;
use crate::interface::{Dir, Side, StreamConnection, StreamEvent, StreamEventType, append_bytes, send_all, is_written_suffix, drain_front as drain_front_bytes, conn_send_can_give, conn_recv_can_give, conn_sends_can_take, conn_writable_by, total, lemma_conn_sends_can_take_push, chained, lemma_chained_push, conn_send_trace, conn_drained, sends_offered, wrote_total, lemma_conn_sends_push, conn_recv_trace, read_bytes, delivered};
use crate::quinn::QuinnConnection;
use crate::transports::QuinnSendError;
use crate::wire::{url_parses, WEBTRANSPORT_MAX_SESSIONS, CONNECT_OK_STATUS, SettingsDecode, ConnectDecode, settings_decoded, connect_request_judged, connect_response_judged, is_webtransport_settings, is_frame_of_type, varint_decode, decode_frame, encode_webtransport_frame, encode_webtransport_settings, decode_settings, parse_url, encode_connect_request, judge_connect_request, connect_response, is_connect_response, judge_connect_response};
use std::collections::HashMap;
use std::collections::VecDeque;

verus! {

broadcast use vstd::std_specs::hash::group_hash_axioms;

/// The id of a QUIC stream.
#[derive(Clone, Copy, Debug, PartialEq, Eq, Structural)]
pub struct QuinnStreamId(pub u64);

/// The id of a QUIC connection on its endpoint.
#[derive(Clone, Copy, Debug, PartialEq, Eq, Structural)]
pub struct QuinnConnectionId(pub u64);

/// The id of a WebTransport stream: the QUIC stream that carries it.
#[derive(Clone, Copy, Debug, PartialEq, Eq, Structural)]
pub struct WebTransportStreamId(pub QuinnStreamId);

/// The outcome of reading a handshake message from a buffer.
#[derive(Clone, Copy, Debug, PartialEq, Eq, Structural)]
pub enum ReadResult {
    /// more data is needed
    Wait,
    /// the message was read and is acceptable
    Success,
    /// the message is malformed or unacceptable
    Fail,
}

/// How a read SETTINGS message is judged: it must allow exactly one session.
pub open spec fn settings_outcome(decoded: SettingsDecode) -> ReadResult {
    match decoded {
        SettingsDecode::Decoded(sessions) => if sessions != 1 {
            ReadResult::Fail
        } else {
            ReadResult::Success
        },
        SettingsDecode::Incomplete => ReadResult::Wait,
        SettingsDecode::Invalid => ReadResult::Fail,
    }
}

/// How a read CONNECT request or response is judged.
pub open spec fn connect_outcome(decoded: ConnectDecode) -> ReadResult {
    match decoded {
        ConnectDecode::Decoded => ReadResult::Success,
        ConnectDecode::Incomplete => ReadResult::Wait,
        ConnectDecode::Invalid => ReadResult::Fail,
    }
}

/// Judges a read SETTINGS message.
pub fn settings_read_result(decoded: SettingsDecode) -> (r: ReadResult)
    ensures
        r == settings_outcome(decoded),
{
    match decoded {
        SettingsDecode::Decoded(sessions) => if sessions != 1 {
            ReadResult::Fail
        } else {
            ReadResult::Success
        },
        SettingsDecode::Incomplete => ReadResult::Wait,
        SettingsDecode::Invalid => ReadResult::Fail,
    }
}

/// Judges a read CONNECT request or response.
pub fn connect_read_result(decoded: ConnectDecode) -> (r: ReadResult)
    ensures
        r == connect_outcome(decoded),
{
    match decoded {
        ConnectDecode::Decoded => ReadResult::Success,
        ConnectDecode::Incomplete => ReadResult::Wait,
        ConnectDecode::Invalid => ReadResult::Fail,
    }
}

/// The handshake state of a session, with the stream and the bytes of the
/// message being sent or received in that state.
pub(crate) enum ConnectionState {
    /// the QUIC connection is not established yet
    Unconnected,
    ClientSendSettings(u64, Vec<u8>),
    ClientWaitSettingsResponse,
    ClientReceiveSettingsResponse(u64, Vec<u8>),
    ClientSendConnect(u64, Vec<u8>),
    ClientReceiveConnectResponse(u64, Vec<u8>),
    ServerWaitSettingStream,
    ServerReadSettings(u64, Vec<u8>),
    ServerSendSettingsResponse(u64, Vec<u8>),
    ServerWaitConnectStream,
    ServerReadConnectRequest(u64, Vec<u8>),
    ServerSendConnectResponse(u64, Vec<u8>),
    Connected,
    Failed,
}

/// The model of a handshake state.
pub enum SessionState {
    Unconnected,
    ClientSendSettings(u64, Seq<u8>),
    ClientWaitSettingsResponse,
    ClientReceiveSettingsResponse(u64, Seq<u8>),
    ClientSendConnect(u64, Seq<u8>),
    ClientReceiveConnectResponse(u64, Seq<u8>),
    ServerWaitSettingStream,
    ServerReadSettings(u64, Seq<u8>),
    ServerSendSettingsResponse(u64, Seq<u8>),
    ServerWaitConnectStream,
    ServerReadConnectRequest(u64, Seq<u8>),
    ServerSendConnectResponse(u64, Seq<u8>),
    Connected,
    Failed,
}

impl ConnectionState {
    pub(crate) closed spec fn model(&self) -> SessionState {
        match self {
            ConnectionState::Unconnected => SessionState::Unconnected,
            ConnectionState::ClientSendSettings(s, b) => SessionState::ClientSendSettings(*s, b@),
            ConnectionState::ClientWaitSettingsResponse => SessionState::ClientWaitSettingsResponse,
            ConnectionState::ClientReceiveSettingsResponse(s, b) => SessionState::ClientReceiveSettingsResponse(*s, b@),
            ConnectionState::ClientSendConnect(s, b) => SessionState::ClientSendConnect(*s, b@),
            ConnectionState::ClientReceiveConnectResponse(s, b) => SessionState::ClientReceiveConnectResponse(*s, b@),
            ConnectionState::ServerWaitSettingStream => SessionState::ServerWaitSettingStream,
            ConnectionState::ServerReadSettings(s, b) => SessionState::ServerReadSettings(*s, b@),
            ConnectionState::ServerSendSettingsResponse(s, b) => SessionState::ServerSendSettingsResponse(*s, b@),
            ConnectionState::ServerWaitConnectStream => SessionState::ServerWaitConnectStream,
            ConnectionState::ServerReadConnectRequest(s, b) => SessionState::ServerReadConnectRequest(*s, b@),
            ConnectionState::ServerSendConnectResponse(s, b) => SessionState::ServerSendConnectResponse(*s, b@),
            ConnectionState::Connected => SessionState::Connected,
            ConnectionState::Failed => SessionState::Failed,
        }
    }
}

/// The WebTransport state of a send stream.
pub(crate) struct WebTransportSendStream {
    /// the stream header, while it has not been sent
    pub(crate) header: Option<Vec<u8>>,
}

/// The WebTransport state of a receive stream.
pub(crate) struct WebTransportRecvStream {
    /// the stream header received so far, while it is incomplete
    pub(crate) header: Option<Vec<u8>>,
}

pub open spec fn header_model(header: Option<Vec<u8>>) -> Option<Seq<u8>> {
    match header {
        Some(bytes) => Some(bytes@),
        None => None,
    }
}

/// The WebTransport layer of one QUIC connection.
pub struct WebTransportConnection {
    state: ConnectionState,
    send_streams: HashMap<u64, WebTransportSendStream>,
    recv_streams: HashMap<u64, WebTransportRecvStream>,
    stream_events: VecDeque<StreamEvent<WebTransportStreamId>>,
}

/// The model of a session: its handshake state, the pending header of
/// each send and receive stream, and the queued stream events.
pub struct SessionView {
    pub state: SessionState,
    pub send_headers: Map<u64, Option<Seq<u8>>>,
    pub recv_headers: Map<u64, Option<Seq<u8>>>,
    pub events: Seq<StreamEvent<WebTransportStreamId>>,
}

impl View for WebTransportConnection {
    type V = SessionView;

    closed spec fn view(&self) -> SessionView {
        SessionView {
            state: self.state.model(),
            send_headers: self.send_streams@.map_values(|s: WebTransportSendStream| header_model(s.header)),
            recv_headers: self.recv_streams@.map_values(|s: WebTransportRecvStream| header_model(s.header)),
            events: self.stream_events@,
        }
    }
}

/// `v` with its queued events replaced.
pub open spec fn with_events(v: SessionView, events: Seq<StreamEvent<WebTransportStreamId>>) -> SessionView {
    SessionView { events, ..v }
}

/// The session after a QUIC stream event has been handled: streams the peer
/// opens while the handshake waits for them become handshake streams; other
/// peer-opened streams are registered (a receive stream expecting its
/// header) and reported; closed streams are forgotten and reported.
pub open spec fn after_stream_event(v: SessionView, e: StreamEvent<QuinnStreamId>) -> SessionView {
    let id = e.stream_id.0;
    let wt = WebTransportStreamId(e.stream_id);
    match e.event_type {
        StreamEventType::NewSendStream => if v.state is ServerWaitConnectStream && e.peer_generated {
            SessionView { state: SessionState::ServerReadConnectRequest(id, Seq::empty()), ..v }
        } else if e.peer_generated {
            SessionView {
                send_headers: v.send_headers.insert(id, None),
                events: v.events.push(StreamEvent { stream_id: wt, peer_generated: true, event_type: StreamEventType::NewSendStream }),
                ..v
            }
        } else {
            v
        },
        StreamEventType::NewRecvStream => if v.state is ServerWaitSettingStream && e.peer_generated {
            SessionView { state: SessionState::ServerReadSettings(id, Seq::empty()), ..v }
        } else if v.state is ClientWaitSettingsResponse && e.peer_generated {
            SessionView { state: SessionState::ClientReceiveSettingsResponse(id, Seq::empty()), ..v }
        } else if e.peer_generated {
            SessionView {
                recv_headers: v.recv_headers.insert(id, Some(Seq::empty())),
                events: v.events.push(StreamEvent { stream_id: wt, peer_generated: true, event_type: StreamEventType::NewRecvStream }),
                ..v
            }
        } else {
            v
        },
        StreamEventType::ClosedSendStream => SessionView {
            send_headers: v.send_headers.remove(id),
            events: v.events.push(StreamEvent { stream_id: wt, peer_generated: e.peer_generated, event_type: StreamEventType::ClosedSendStream }),
            ..v
        },
        StreamEventType::ClosedRecvStream => SessionView {
            recv_headers: v.recv_headers.remove(id),
            events: v.events.push(StreamEvent { stream_id: wt, peer_generated: e.peer_generated, event_type: StreamEventType::ClosedRecvStream }),
            ..v
        },
    }
}



/// How one handshake step moves the state, given the bytes read from the
/// handshake stream during the step.
///
/// Sending states write what the stream takes and move on once the message
/// is written (the client's CONNECT request moves on after one attempt).
/// Reading states add the bytes to the message read so far and judge it:
/// an incomplete message waits, an unacceptable one fails the session, an
/// acceptable one leads to the next message to send (or fails the session
/// when the stream for it cannot be opened). The other states do not move.
pub open spec fn handshake_step(pre: SessionState, post: SessionState, incoming: Seq<u8>, connected: bool) -> bool {
    match pre {
        SessionState::ClientSendSettings(s, b) => !connected && (post is ClientWaitSettingsResponse || (
        post matches SessionState::ClientSendSettings(s2, rest) && s2 == s && rest.len() > 0 && is_written_suffix(b, rest))),
        SessionState::ClientReceiveSettingsResponse(s, b) => !connected && match settings_outcome(settings_decoded(b + incoming)) {
            ReadResult::Wait => post == SessionState::ClientReceiveSettingsResponse(s, b + incoming),
            ReadResult::Fail => post is Failed,
            ReadResult::Success => post is Failed || (post matches SessionState::ClientSendConnect(_, request) && is_frame_of_type(request, 1)),
        },
        SessionState::ClientSendConnect(s, b) => !connected && post == SessionState::ClientReceiveConnectResponse(s, Seq::empty()),
        SessionState::ClientReceiveConnectResponse(s, b) => match connect_outcome(connect_response_judged(b + incoming)) {
            ReadResult::Wait => !connected && post == SessionState::ClientReceiveConnectResponse(s, b + incoming),
            ReadResult::Fail => !connected && post is Failed,
            ReadResult::Success => connected && post is Connected,
        },
        SessionState::ServerReadSettings(s, b) => !connected && match settings_outcome(settings_decoded(b + incoming)) {
            ReadResult::Wait => post == SessionState::ServerReadSettings(s, b + incoming),
            ReadResult::Fail => post is Failed,
            ReadResult::Success => post is Failed || (post matches SessionState::ServerSendSettingsResponse(_, response) && is_webtransport_settings(response)),
        },
        SessionState::ServerSendSettingsResponse(s, b) => !connected && (post is ServerWaitConnectStream || (
        post matches SessionState::ServerSendSettingsResponse(s2, rest) && s2 == s && rest.len() > 0 && is_written_suffix(b, rest))),
        SessionState::ServerReadConnectRequest(s, b) => !connected && match connect_outcome(connect_request_judged(b + incoming)) {
            ReadResult::Wait => post == SessionState::ServerReadConnectRequest(s, b + incoming),
            ReadResult::Fail => post is Failed,
            ReadResult::Success => post matches SessionState::ServerSendConnectResponse(s2, response) && s2 == s && is_frame_of_type(response, 1)
                && is_connect_response(response, CONNECT_OK_STATUS),
        },
        SessionState::ServerSendConnectResponse(s, b) => (connected && post is Connected) || (!connected && (
        post matches SessionState::ServerSendConnectResponse(s2, rest) && s2 == s && rest.len() > 0 && is_written_suffix(b, rest))),
        _ => !connected && post == pre,
    }
}

/// In a state that sends handshake bytes, the bytes were offered to the
/// connection's sends, which wrote a prefix of them in order; the state
/// moves on exactly when nothing is left (the client's CONNECT request
/// moves on whatever was written), and otherwise keeps what is left.
/// The calls one step of the handshake made on the connection, from
/// `before` to `after`: a sending state wrote its buffer with a run of sends
/// on its stream down to what is left (`rest`, kept by the state after it);
/// a state that read the peer's settings opened the next stream of the
/// direction it needs, and its next state uses that stream; a read that
/// waits for more makes no call.
pub open spec fn handshake_calls<C: StreamConnection>(pre: SessionState, post: SessionState, incoming: Seq<u8>, before: C, after: C) -> bool {
    match pre {
        SessionState::ClientSendSettings(s, b) => exists|t: Seq<(C, C, Seq<u8>, Result<usize, C::SendError>)>, rest: Seq<u8>|
            #![trigger chained(t, before, after), conn_drained::<C>(s, b, rest, t)]
            chained(t, before, after) && conn_drained::<C>(s, b, rest, t)
            && (post is ClientWaitSettingsResponse ==> rest.len() == 0)
            && (post matches SessionState::ClientSendSettings(_, left) ==> left == rest),
        SessionState::ClientSendConnect(s, b) => exists|t: Seq<(C, C, Seq<u8>, Result<usize, C::SendError>)>, rest: Seq<u8>|
            #![trigger chained(t, before, after), conn_drained::<C>(s, b, rest, t)]
            chained(t, before, after) && conn_drained::<C>(s, b, rest, t),
        SessionState::ServerSendSettingsResponse(s, b) => exists|t: Seq<(C, C, Seq<u8>, Result<usize, C::SendError>)>, rest: Seq<u8>|
            #![trigger chained(t, before, after), conn_drained::<C>(s, b, rest, t)]
            chained(t, before, after) && conn_drained::<C>(s, b, rest, t)
            && (post is ServerWaitConnectStream ==> rest.len() == 0)
            && (post matches SessionState::ServerSendSettingsResponse(_, left) ==> left == rest),
        SessionState::ServerSendConnectResponse(s, b) => exists|t: Seq<(C, C, Seq<u8>, Result<usize, C::SendError>)>, rest: Seq<u8>|
            #![trigger chained(t, before, after), conn_drained::<C>(s, b, rest, t)]
            chained(t, before, after) && conn_drained::<C>(s, b, rest, t)
            && (post is Connected ==> rest.len() == 0)
            && (post matches SessionState::ServerSendConnectResponse(_, left) ==> left == rest),
        SessionState::ClientReceiveSettingsResponse(s, b) => match settings_outcome(settings_decoded(b + incoming)) {
            ReadResult::Wait => after == before,
            ReadResult::Fail => true,
            ReadResult::Success => exists|mid: C, opened: Option<u64>|
                #[trigger] C::open_step(&before, &mid, Dir::Bi, opened) && match opened {
                    None => post is Failed,
                    Some(id) => if url_parses("https://nevy.client"@) {
                        post matches SessionState::ClientSendConnect(id2, request) && id2 == id && after == mid && is_frame_of_type(request, 1)
                    } else {
                        post is Failed
                    },
                },
        },
        SessionState::ServerReadSettings(s, b) => match settings_outcome(settings_decoded(b + incoming)) {
            ReadResult::Wait => after == before,
            ReadResult::Fail => true,
            ReadResult::Success => exists|mid: C, opened: Option<u64>|
                #[trigger] C::open_step(&before, &mid, Dir::Uni, opened) && match opened {
                    None => post is Failed,
                    Some(id) => post matches SessionState::ServerSendSettingsResponse(id2, _) && id2 == id && after == mid,
                },
        },
        SessionState::ClientReceiveConnectResponse(s, b) => connect_outcome(connect_response_judged(b + incoming)) is Fail || after == before,
        SessionState::ServerReadConnectRequest(s, b) => connect_outcome(connect_request_judged(b + incoming)) is Fail || after == before,
        _ => true,
    }
}

pub open spec fn handshake_written<C: StreamConnection>(pre: SessionState, post: SessionState, connected: bool) -> bool {
    match pre {
        SessionState::ClientSendSettings(s, b) => exists|rest: Seq<u8>| #[trigger] conn_writable_by::<C>(s, b, rest) && (
            (post is ClientWaitSettingsResponse) == (rest.len() == 0))
            && (post matches SessionState::ClientSendSettings(_, left) ==> left == rest),
        SessionState::ClientSendConnect(s, b) => exists|rest: Seq<u8>| #[trigger] conn_writable_by::<C>(s, b, rest),
        SessionState::ServerSendSettingsResponse(s, b) => exists|rest: Seq<u8>| #[trigger] conn_writable_by::<C>(s, b, rest) && (
            (post is ServerWaitConnectStream) == (rest.len() == 0))
            && (post matches SessionState::ServerSendSettingsResponse(_, left) ==> left == rest),
        SessionState::ServerSendConnectResponse(s, b) => exists|rest: Seq<u8>| #[trigger] conn_writable_by::<C>(s, b, rest) && (
            connected == (rest.len() == 0))
            && (post matches SessionState::ServerSendConnectResponse(_, left) ==> left == rest),
        _ => true,
    }
}

/// `post` differs from `pre` at most in its handshake state.
/// The sends `t` on stream `id` that sending `data` made, giving `res`.
/// With no header to write, the one send was of `data`. Otherwise the
/// header's sends wrote `header` down to `rest` and ended with a send that
/// wrote nothing or failed; then, only when none of the header is left and
/// no send failed, `data` was sent. A failed header send is the result; a
/// header left unwritten gives a result of zero bytes.
pub open spec fn session_sent<C: StreamConnection>(
    id: u64,
    header: Option<Seq<u8>>,
    rest: Option<Seq<u8>>,
    data: Seq<u8>,
    t: Seq<(C, C, Seq<u8>, Result<usize, C::SendError>)>,
    res: Result<usize, C::SendError>,
) -> bool {
    &&& conn_send_trace(id, t)
    &&& match header {
        None => rest is None && t.len() == 1 && t[0].2 == data && t[0].3 == res,
        Some(h) => rest matches Some(left) && exists|k: int| #[trigger] header_then_data(id, h, left, data, t, k, res),
    }
}

/// The first `k` sends of `t` wrote the header `h` down to `left` and
/// ended with a send that wrote nothing or failed; what follows is as
/// `session_sent` says.
pub open spec fn header_then_data<C: StreamConnection>(
    id: u64,
    h: Seq<u8>,
    left: Seq<u8>,
    data: Seq<u8>,
    t: Seq<(C, C, Seq<u8>, Result<usize, C::SendError>)>,
    k: int,
    res: Result<usize, C::SendError>,
) -> bool {
    &&& 0 < k <= t.len()
    &&& conn_drained::<C>(id, h, left, t.take(k))
    &&& if t[k - 1].3 is Err {
        t.len() == k && res == t[k - 1].3
    } else if left.len() == 0 {
        t.len() == k + 1 && t[k].2 == data && t[k].3 == res
    } else {
        t.len() == k && res == Ok::<usize, C::SendError>(0)
    }
}

pub open spec fn same_streams(pre: SessionView, post: SessionView) -> bool {
    &&& post.send_headers == pre.send_headers
    &&& post.recv_headers == pre.recv_headers
    &&& post.events == pre.events
}

/// The session after a stream was opened locally: the send side waits to
/// send the WebTransport stream header, a bidirectional stream's receive
/// side waits for the peer's header, and both are reported.
pub open spec fn after_open(v: SessionView, id: u64, dir: Dir) -> SessionView {
    let wt = WebTransportStreamId(QuinnStreamId(id));
    let sent = SessionView {
        send_headers: v.send_headers.insert(id, Some(seq![0x40u8, 0x41u8])),
        events: v.events.push(StreamEvent { stream_id: wt, peer_generated: false, event_type: StreamEventType::NewSendStream }),
        ..v
    };
    match dir {
        Dir::Uni => sent,
        Dir::Bi => SessionView {
            recv_headers: sent.recv_headers.insert(id, Some(Seq::empty())),
            events: sent.events.push(StreamEvent { stream_id: wt, peer_generated: false, event_type: StreamEventType::NewRecvStream }),
            ..sent
        },
    }
}

/// A pending send header after a send: a written suffix of what was pending.
pub open spec fn header_written(pre: Option<Seq<u8>>, post: Option<Seq<u8>>) -> bool {
    match pre {
        None => post is None,
        Some(h) => post matches Some(rest) && is_written_suffix(h, rest),
    }
}

/// A pending receive header after a receive: either complete (and gone) or
/// extended but still short of a whole frame type, in which case no data
/// was delivered.
pub open spec fn header_read<E>(pre: Option<Seq<u8>>, post: Option<Seq<u8>>, r: Option<Result<Vec<u8>, E>>) -> bool {
    match pre {
        None => post is None,
        Some(h) => match post {
            None => true,
            Some(partial) => h.len() <= partial.len() && partial.subrange(0, h.len() as int) == h
                && varint_decode(partial) is None
                && (r matches Some(res) && (res is Err || (res matches Ok(b) && b@.len() == 0))),
        },
    }
}

/// The reads `t` on a receive stream that reading at most `limit` bytes
/// made, giving `res`. With no header left to read, the one read was the
/// read asked for. Otherwise the header was read one byte at a time: each
/// read but the last of those gave a byte, and `partial` (the header read so
/// far, when it is still incomplete) is `header` followed by those bytes;
/// when the header is complete, one more read of at most `limit` bytes gave
/// the result; when it is not, the last read gave nothing or failed, and
/// that is the result.
pub open spec fn session_read<C: StreamConnection>(
    header: Option<Seq<u8>>,
    partial: Option<Seq<u8>>,
    limit: usize,
    t: Seq<(C, C, usize, Result<Vec<u8>, C::ReadError>)>,
    res: Result<Vec<u8>, C::ReadError>,
) -> bool {
    match header {
        None => partial is None && t.len() == 1 && t[0].2 == limit && t[0].3 == res,
        Some(h) => {
            let k = if partial is None { t.len() - 1 } else { t.len() as int };
            &&& 0 <= k <= t.len()
            &&& forall|i: int| 0 <= i < k ==> #[trigger] t[i].2 == 1
            &&& match partial {
                None => (forall|i: int| 0 <= i < k ==> delivered(#[trigger] t[i].3))
                    && varint_decode(h + read_bytes(t.take(k))) is Some
                    && t[k].2 == limit && t[k].3 == res,
                Some(p) => k > 0 && (forall|i: int| 0 <= i < k - 1 ==> delivered(#[trigger] t[i].3))
                    && p == h + read_bytes(t.take(k)) && t[k - 1].3 == res,
            }
        },
    }
}

/// Reads what stream `stream_id` of the connection holds, one read of any
/// length after the other, until a read fails or gives nothing, or
/// `max_reads` reads were made; gives the bytes read, in order.
pub fn read_available<C: StreamConnection>(quinn: &mut C, stream_id: u64, max_reads: usize) -> (r: Vec<u8>)
    ensures
        exists|t: Seq<(C, C, usize, Result<Vec<u8>, C::ReadError>)>|
            #[trigger] chained(t, *old(quinn), *final(quinn)) && conn_recv_trace(stream_id, t)
            && r@ == read_bytes(t)
            && t.len() <= max_reads
            && (forall|i: int| 0 <= i < t.len() ==> #[trigger] t[i].2 == usize::MAX)
            && (forall|i: int| 0 <= i < t.len() - 1 ==> delivered(#[trigger] t[i].3))
            && (t.len() == max_reads || (t.len() > 0 && !delivered(t.last().3))),
{
    let mut bytes: Vec<u8> = Vec::new();
    let ghost mut t: Seq<(C, C, usize, Result<Vec<u8>, C::ReadError>)> = Seq::empty();
    let mut reads: usize = 0;
    assert(bytes@ =~= read_bytes(t));
    while reads < max_reads
        invariant_except_break
            forall|i: int| 0 <= i < t.len() ==> delivered(#[trigger] t[i].3),
            t.len() == reads,
        invariant
            reads <= max_reads,
            t.len() <= max_reads,
            chained(t, *old(quinn), *quinn),
            conn_recv_trace(stream_id, t),
            bytes@ == read_bytes(t),
            forall|i: int| 0 <= i < t.len() ==> #[trigger] t[i].2 == usize::MAX,
            forall|i: int| 0 <= i < t.len() - 1 ==> delivered(#[trigger] t[i].3),
        ensures
            t.len() == max_reads || (t.len() > 0 && !delivered(t.last().3)),
        decreases max_reads - reads,
    {
        let ghost q0 = *quinn;
        let outcome = quinn.recv(stream_id, usize::MAX);
        let ghost step = (q0, *quinn, usize::MAX, outcome);
        let ghost t0 = t;
        proof {
            lemma_chained_push(t, *old(quinn), step);
            t = t.push(step);
            assert(t.drop_last() =~= t0);
            assert forall|i: int| 0 <= i < t.len() implies #[trigger] C::recv_step(&t[i].0, &t[i].1, stream_id, t[i].2, t[i].3) by {
                if i < t0.len() {
                    assert(t[i] == t0[i]);
                }
            }
            assert forall|i: int| 0 <= i < t.len() implies #[trigger] t[i].2 == usize::MAX by {
                if i < t0.len() {
                    assert(t[i] == t0[i]);
                }
            }
            assert forall|i: int| 0 <= i < t.len() - 1 implies delivered(#[trigger] t[i].3) by {
                assert(t[i] == t0[i]);
            }
        }
        match outcome {
            Ok(chunk) => {
                if chunk.len() == 0 {
                    assert(bytes@ =~= read_bytes(t));
                    break;
                }
                append_bytes(&mut bytes, chunk.as_slice());
                assert(bytes@ =~= read_bytes(t));
                proof {
                    assert forall|i: int| 0 <= i < t.len() implies delivered(#[trigger] t[i].3) by {
                        if i < t0.len() {
                            assert(t[i] == t0[i]);
                        }
                    }
                }
            },
            Err(_) => {
                assert(bytes@ =~= read_bytes(t));
                break;
            },
        }
        reads = reads + 1;
    }
    bytes
}

/// `v` with the pending header of send stream `id` set.
pub open spec fn with_send_header(v: SessionView, id: u64, header: Option<Seq<u8>>) -> SessionView {
    SessionView { send_headers: v.send_headers.insert(id, header), ..v }
}

/// `v` with the pending header of receive stream `id` set.
pub open spec fn with_recv_header(v: SessionView, id: u64, header: Option<Seq<u8>>) -> SessionView {
    SessionView { recv_headers: v.recv_headers.insert(id, header), ..v }
}

impl WebTransportConnection {
    /// A session whose QUIC connection is not established yet.
    pub fn new() -> (r: Self)
        ensures
            r@.state == SessionState::Unconnected,
            r@.send_headers == Map::<u64, Option<Seq<u8>>>::empty(),
            r@.recv_headers == Map::<u64, Option<Seq<u8>>>::empty(),
            r@.events == Seq::<StreamEvent<WebTransportStreamId>>::empty(),
    {
        let r = WebTransportConnection {
            state: ConnectionState::Unconnected,
            send_streams: HashMap::new(),
            recv_streams: HashMap::new(),
            stream_events: VecDeque::new(),
        };
        assert(r@.send_headers =~= Map::<u64, Option<Seq<u8>>>::empty());
        assert(r@.recv_headers =~= Map::<u64, Option<Seq<u8>>>::empty());
        r
    }

    /// Whether the handshake has completed.
    pub fn is_connected(&self) -> (r: bool)
        ensures
            r == (self@.state is Connected),
    {
        match &self.state {
            ConnectionState::Connected => true,
            _ => false,
        }
    }

    /// Handles a stream event reported by the QUIC connection.
    pub fn handle_quic_stream_event(&mut self, event: StreamEvent<QuinnStreamId>)
        ensures
            final(self)@ == after_stream_event(old(self)@, event),
    {
        let id = event.stream_id.0;
        let wt = WebTransportStreamId(event.stream_id);
        match event.event_type {
            StreamEventType::NewSendStream => {
                let waiting = match &self.state {
                    ConnectionState::ServerWaitConnectStream => true,
                    _ => false,
                };
                if waiting && event.peer_generated {
                    self.state = ConnectionState::ServerReadConnectRequest(id, Vec::new());
                    return;
                }
                if event.peer_generated {
                    self.send_streams.insert(id, WebTransportSendStream { header: None });
                    self.stream_events.push_back(
                        StreamEvent { stream_id: wt, peer_generated: true, event_type: StreamEventType::NewSendStream },
                    );
                    assert(self@.send_headers =~= old(self)@.send_headers.insert(id, None));
                }
            },
            StreamEventType::NewRecvStream => {
                let server_waiting = match &self.state {
                    ConnectionState::ServerWaitSettingStream => true,
                    _ => false,
                };
                if server_waiting && event.peer_generated {
                    self.state = ConnectionState::ServerReadSettings(id, Vec::new());
                    return;
                }
                let client_waiting = match &self.state {
                    ConnectionState::ClientWaitSettingsResponse => true,
                    _ => false,
                };
                if client_waiting && event.peer_generated {
                    self.state = ConnectionState::ClientReceiveSettingsResponse(id, Vec::new());
                    return;
                }
                if event.peer_generated {
                    self.recv_streams.insert(id, WebTransportRecvStream { header: Some(Vec::new()) });
                    self.stream_events.push_back(
                        StreamEvent { stream_id: wt, peer_generated: true, event_type: StreamEventType::NewRecvStream },
                    );
                    assert(self@.recv_headers =~= old(self)@.recv_headers.insert(id, Some(Seq::empty())));
                }
            },
            StreamEventType::ClosedSendStream => {
                self.send_streams.remove(&id);
                self.stream_events.push_back(
                    StreamEvent { stream_id: wt, peer_generated: event.peer_generated, event_type: StreamEventType::ClosedSendStream },
                );
                assert(self@.send_headers =~= old(self)@.send_headers.remove(id));
            },
            StreamEventType::ClosedRecvStream => {
                self.recv_streams.remove(&id);
                self.stream_events.push_back(
                    StreamEvent { stream_id: wt, peer_generated: event.peer_generated, event_type: StreamEventType::ClosedRecvStream },
                );
                assert(self@.recv_headers =~= old(self)@.recv_headers.remove(id));
            },
        }
    }


    /// Moves the session into the failed state and closes the QUIC connection.
    fn fail<C: StreamConnection>(&mut self, quinn: &mut C)
        ensures
            final(self)@.state is Failed,
            same_streams(old(self)@, final(self)@),
    {
        self.state = ConnectionState::Failed;
        quinn.disconnect();
    }

    /// Starts the handshake once the QUIC connection is established: a client
    /// opens a unidirectional stream and queues its SETTINGS message on it
    /// (failing the session if the stream cannot be opened); a server waits
    /// for the client's SETTINGS stream.
    pub fn connected<C: StreamConnection>(&mut self, side: Side, quinn: &mut C)
        ensures
            same_streams(old(self)@, final(self)@),
            side == Side::Server ==> final(self)@.state is ServerWaitSettingStream,
            side == Side::Client ==> final(self)@.state is Failed || (
            final(self)@.state matches SessionState::ClientSendSettings(_, b) && is_webtransport_settings(b)),
            side == Side::Client ==> exists|m: &mut C, opened: Option<u64>|
                mut_ref_current(m) == *old(quinn) && #[trigger] call_ensures(C::open_stream, (m, Dir::Uni), opened)
                    && match opened {
                        Some(id) => mut_ref_future(m) == *final(quinn) && (final(self)@.state matches SessionState::ClientSendSettings(
                            s,
                            b,
                        ) && s == id && is_webtransport_settings(b)),
                        None => final(self)@.state is Failed,
                    },
            side == Side::Server ==> *final(quinn) == *old(quinn),
    {
        match side {
            Side::Client => match quinn.open_stream(Dir::Uni) {
                Some(stream_id) => {
                    let buffer = encode_webtransport_settings(WEBTRANSPORT_MAX_SESSIONS);
                    self.state = ConnectionState::ClientSendSettings(stream_id, buffer);
                },
                None => {
                    self.fail(quinn);
                },
            },
            Side::Server => {
                self.state = ConnectionState::ServerWaitSettingStream;
            },
        }
    }

    /// The handshake stream that the state reads from, if it reads.
    pub fn handshake_recv_stream(&self) -> (r: Option<u64>)
        ensures
            r == match self@.state {
                SessionState::ClientReceiveSettingsResponse(s, _) => Some(s),
                SessionState::ClientReceiveConnectResponse(s, _) => Some(s),
                SessionState::ServerReadSettings(s, _) => Some(s),
                SessionState::ServerReadConnectRequest(s, _) => Some(s),
                _ => None::<u64>,
            },
    {
        match &self.state {
            ConnectionState::ClientReceiveSettingsResponse(s, _) => Some(*s),
            ConnectionState::ClientReceiveConnectResponse(s, _) => Some(*s),
            ConnectionState::ServerReadSettings(s, _) => Some(*s),
            ConnectionState::ServerReadConnectRequest(s, _) => Some(*s),
            _ => None,
        }
    }

    /// Takes one handshake step; `incoming` holds the bytes read this step
    /// from the handshake stream. Returns `true` when the session has just
    /// become connected.
    pub fn advance<C: StreamConnection>(&mut self, quinn: &mut C, incoming: &[u8]) -> (connected: bool)
        ensures
            same_streams(old(self)@, final(self)@),
            handshake_step(old(self)@.state, final(self)@.state, incoming@, connected),
            handshake_written::<C>(old(self)@.state, final(self)@.state, connected),
            handshake_calls::<C>(old(self)@.state, final(self)@.state, incoming@, *old(quinn), *final(quinn)),
    {
        let mut state = ConnectionState::Unconnected;
        std::mem::swap(&mut state, &mut self.state);
        match state {
            ConnectionState::ClientSendSettings(stream_id, mut buffer) => {
                let ghost sent_from = buffer@;
                send_all(quinn, stream_id, &mut buffer);
                assert(conn_writable_by::<C>(stream_id, sent_from, buffer@));
                assert(stream_id == old(self)@.state->ClientSendSettings_0 && sent_from == old(self)@.state->ClientSendSettings_1);
                if buffer.len() == 0 {
                    self.state = ConnectionState::ClientWaitSettingsResponse;
                } else {
                    self.state = ConnectionState::ClientSendSettings(stream_id, buffer);
                }
                false
            },
            ConnectionState::ClientReceiveSettingsResponse(stream_id, mut buffer) => {
                append_bytes(&mut buffer, incoming);
                match settings_read_result(decode_settings(buffer.as_slice())) {
                    ReadResult::Wait => {
                        self.state = ConnectionState::ClientReceiveSettingsResponse(stream_id, buffer);
                    },
                    ReadResult::Fail => {
                        self.fail(quinn);
                    },
                    ReadResult::Success => match quinn.open_stream(Dir::Bi) {
                        None => {
                            self.fail(quinn);
                        },
                        Some(connect_stream) => match parse_url("https://nevy.client") {
                            None => {
                                self.fail(quinn);
                            },
                            Some(url) => {
                                let request = encode_connect_request(&url);
                                self.state = ConnectionState::ClientSendConnect(connect_stream, request);
                            },
                        },
                    },
                }
                false
            },
            ConnectionState::ClientSendConnect(stream_id, mut buffer) => {
                let ghost sent_from = buffer@;
                send_all(quinn, stream_id, &mut buffer);
                assert(conn_writable_by::<C>(stream_id, sent_from, buffer@));
                assert(stream_id == old(self)@.state->ClientSendConnect_0 && sent_from == old(self)@.state->ClientSendConnect_1);
                self.state = ConnectionState::ClientReceiveConnectResponse(stream_id, Vec::new());
                false
            },
            ConnectionState::ClientReceiveConnectResponse(stream_id, mut buffer) => {
                append_bytes(&mut buffer, incoming);
                match connect_read_result(judge_connect_response(buffer.as_slice())) {
                    ReadResult::Wait => {
                        self.state = ConnectionState::ClientReceiveConnectResponse(stream_id, buffer);
                        false
                    },
                    ReadResult::Fail => {
                        self.fail(quinn);
                        false
                    },
                    ReadResult::Success => {
                        self.state = ConnectionState::Connected;
                        true
                    },
                }
            },
            ConnectionState::ServerReadSettings(stream_id, mut buffer) => {
                append_bytes(&mut buffer, incoming);
                match settings_read_result(decode_settings(buffer.as_slice())) {
                    ReadResult::Wait => {
                        self.state = ConnectionState::ServerReadSettings(stream_id, buffer);
                    },
                    ReadResult::Fail => {
                        self.fail(quinn);
                    },
                    ReadResult::Success => match quinn.open_stream(Dir::Uni) {
                        None => {
                            self.fail(quinn);
                        },
                        Some(response_stream) => {
                            let response = encode_webtransport_settings(WEBTRANSPORT_MAX_SESSIONS);
                            self.state = ConnectionState::ServerSendSettingsResponse(response_stream, response);
                        },
                    },
                }
                false
            },
            ConnectionState::ServerSendSettingsResponse(stream_id, mut buffer) => {
                let ghost sent_from = buffer@;
                send_all(quinn, stream_id, &mut buffer);
                assert(conn_writable_by::<C>(stream_id, sent_from, buffer@));
                assert(stream_id == old(self)@.state->ServerSendSettingsResponse_0 && sent_from == old(self)@.state->ServerSendSettingsResponse_1);
                if buffer.len() == 0 {
                    self.state = ConnectionState::ServerWaitConnectStream;
                } else {
                    self.state = ConnectionState::ServerSendSettingsResponse(stream_id, buffer);
                }
                false
            },
            ConnectionState::ServerReadConnectRequest(stream_id, mut buffer) => {
                append_bytes(&mut buffer, incoming);
                match connect_read_result(judge_connect_request(buffer.as_slice())) {
                    ReadResult::Wait => {
                        self.state = ConnectionState::ServerReadConnectRequest(stream_id, buffer);
                    },
                    ReadResult::Fail => {
                        self.fail(quinn);
                    },
                    ReadResult::Success => {
                        let response = connect_response(CONNECT_OK_STATUS);
                        self.state = ConnectionState::ServerSendConnectResponse(stream_id, response);
                    },
                }
                false
            },
            ConnectionState::ServerSendConnectResponse(stream_id, mut buffer) => {
                let ghost sent_from = buffer@;
                send_all(quinn, stream_id, &mut buffer);
                assert(conn_writable_by::<C>(stream_id, sent_from, buffer@));
                if buffer.len() == 0 {
                    self.state = ConnectionState::Connected;
                    assert(sent_from == old(self)@.state->ServerSendConnectResponse_1);
                    assert(stream_id == old(self)@.state->ServerSendConnectResponse_0);
                    true
                } else {
                    assert(sent_from == old(self)@.state->ServerSendConnectResponse_1);
                    assert(stream_id == old(self)@.state->ServerSendConnectResponse_0);
                    let ghost left = buffer@;
                    self.state = ConnectionState::ServerSendConnectResponse(stream_id, buffer);
                    assert(self@.state->ServerSendConnectResponse_1 == left);
                    false
                }
            },
            other => {
                self.state = other;
                false
            },
        }
    }


    /// Opens a WebTransport stream once the session is connected. The send
    /// side first sends the WebTransport stream header; the receive side of a
    /// bidirectional stream first reads the peer's header.
    pub fn open_stream<C: StreamConnection>(&mut self, quinn: &mut C, dir: Dir) -> (r: Option<WebTransportStreamId>)
        ensures
            !(old(self)@.state is Connected) ==> (r is None) && final(self)@ == old(self)@ && *final(quinn) == *old(quinn),
            r is None ==> final(self)@ == old(self)@,
            r matches Some(id) ==> final(self)@ == after_open(old(self)@, id.0.0, dir),
            old(self)@.state is Connected ==> exists|m: &mut C, opened: Option<u64>|
                mut_ref_current(m) == *old(quinn) && mut_ref_future(m) == *final(quinn)
                    && #[trigger] call_ensures(C::open_stream, (m, dir), opened)
                    && r == match opened {
                        Some(id) => Some(WebTransportStreamId(QuinnStreamId(id))),
                        None => None::<WebTransportStreamId>,
                    },
    {
        if !self.is_connected() {
            return None;
        }
        let id = match quinn.open_stream(dir) {
            Some(id) => id,
            None => {
                return None;
            },
        };
        let stream_id = WebTransportStreamId(QuinnStreamId(id));
        let header = encode_webtransport_frame();
        let ghost header_bytes = header@;
        self.send_streams.insert(id, WebTransportSendStream { header: Some(header) });
        self.stream_events.push_back(
            StreamEvent { stream_id, peer_generated: false, event_type: StreamEventType::NewSendStream },
        );
        assert(self@.send_headers =~= old(self)@.send_headers.insert(id, Some(header_bytes)));
        match dir {
            Dir::Bi => {
                let ghost mid = self@;
                self.recv_streams.insert(id, WebTransportRecvStream { header: Some(Vec::new()) });
                self.stream_events.push_back(
                    StreamEvent { stream_id, peer_generated: false, event_type: StreamEventType::NewRecvStream },
                );
                assert(self@.recv_headers =~= mid.recv_headers.insert(id, Some(Seq::empty())));
            },
            Dir::Uni => {},
        }
        Some(stream_id)
    }

    /// Sends on a WebTransport send stream: the pending stream header is
    /// written first (as much as the stream takes, stopping at a write of
    /// zero bytes, an error being returned), then the data, only once no
    /// header byte is left: while some is, no data is written and the
    /// result is zero bytes written. Returns `None` for a stream the session
    /// does not know.
    pub fn send<C: StreamConnection>(&mut self, quinn: &mut C, stream_id: WebTransportStreamId, data: &[u8]) -> (r: Option<Result<usize, C::SendError>>)
        ensures
            !old(self)@.send_headers.contains_key(stream_id.0.0) ==> (r is None) && final(self)@ == old(self)@,
            old(self)@.send_headers.contains_key(stream_id.0.0) ==> (r is Some)
                && final(self)@.send_headers.contains_key(stream_id.0.0)
                && final(self)@ == with_send_header(old(self)@, stream_id.0.0, final(self)@.send_headers[stream_id.0.0])
                && header_written(old(self)@.send_headers[stream_id.0.0], final(self)@.send_headers[stream_id.0.0]),
            r matches Some(Ok(n)) ==> n <= data@.len(),
            old(self)@.send_headers.contains_key(stream_id.0.0) ==> (old(self)@.send_headers[stream_id.0.0] matches Some(h) ==>
                (final(self)@.send_headers[stream_id.0.0] matches Some(rest) && conn_writable_by::<C>(stream_id.0.0, h, rest))),
            r matches Some(res) ==> conn_send_can_give::<C>(stream_id.0.0, data@, res) || (
                final(self)@.send_headers[stream_id.0.0] matches Some(rest)
                && ((res matches Err(e) && conn_send_can_give::<C>(stream_id.0.0, rest, Err(e)))
                    || (rest.len() > 0 && res == Ok::<usize, C::SendError>(0)))),
            r matches Some(Ok(n)) ==> (n > 0 ==> (final(self)@.send_headers[stream_id.0.0] matches Some(rest) ==> rest.len() == 0)),
            old(self)@.send_headers.contains_key(stream_id.0.0) ==> exists|t: Seq<(C, C, Seq<u8>, Result<usize, C::SendError>)>|
                #[trigger] chained(t, *old(quinn), *final(quinn)) && (r matches Some(res) && session_sent(
                    stream_id.0.0, old(self)@.send_headers[stream_id.0.0], final(self)@.send_headers[stream_id.0.0], data@, t, res)),
            !old(self)@.send_headers.contains_key(stream_id.0.0) ==> *final(quinn) == *old(quinn),
    {
        let id = stream_id.0.0;
        let state = self.send_streams.remove(&id);
        match state {
            None => {
                assert(self.send_streams@ =~= old(self).send_streams@);
                None
            },
            Some(WebTransportSendStream { header: None }) => {
                assert(old(self)@.send_headers[id] == None::<Seq<u8>>);
                self.send_streams.insert(id, WebTransportSendStream { header: None });
                assert(self@.send_headers =~= old(self)@.send_headers);
                assert(old(self)@.send_headers.insert(id, None::<Seq<u8>>) =~= old(self)@.send_headers);
                assert(self@ == with_send_header(old(self)@, id, None));
                let ghost before = *quinn;
                let outcome = quinn.send(id, data);
                assert(conn_send_can_give::<C>(id, data@, outcome));
                proof {
                    let t = seq![(before, *quinn, data@, outcome)];
                    assert(chained(t, *old(quinn), *quinn));
                    assert(session_sent(id, None, None, data@, t, outcome));
                }
                Some(outcome)
            },
            Some(WebTransportSendStream { header: Some(mut header) }) => {
                let ghost initial = header@;
                assert(old(self)@.send_headers[id] == Some(initial));
                assert(initial.subrange(0, initial.len() as int) =~= initial);
                let mut failure: Option<C::SendError> = None;
                let ghost mut counts: Seq<usize> = Seq::empty();
                let ghost mut t: Seq<(C, C, Seq<u8>, Result<usize, C::SendError>)> = Seq::empty();
                assert(conn_sends_can_take::<C>(id, initial, counts));
                loop
                    invariant_except_break
                        conn_sends_can_take::<C>(id, initial, counts),
                        0 <= total(counts) <= initial.len(),
                        header@ == initial.subrange(total(counts), initial.len() as int),
                        failure is None,
                        chained(t, *old(quinn), *quinn),
                        conn_send_trace(id, t),
                        sends_offered(initial, t),
                        t.len() > 0 ==> (t.last().3 matches Ok(n) && n > 0),
                        wrote_total(t) == total(counts),
                    ensures
                        conn_sends_can_take::<C>(id, initial, counts),
                        0 <= total(counts) <= initial.len(),
                        header@ == initial.subrange(total(counts), initial.len() as int),
                        failure matches Some(e) ==> conn_send_can_give::<C>(id, header@, Err(e)),
                        chained(t, *old(quinn), *quinn),
                        conn_drained(id, initial, header@, t),
                        failure matches Some(e) ==> t.last().3 == Err::<usize, C::SendError>(e),
                        failure is None ==> t.last().3 == Ok::<usize, C::SendError>(0),
                    decreases header@.len(),
                {
                    let offered = header.as_slice();
                    let ghost before = *quinn;
                    let outcome = quinn.send(id, offered);
                    let ghost step = (before, *quinn, header@, outcome);
                    proof {
                        lemma_chained_push(t, *old(quinn), step);
                        lemma_conn_sends_push::<C>(id, initial, t, step);
                        t = t.push(step);
                    }
                    assert(conn_send_can_give::<C>(id, header@, outcome));
                    match outcome {
                        Ok(n) => {
                            if n == 0 {
                                break;
                            }
                            proof {
                                lemma_conn_sends_can_take_push::<C>(id, initial, counts, n);
                                counts = counts.push(n);
                            }
                            drain_front_bytes(&mut header, n);
                            assert(header@ =~= initial.subrange(total(counts), initial.len() as int));
                        },
                        Err(e) => {
                            failure = Some(e);
                            break;
                        },
                    }
                }
                assert(conn_writable_by::<C>(id, initial, header@));
                assert(is_written_suffix(initial, header@));
                let ghost rest = header@;
                let header_left = header.len();
                self.send_streams.insert(id, WebTransportSendStream { header: Some(header) });
                assert(self@.send_headers =~= old(self)@.send_headers.insert(id, Some(rest)));
                assert(is_written_suffix(initial, rest));
                assert(self@ == with_send_header(old(self)@, id, Some(rest)));
                let ghost th = t;
                assert(th.take(th.len() as int) =~= th);
                assert(conn_drained::<C>(id, initial, rest, th.take(th.len() as int)));
                assert(th[th.len() - 1] == th.last());
                match failure {
                    Some(e) => {
                        assert(header_then_data(id, initial, rest, data@, th, th.len() as int, Err(e)));
                        Some(Err(e))
                    },
                    None => {
                        if header_left > 0 {
                            assert(header_then_data(id, initial, rest, data@, th, th.len() as int, Ok(0)));
                            return Some(Ok(0));
                        }
                        let ghost before = *quinn;
                        let outcome = quinn.send(id, data);
                        assert(conn_send_can_give::<C>(id, data@, outcome));
                        proof {
                            let step = (before, *quinn, data@, outcome);
                            lemma_chained_push(th, *old(quinn), step);
                            let t2 = th.push(step);
                            assert(t2.take(th.len() as int) =~= th);
                            assert(conn_drained::<C>(id, initial, rest, t2.take(th.len() as int)));
                            assert(t2[th.len() - 1] == th.last());
                            assert(t2[th.len() as int] == step);
                            assert(conn_send_trace(id, t2)) by {
                                assert forall|i: int| 0 <= i < t2.len() implies #[trigger] C::send_step(&t2[i].0, &t2[i].1, id, t2[i].2, t2[i].3) by {
                                    if i < th.len() {
                                        assert(t2[i] == th[i]);
                                    }
                                }
                            }
                            assert(header_then_data(id, initial, rest, data@, t2, th.len() as int, outcome));
                        }
                        Some(outcome)
                    },
                }
            },
        }
    }

    /// Receives on a WebTransport receive stream: while the peer's stream
    /// header is incomplete it is read one byte at a time until it holds a
    /// whole frame type, then at most `limit` bytes of data are read.
    /// An error while reading the header is returned; a read of zero bytes
    /// ends the call with that empty read. Returns `None` for a stream the
    /// session does not know.
    pub fn recv<C: StreamConnection>(&mut self, quinn: &mut C, stream_id: WebTransportStreamId, limit: usize) -> (r: Option<Result<Vec<u8>, C::ReadError>>)
        ensures
            !old(self)@.recv_headers.contains_key(stream_id.0.0) ==> (r is None) && final(self)@ == old(self)@,
            old(self)@.recv_headers.contains_key(stream_id.0.0) ==> (r is Some)
                && final(self)@.recv_headers.contains_key(stream_id.0.0)
                && final(self)@ == with_recv_header(old(self)@, stream_id.0.0, final(self)@.recv_headers[stream_id.0.0])
                && header_read(old(self)@.recv_headers[stream_id.0.0], final(self)@.recv_headers[stream_id.0.0], r),
            r matches Some(Ok(bytes)) ==> bytes@.len() <= limit,
            r matches Some(res) ==> conn_recv_can_give::<C>(stream_id.0.0, limit, res)
                || (final(self)@.recv_headers[stream_id.0.0] is Some && conn_recv_can_give::<C>(stream_id.0.0, 1, res)),
            old(self)@.recv_headers.contains_key(stream_id.0.0) ==> exists|t: Seq<(C, C, usize, Result<Vec<u8>, C::ReadError>)>|
                #[trigger] chained(t, *old(quinn), *final(quinn)) && conn_recv_trace(stream_id.0.0, t) && (r matches Some(res) && session_read(
                    old(self)@.recv_headers[stream_id.0.0], final(self)@.recv_headers[stream_id.0.0], limit, t, res)),
            !old(self)@.recv_headers.contains_key(stream_id.0.0) ==> *final(quinn) == *old(quinn),
    {
        let id = stream_id.0.0;
        let state = self.recv_streams.remove(&id);
        match state {
            None => {
                assert(self.recv_streams@ =~= old(self).recv_streams@);
                None
            },
            Some(WebTransportRecvStream { header: None }) => {
                self.recv_streams.insert(id, WebTransportRecvStream { header: None });
                assert(self@.recv_headers =~= old(self)@.recv_headers);
                assert(old(self)@.recv_headers.insert(id, None::<Seq<u8>>) =~= old(self)@.recv_headers);
                assert(self@ == with_recv_header(old(self)@, id, None));
                let ghost before = *quinn;
                let outcome = quinn.recv(id, limit);
                assert(conn_recv_can_give::<C>(id, limit, outcome));
                proof {
                    let t = seq![(before, *quinn, limit, outcome)];
                    assert(chained(t, *old(quinn), *quinn));
                    assert(session_read(None, None, limit, t, outcome));
                }
                Some(outcome)
            },
            Some(WebTransportRecvStream { header: Some(mut header) }) => {
                let ghost initial = header@;
                let mut complete = decode_frame(header.as_slice()).is_some();
                assert(initial.subrange(0, initial.len() as int) =~= initial);
                let mut early: Option<Result<Vec<u8>, C::ReadError>> = None;
                let ghost mut t: Seq<(C, C, usize, Result<Vec<u8>, C::ReadError>)> = Seq::empty();
                assert(initial + read_bytes(t) =~= initial);
                while !complete
                    invariant_except_break
                        initial.len() <= header@.len(),
                        header@.subrange(0, initial.len() as int) == initial,
                        complete == (varint_decode(header@) is Some),
                        early is None,
                        !complete ==> header@.len() < 8,
                        chained(t, *old(quinn), *quinn),
                        conn_recv_trace(id, t),
                        forall|i: int| 0 <= i < t.len() ==> #[trigger] t[i].2 == 1,
                        forall|i: int| 0 <= i < t.len() ==> delivered(#[trigger] t[i].3),
                        header@ == initial + read_bytes(t),
                    ensures
                        initial.len() <= header@.len(),
                        header@.subrange(0, initial.len() as int) == initial,
                        complete == (varint_decode(header@) is Some),
                        early is None ==> complete,
                        early is Some ==> !complete,
                        early matches Some(res) ==> (res is Err || (res matches Ok(b) && b@.len() == 0)),
                        early matches Some(res) ==> conn_recv_can_give::<C>(id, 1, res),
                        chained(t, *old(quinn), *quinn),
                        conn_recv_trace(id, t),
                        forall|i: int| 0 <= i < t.len() ==> #[trigger] t[i].2 == 1,
                        early is None ==> forall|i: int| 0 <= i < t.len() ==> delivered(#[trigger] t[i].3),
                        early matches Some(res) ==> t.len() > 0 && t[t.len() - 1].3 == res
                            && forall|i: int| 0 <= i < t.len() - 1 ==> delivered(#[trigger] t[i].3),
                        header@ == initial + read_bytes(t),
                    decreases if complete { 0 } else { 8 - header@.len() },
                {
                    let ghost q0 = *quinn;
                    let outcome = quinn.recv(id, 1);
                    let ghost step = (q0, *quinn, 1usize, outcome);
                    let ghost t0 = t;
                    proof {
                        lemma_chained_push(t, *old(quinn), step);
                        t = t.push(step);
                        assert(t.drop_last() =~= t0);
                        assert forall|i: int| 0 <= i < t.len() implies #[trigger] C::recv_step(&t[i].0, &t[i].1, id, t[i].2, t[i].3) by {
                            if i < t0.len() {
                                assert(t[i] == t0[i]);
                            }
                        }
                        assert forall|i: int| 0 <= i < t.len() implies #[trigger] t[i].2 == 1 by {
                            if i < t0.len() {
                                assert(t[i] == t0[i]);
                            }
                        }
                        assert forall|i: int| 0 <= i < t.len() - 1 implies delivered(#[trigger] t[i].3) by {
                            assert(t[i] == t0[i]);
                        }
                    }
                    assert(conn_recv_can_give::<C>(id, 1, outcome));
                    match outcome {
                        Ok(bytes) => {
                            if bytes.len() == 0 {
                                assert(header@ =~= initial + read_bytes(t));
                                early = Some(Ok(bytes));
                                break;
                            }
                            let ghost before = header@;
                            append_bytes(&mut header, bytes.as_slice());
                            assert(header@.subrange(0, initial.len() as int) =~= before.subrange(0, initial.len() as int));
                            assert(header@ =~= initial + read_bytes(t));
                            complete = decode_frame(header.as_slice()).is_some();
                        },
                        Err(e) => {
                            assert(header@ =~= initial + read_bytes(t));
                            early = Some(Err(e));
                            break;
                        },
                    }
                }
                let ghost th = t;
                assert(th.take(th.len() as int) =~= th);
                if complete {
                    self.recv_streams.insert(id, WebTransportRecvStream { header: None });
                    assert(self@.recv_headers =~= old(self)@.recv_headers.insert(id, None));
                    assert(self@ == with_recv_header(old(self)@, id, None));
                    let ghost q0 = *quinn;
                    let outcome = quinn.recv(id, limit);
                    assert(conn_recv_can_give::<C>(id, limit, outcome));
                    proof {
                        let step = (q0, *quinn, limit, outcome);
                        lemma_chained_push(th, *old(quinn), step);
                        let t2 = th.push(step);
                        assert(t2.take(th.len() as int) =~= th);
                        assert forall|i: int| 0 <= i < t2.len() implies #[trigger] C::recv_step(&t2[i].0, &t2[i].1, id, t2[i].2, t2[i].3) by {
                            if i < th.len() {
                                assert(t2[i] == th[i]);
                            }
                        }
                        assert forall|i: int| 0 <= i < th.len() implies #[trigger] t2[i].2 == 1 by {
                            assert(t2[i] == th[i]);
                        }
                        assert forall|i: int| 0 <= i < th.len() implies delivered(#[trigger] t2[i].3) by {
                            assert(t2[i] == th[i]);
                        }
                        assert(t2[th.len() as int] == step);
                        assert(session_read(Some(initial), None, limit, t2, outcome));
                        assert(chained(t2, *old(quinn), *quinn));
                    }
                    Some(outcome)
                } else {
                    let ghost partial = header@;
                    self.recv_streams.insert(id, WebTransportRecvStream { header: Some(header) });
                    assert(self@.recv_headers =~= old(self)@.recv_headers.insert(id, Some(partial)));
                    assert(self@ == with_recv_header(old(self)@, id, Some(partial)));
                    assert(session_read(Some(initial), Some(partial), limit, th, early->0));
                    early
                }
            },
        }
    }

    /// Takes the oldest queued WebTransport stream event.
    pub fn poll_event(&mut self) -> (r: Option<StreamEvent<WebTransportStreamId>>)
        ensures
            old(self)@.events.len() == 0 ==> (r is None) && final(self)@ == old(self)@,
            old(self)@.events.len() > 0 ==> r == Some(old(self)@.events[0])
                && final(self)@ == with_events(old(self)@, old(self)@.events.drop_first()),
    {
        let r = self.stream_events.pop_front();
        proof {
            if old(self)@.events.len() > 0 {
                assert(self@.events =~= old(self)@.events.drop_first());
            }
        }
        r
    }
}

/// A connected or failed session stays as it is: handshake steps no longer
/// move it, and it does not become connected again.
pub proof fn law_session_end_states_are_final(pre: SessionState, post: SessionState, incoming: Seq<u8>, connected: bool)
    requires
        pre is Connected || pre is Failed,
        handshake_step(pre, post, incoming, connected),
    ensures
        post == pre,
        !connected,
{
}

/// A session becomes connected only when the client reads an acceptable
/// CONNECT response, or when the server has written its CONNECT response.
pub proof fn law_connected_only_after_connect(pre: SessionState, post: SessionState, incoming: Seq<u8>, connected: bool)
    requires
        handshake_step(pre, post, incoming, connected),
        connected,
    ensures
        post is Connected,
        (pre matches SessionState::ClientReceiveConnectResponse(_, b) && connect_outcome(connect_response_judged(b + incoming)) == ReadResult::Success)
            || pre is ServerSendConnectResponse,
{
}

/// A server session that reads an acceptable CONNECT request answers it
/// with the CONNECT response of status 200 (OK), on the stream the request
/// came on: it goes on to write the bytes that encoding status 200 gives,
/// and those of no other status.
pub proof fn law_session_accepts_connect_with_ok<C: StreamConnection>(incoming: &[u8])
    ensures
        CONNECT_OK_STATUS == 200,
        forall|w: &mut WebTransportConnection, c: &mut C, connected: bool| #[trigger] call_ensures(
            WebTransportConnection::advance::<C>,
            (w, c, incoming),
            connected,
        ) ==> ((*w)@.state matches SessionState::ServerReadConnectRequest(s, b)
            ==> (connect_request_judged(b + incoming@) is Decoded <==> (mut_ref_future(w)@.state matches SessionState::ServerSendConnectResponse(
            s2,
            response,
        ) && s2 == s && is_connect_response(response, 200)))),
{
}

/// The server answers acceptable SETTINGS only with WebTransport SETTINGS,
/// and an acceptable CONNECT request with a HEADERS frame on the same
/// stream.
pub proof fn law_server_answers(pre: SessionState, post: SessionState, incoming: Seq<u8>, connected: bool)
    requires
        handshake_step(pre, post, incoming, connected),
    ensures
        pre is ServerReadSettings ==> (post matches SessionState::ServerSendSettingsResponse(_, response) ==> is_webtransport_settings(response)),
        pre matches SessionState::ServerReadConnectRequest(s, _) ==> (post matches SessionState::ServerSendConnectResponse(s2, response) ==> s2 == s && is_frame_of_type(response, 1)),
{
}

} // verus!

verus! {

/// Over a QUIC connection, a WebTransport send never ends with header bytes
/// left and no error: a write of nonempty data there either writes a byte
/// or fails, so a header send that takes nothing is a failure, and no data
/// is written while the header is not all written.
pub proof fn law_quic_send_writes_the_header_first(
    id: u64,
    h: Seq<u8>,
    left: Seq<u8>,
    data: Seq<u8>,
    t: Seq<(QuinnConnection, QuinnConnection, Seq<u8>, Result<usize, QuinnSendError>)>,
    res: Result<usize, QuinnSendError>,
)
    requires
        session_sent(id, Some(h), Some(left), data, t, res),
    ensures
        left.len() > 0 ==> res is Err,
        res is Ok ==> left.len() == 0,
{
    let k = choose|k: int| #[trigger] header_then_data(id, h, left, data, t, k, res);
    let tk = t.take(k);
    assert(tk.take(k - 1) =~= tk.drop_last());
    assert(tk[k - 1] == t[k - 1]);
    assert(tk.last() == t[k - 1]);
    if left.len() > 0 && !(t[k - 1].3 is Err) {
        assert(tk[k - 1].2 == h.subrange(wrote_total(tk.take(k - 1)), h.len() as int));
        assert(QuinnConnection::send_step(&tk[k - 1].0, &tk[k - 1].1, id, tk[k - 1].2, tk[k - 1].3));
        assert(false);
    }
}

} // verus!
