//! QUIC connections of `quinn_proto` as connections of the library: stream
//! ids are QUIC stream ids, and the stream events of a connection are the
//! streams the peer opened and the receive streams it finished.
use vstd::prelude::*;
use std::collections::VecDeque;
use quinn_proto::{VarInt, StreamId, Event};
use quinn_proto::StreamEvent as S;
use crate::interface::{Dir, Side, StreamEvent, StreamEventType, SendStreamMut, RecvStreamMut, StreamConnection};
use crate::quic::{AppEvent, RecvOutcome, accepted_stream_events, quinn_recv_result, ConnectionStreams, ChunkOutcome, StreamReaderResponse, WriteError, read_chunk, ConnectionCall, closing_calls, lemma_closing_call_of, lemma_closing_call_from};
use crate::transports::{QuinnSendError, QuinnReadError, WriteOutcome, quinn_send_result, write_result};

verus! {

#[verifier::external_type_specification]
#[verifier::external_body]
pub struct ExQuinnConnection(quinn_proto::Connection);

#[verifier::external_type_specification]
#[verifier::external_body]
pub struct ExConnectionEvent(quinn_proto::ConnectionEvent);

#[verifier::external_type_specification]
#[verifier::external_body]
pub struct ExEndpointEvent(quinn_proto::EndpointEvent);

#[verifier::external_type_specification]
#[verifier::external_body]
pub struct ExTransmit(quinn_proto::Transmit);

#[verifier::external_type_specification]
#[verifier::external_body]
pub struct ExInstant(std::time::Instant);

/// The largest QUIC stream id, exclusive: ids are variable-length integers
/// of at most 62 bits.
pub open spec fn stream_id_bound() -> u64 {
    0x4000_0000_0000_0000u64
}

/// Calls `Streams::open`: opens a local stream of the direction `dir`.
///
/// Trusted: an opened stream's id is a 62-bit QUIC stream id.
#[verifier::external_body]
fn open_quic_stream(connection: &mut quinn_proto::Connection, dir: Dir) -> (r: Option<u64>)
    ensures
        r matches Some(id) ==> id < stream_id_bound(),
{
    let dir = match dir {
        Dir::Uni => quinn_proto::Dir::Uni,
        Dir::Bi => quinn_proto::Dir::Bi,
    };
    connection.streams().open(dir).map(u64::from)
}

/// Calls `Streams::accept`: takes a stream of the direction `dir` that
/// the peer opened.
///
/// Trusted: an accepted stream's id is a 62-bit QUIC stream id.
#[verifier::external_body]
fn accept_quic_stream(connection: &mut quinn_proto::Connection, dir: Dir) -> (r: Option<u64>)
    ensures
        r matches Some(id) ==> id < stream_id_bound(),
{
    let dir = match dir {
        Dir::Uni => quinn_proto::Dir::Uni,
        Dir::Bi => quinn_proto::Dir::Bi,
    };
    connection.streams().accept(dir).map(u64::from)
}

/// Calls `Connection::side`: whether the connection is the client or the
/// server end. A connection's side is fixed when it is made.
#[verifier::external_body]
fn quic_side(connection: &quinn_proto::Connection) -> Side {
    match connection.side() {
        quinn_proto::Side::Client => Side::Client,
        quinn_proto::Side::Server => Side::Server,
    }
}

/// The side that opened stream `id`: the lowest bit of a QUIC stream id.
pub open spec fn stream_initiator(id: u64) -> Side {
    if id % 2 == 0 {
        Side::Client
    } else {
        Side::Server
    }
}

/// Whether stream `id` is bidirectional: the second bit of a QUIC stream id.
pub open spec fn stream_is_bi(id: u64) -> bool {
    (id / 2) % 2 == 0
}

/// The end `side` of a connection can write on stream `id`: it is
/// bidirectional, or `side` opened it.
pub open spec fn may_send(side: Side, id: u64) -> bool {
    id < stream_id_bound() && (stream_is_bi(id) || stream_initiator(id) == side)
}

/// The end `side` of a connection can read from stream `id`: it is
/// bidirectional, or the peer opened it.
pub open spec fn may_recv(side: Side, id: u64) -> bool {
    id < stream_id_bound() && (stream_is_bi(id) || stream_initiator(id) != side)
}

/// Whether the end `side` can write on stream `id`.
pub fn sendable(side: Side, id: u64) -> (r: bool)
    ensures
        r == may_send(side, id),
{
    if id >= 0x4000_0000_0000_0000u64 {
        return false;
    }
    let client_opened = id % 2 == 0;
    let bi = (id / 2) % 2 == 0;
    bi || match side {
        Side::Client => client_opened,
        Side::Server => !client_opened,
    }
}

/// Whether the end `side` can read from stream `id`.
pub fn receivable(side: Side, id: u64) -> (r: bool)
    ensures
        r == may_recv(side, id),
{
    if id >= 0x4000_0000_0000_0000u64 {
        return false;
    }
    let client_opened = id % 2 == 0;
    let bi = (id / 2) % 2 == 0;
    bi || match side {
        Side::Client => !client_opened,
        Side::Server => client_opened,
    }
}

/// Calls `Connection::send_stream` and `SendStream::write` on stream
/// `stream`.
///
/// Trusted: `send_stream` asserts that the stream is bidirectional or
/// opened by this side; `connection` holds the side that `Connection::side`
/// gave when it was made (a connection's side never changes, and
/// `QuinnConnection` neither hands out nor replaces its QUIC connection),
/// so `may_send` rules the assert's failure out. A
/// write reports at most the bytes it was given as written; a write of
/// nonempty data that succeeds writes at least one byte (with no room it
/// fails as blocked); it leaves the queued stream events as they were.
#[verifier::external_body]
fn write_quic_stream(connection: &mut QuinnConnection, stream: u64, data: &[u8]) -> (r: WriteOutcome)
    requires
        may_send(old(connection).side(), stream),
    ensures
        r matches WriteOutcome::Written(n) ==> n <= data@.len(),
        r matches WriteOutcome::Written(n) ==> (data@.len() > 0 ==> n > 0),
        final(connection).side() == old(connection).side(),
        final(connection).events() == old(connection).events(),
{
    let id = StreamId::from(VarInt::from_u64(stream).expect("62-bit stream id"));
    match connection.connection.send_stream(id).write(data) {
        Ok(n) => WriteOutcome::Written(n),
        Err(quinn_proto::WriteError::Blocked) => WriteOutcome::Blocked,
        Err(quinn_proto::WriteError::ClosedStream) => WriteOutcome::ClosedStream,
        Err(quinn_proto::WriteError::Stopped(code)) => WriteOutcome::Stopped(code.into_inner()),
    }
}

/// Calls `Connection::send_stream` and `SendStream::finish` on stream
/// `stream`; `true` when it succeeded.
///
/// Trusted: as for `write_quic_stream`, `may_send` rules out the assert of
/// `send_stream`; the queued stream events stay as they were.
#[verifier::external_body]
fn finish_quic_stream(connection: &mut QuinnConnection, stream: u64) -> (r: bool)
    requires
        may_send(old(connection).side(), stream),
    ensures
        final(connection).side() == old(connection).side(),
        final(connection).events() == old(connection).events(),
{
    let id = StreamId::from(VarInt::from_u64(stream).expect("62-bit stream id"));
    connection.connection.send_stream(id).finish().is_ok()
}

/// Calls `Connection::send_stream` and `SendStream::reset` on stream
/// `stream` with the error code `code`; `true` when it succeeded.
///
/// Trusted: as for `write_quic_stream`, `may_send` rules out the assert of
/// `send_stream`; the queued stream events stay as they were.
#[verifier::external_body]
fn reset_quic_stream(connection: &mut QuinnConnection, stream: u64, code: u64) -> (r: bool)
    requires
        may_send(old(connection).side(), stream),
        code < stream_id_bound(),
    ensures
        final(connection).side() == old(connection).side(),
        final(connection).events() == old(connection).events(),
{
    let id = StreamId::from(VarInt::from_u64(stream).expect("62-bit stream id"));
    connection.connection.send_stream(id).reset(VarInt::from_u64(code).expect("62-bit error code")).is_ok()
}

/// Calls `Connection::recv_stream` and `RecvStream::stop` on stream
/// `stream` with the error code `code`; `true` when it succeeded.
///
/// Trusted: `recv_stream` asserts that the stream is bidirectional or
/// opened by the peer; `connection` holds the side that `Connection::side`
/// gave when it was made (a connection's side never changes, and
/// `QuinnConnection` neither hands out nor replaces its QUIC connection),
/// so `may_recv` rules the assert's failure out.
/// The queued stream events stay as they were.
#[verifier::external_body]
fn stop_quic_stream(connection: &mut QuinnConnection, stream: u64, code: u64) -> (r: bool)
    requires
        may_recv(old(connection).side(), stream),
        code < stream_id_bound(),
    ensures
        final(connection).side() == old(connection).side(),
        final(connection).events() == old(connection).events(),
{
    let id = StreamId::from(VarInt::from_u64(stream).expect("62-bit stream id"));
    connection.connection.recv_stream(id).stop(VarInt::from_u64(code).expect("62-bit error code")).is_ok()
}

/// Calls `Connection::recv_stream` and `RecvStream::read` (ordered) on
/// stream `stream`, takes the next chunk of at most `limit` bytes and calls
/// `Chunks::finalize`.
///
/// Trusted: as for `stop_quic_stream`, `may_recv` rules out the assert of
/// `recv_stream`. A chunk holds at most `limit` bytes, and the queued
/// stream events stay as they were.
#[verifier::external_body]
fn read_quic_stream(connection: &mut QuinnConnection, stream: u64, limit: usize) -> (r: RecvOutcome)
    requires
        may_recv(old(connection).side(), stream),
    ensures
        r matches RecvOutcome::Chunk(bytes) ==> bytes@.len() <= limit,
        final(connection).side() == old(connection).side(),
        final(connection).events() == old(connection).events(),
{
    let id = StreamId::from(VarInt::from_u64(stream).expect("62-bit stream id"));
    let mut recv = connection.connection.recv_stream(id);
    let Ok(mut chunks) = recv.read(true) else { return RecvOutcome::ClosedStream };
    let r = match chunks.next(limit) {
        Ok(Some(chunk)) => RecvOutcome::Chunk(chunk.bytes.to_vec()),
        Ok(None) => RecvOutcome::Finished,
        Err(quinn_proto::ReadError::Blocked) => RecvOutcome::Blocked,
        Err(quinn_proto::ReadError::Reset(code)) => RecvOutcome::Reset(code.into_inner()),
    };
    let _ = chunks.finalize();
    r
}

/// Calls `Connection::poll` and gives the application event it returned.
#[verifier::external_body]
fn poll_quic_event(connection: &mut quinn_proto::Connection) -> Option<AppEvent> {
    Some(match connection.poll()? {
        Event::HandshakeDataReady => AppEvent::HandshakeDataReady,
        Event::Connected => AppEvent::Connected,
        Event::ConnectionLost { .. } => AppEvent::ConnectionLost,
        Event::Stream(S::Opened { .. }) => AppEvent::StreamOpened,
        Event::Stream(S::Readable { id }) => AppEvent::StreamReadable(id.into()),
        Event::Stream(S::Writable { id }) => AppEvent::StreamWritable(id.into()),
        Event::Stream(S::Finished { id }) => AppEvent::StreamFinished(id.into()),
        Event::Stream(S::Stopped { id, .. }) => AppEvent::StreamStopped(id.into()),
        Event::Stream(S::Available { .. }) => AppEvent::StreamAvailable,
        Event::DatagramReceived => AppEvent::DatagramReceived,
        Event::DatagramsUnblocked => AppEvent::DatagramsUnblocked,
    })
}

/// Calls `Connection::close` now, with the error code `error_code` and the
/// reason `reason`.
#[verifier::external_body]
fn close_quic_connection(connection: &mut quinn_proto::Connection, error_code: u32, reason: &[u8]) {
    connection.close(std::time::Instant::now(), VarInt::from_u32(error_code), bytes::Bytes::copy_from_slice(reason));
}

/// Calls `Connection::handle_event`.
#[verifier::external_body]
fn quic_handle_event(connection: &mut quinn_proto::Connection, event: quinn_proto::ConnectionEvent) {
    connection.handle_event(event)
}

/// Calls `Connection::poll_transmit`, which asserts that `max_datagrams`
/// is not 0: `requires` rules that out.
#[verifier::external_body]
fn quic_poll_transmit(
    connection: &mut quinn_proto::Connection,
    now: std::time::Instant,
    max_datagrams: usize,
    buffer: &mut Vec<u8>,
) -> Option<quinn_proto::Transmit>
    requires
        max_datagrams > 0,
{
    connection.poll_transmit(now, max_datagrams, buffer)
}

/// Calls `Connection::poll_timeout`.
#[verifier::external_body]
fn quic_poll_timeout(connection: &mut quinn_proto::Connection) -> Option<std::time::Instant> {
    connection.poll_timeout()
}

/// Calls `Connection::handle_timeout`.
#[verifier::external_body]
fn quic_handle_timeout(connection: &mut quinn_proto::Connection, now: std::time::Instant) {
    connection.handle_timeout(now)
}

/// Calls `Connection::poll_endpoint_events`.
#[verifier::external_body]
fn quic_poll_endpoint_event(connection: &mut quinn_proto::Connection) -> Option<quinn_proto::EndpointEvent> {
    connection.poll_endpoint_events()
}

/// The event that the peer finished receive stream `stream_id`.
pub open spec fn closed_event(stream_id: u64) -> StreamEvent<u64> {
    StreamEvent { stream_id, peer_generated: true, event_type: StreamEventType::ClosedRecvStream }
}

/// The stream events of the streams `ids` that the peer opened, in order;
/// `bi` says whether they are bidirectional.
pub open spec fn accepted_events(ids: Seq<u64>, bi: bool) -> Seq<StreamEvent<u64>>
    decreases ids.len(),
{
    if ids.len() == 0 {
        Seq::empty()
    } else {
        let id = ids.last();
        let new_recv = StreamEvent { stream_id: id, peer_generated: true, event_type: StreamEventType::NewRecvStream };
        let new_send = StreamEvent { stream_id: id, peer_generated: true, event_type: StreamEventType::NewSendStream };
        accepted_events(ids.drop_last(), bi) + if bi { seq![new_recv, new_send] } else { seq![new_recv] }
    }
}

/// A QUIC connection, and the stream events it has for the application.
pub struct QuinnConnection {
    connection: quinn_proto::Connection,
    side: Side,
    stream_events: VecDeque<StreamEvent<u64>>,
}

/// A send stream of a QUIC connection.
pub struct QuinnSendStreamMut<'s> {
    connection: &'s mut QuinnConnection,
    stream: u64,
}

impl<'s> QuinnSendStreamMut<'s> {
    /// The id of the stream.
    pub closed spec fn stream_id(&self) -> u64 {
        self.stream
    }

    /// The stream events of the stream's connection.
    pub closed spec fn events(&self) -> Seq<StreamEvent<u64>> {
        self.connection.events()
    }

    /// The side of the stream's connection.
    pub closed spec fn side(&self) -> Side {
        self.connection.side()
    }
}

/// A receive stream of a QUIC connection.
pub struct QuinnRecvStreamMut<'s> {
    connection: &'s mut QuinnConnection,
    stream: u64,
}

impl<'s> QuinnRecvStreamMut<'s> {
    /// The id of the stream.
    pub closed spec fn stream_id(&self) -> u64 {
        self.stream
    }

    /// The stream events of the stream's connection.
    pub closed spec fn events(&self) -> Seq<StreamEvent<u64>> {
        self.connection.events()
    }

    /// The side of the stream's connection.
    pub closed spec fn side(&self) -> Side {
        self.connection.side()
    }
}

impl QuinnConnection {
    /// The stream events not yet polled, oldest first.
    pub closed spec fn events(&self) -> Seq<StreamEvent<u64>> {
        self.stream_events@
    }

    /// Whether this end is the client or the server of the connection.
    pub closed spec fn side(&self) -> Side {
        self.side
    }

    /// The connection `connection`, with no stream event yet.
    pub fn new(connection: quinn_proto::Connection) -> (r: Self)
        ensures
            r.events() == Seq::<StreamEvent<u64>>::empty(),
    {
        let side = quic_side(&connection);
        QuinnConnection { connection, side, stream_events: VecDeque::new() }
    }

    /// Takes the streams the peer opened, unidirectional ones first, at
    /// most `max_streams` of each direction: each becomes a new receive
    /// stream event, and a bidirectional one also a new send stream event.
    pub fn accept_streams(&mut self, max_streams: usize)
        ensures
            old(self).events().is_prefix_of(final(self).events()),
            final(self).side() == old(self).side(),
            exists|uni: Seq<u64>, bi: Seq<u64>|
                #![trigger accepted_events(uni, false), accepted_events(bi, true)]
                uni.len() <= max_streams && bi.len() <= max_streams
                    && (forall|i: int| 0 <= i < uni.len() ==> #[trigger] uni[i] < stream_id_bound())
                    && (forall|i: int| 0 <= i < bi.len() ==> #[trigger] bi[i] < stream_id_bound())
                    && final(self).events() == old(self).events() + accepted_events(uni, false) + accepted_events(bi, true),
            forall|i: int| old(self).events().len() <= i < final(self).events().len() ==>
                (#[trigger] final(self).events()[i]).peer_generated
                && (final(self).events()[i].event_type == StreamEventType::NewRecvStream
                    || final(self).events()[i].event_type == StreamEventType::NewSendStream),
    {
        let ghost start = self.events();
        assert(start =~= start.subrange(0, start.len() as int));
        let ghost mut uni: Seq<u64> = Seq::empty();
        let ghost mut bi: Seq<u64> = Seq::empty();
        assert(start + accepted_events(uni, false) =~= start);
        let mut taken: usize = 0;
        while taken < max_streams
            invariant
                self.side() == old(self).side(),
                taken <= max_streams,
                uni.len() == taken,
                forall|i: int| 0 <= i < uni.len() ==> #[trigger] uni[i] < stream_id_bound(),
                self.events() == start + accepted_events(uni, false),
                start == old(self).events(),
                start.is_prefix_of(self.events()),
                forall|i: int| start.len() <= i < self.events().len() ==> (#[trigger] self.events()[i]).peer_generated
                    && (self.events()[i].event_type == StreamEventType::NewRecvStream
                        || self.events()[i].event_type == StreamEventType::NewSendStream),
            decreases max_streams - taken,
        {
            match accept_quic_stream(&mut self.connection, Dir::Uni) {
                Some(id) => {
                    self.push_events(accepted_stream_events(id, false));
                    proof {
                        let u2 = uni.push(id);
                        assert(u2.drop_last() =~= uni);
                        assert(accepted_events(u2, false) == accepted_events(uni, false) + seq![
                            StreamEvent { stream_id: id, peer_generated: true, event_type: StreamEventType::NewRecvStream }]);
                        uni = u2;
                        assert(self.events() =~= start + accepted_events(uni, false));
                    }
                },
                None => {
                    break;
                },
            }
            taken = taken + 1;
        }
        let ghost after_uni = self.events();
        assert(after_uni + accepted_events(bi, true) =~= after_uni);
        let mut taken: usize = 0;
        while taken < max_streams
            invariant
                self.side() == old(self).side(),
                taken <= max_streams,
                bi.len() == taken,
                uni.len() <= max_streams,
                forall|i: int| 0 <= i < uni.len() ==> #[trigger] uni[i] < stream_id_bound(),
                forall|i: int| 0 <= i < bi.len() ==> #[trigger] bi[i] < stream_id_bound(),
                after_uni == start + accepted_events(uni, false),
                self.events() == after_uni + accepted_events(bi, true),
                start == old(self).events(),
                start.is_prefix_of(self.events()),
                forall|i: int| start.len() <= i < self.events().len() ==> (#[trigger] self.events()[i]).peer_generated
                    && (self.events()[i].event_type == StreamEventType::NewRecvStream
                        || self.events()[i].event_type == StreamEventType::NewSendStream),
            decreases max_streams - taken,
        {
            match accept_quic_stream(&mut self.connection, Dir::Bi) {
                Some(id) => {
                    self.push_events(accepted_stream_events(id, true));
                    proof {
                        let b2 = bi.push(id);
                        assert(b2.drop_last() =~= bi);
                        assert(accepted_events(b2, true) == accepted_events(bi, true) + seq![
                            StreamEvent { stream_id: id, peer_generated: true, event_type: StreamEventType::NewRecvStream },
                            StreamEvent { stream_id: id, peer_generated: true, event_type: StreamEventType::NewSendStream }]);
                        bi = b2;
                        assert(self.events() =~= after_uni + accepted_events(bi, true));
                    }
                },
                None => {
                    break;
                },
            }
            taken = taken + 1;
        }
        assert(self.events() =~= old(self).events() + accepted_events(uni, false) + accepted_events(bi, true));
    }

    /// Queues `events` behind the stream events already queued.
    fn push_events(&mut self, events: Vec<StreamEvent<u64>>)
        ensures
            final(self).events() == old(self).events() + events@,
            final(self).side() == old(self).side(),
    {
        let mut i: usize = 0;
        while i < events.len()
            invariant
                self.side() == old(self).side(),
                i <= events@.len(),
                self.events() == old(self).events() + events@.subrange(0, i as int),
            decreases events@.len() - i,
        {
            self.stream_events.push_back(events[i]);
            i = i + 1;
            assert(self.events() =~= old(self).events() + events@.subrange(0, i as int));
        }
        assert(events@.subrange(0, events@.len() as int) =~= events@);
    }
}

impl<'s> SendStreamMut for QuinnSendStreamMut<'s> {
    type SendError = QuinnSendError;

    type CloseDescription = Option<u64>;

    /// A write keeps the stream, side and queued events; a stream this end
    /// cannot write on is no send stream; a write of nonempty data that
    /// succeeds writes at least one byte.
    open spec fn send_step(before: &Self, after: &Self, data: Seq<u8>, r: Result<usize, QuinnSendError>) -> bool {
        &&& !may_send(before.side(), before.stream_id()) ==> r == Err::<usize, QuinnSendError>(QuinnSendError::NoStream)
        &&& r matches Ok(n) ==> (data.len() > 0 ==> n > 0)
        &&& after.stream_id() == before.stream_id()
        &&& after.side() == before.side()
        &&& after.events() == before.events()
    }

    /// A stream this end cannot write on (beyond 62 bits, or a
    /// unidirectional stream the peer opened) is no send stream.
    fn send(&mut self, data: &[u8]) -> (r: Result<usize, QuinnSendError>)
        ensures
            !may_send(old(self).side(), old(self).stream_id()) ==> r == Err::<usize, QuinnSendError>(QuinnSendError::NoStream),
            final(self).stream_id() == old(self).stream_id(),
            final(self).side() == old(self).side(),
            final(self).events() == old(self).events(),
    {
        if !sendable(self.connection.side, self.stream) {
            return Err(QuinnSendError::NoStream);
        }
        quinn_send_result(write_quic_stream(self.connection, self.stream, data))
    }

    /// `None` finishes the stream; an error code resets it. A stream this
    /// end cannot write on, or an error code beyond 62 bits, is refused.
    fn close(&mut self, description: Option<u64>) -> (r: Result<(), ()>)
        ensures
            !may_send(old(self).side(), old(self).stream_id()) ==> r is Err,
            (description matches Some(code) && code >= stream_id_bound()) ==> r is Err,
            final(self).stream_id() == old(self).stream_id(),
            final(self).side() == old(self).side(),
            final(self).events() == old(self).events(),
    {
        if !sendable(self.connection.side, self.stream) {
            return Err(());
        }
        let closed = match description {
            Some(code) => code < 0x4000_0000_0000_0000u64 && reset_quic_stream(self.connection, self.stream, code),
            None => finish_quic_stream(self.connection, self.stream),
        };
        if closed {
            Ok(())
        } else {
            Err(())
        }
    }

    /// The handle does not follow the stream's state: it reports the
    /// stream open.
    fn is_open(&self) -> (r: bool)
        ensures
            r,
    {
        true
    }
}

impl<'s> RecvStreamMut for QuinnRecvStreamMut<'s> {
    type ReadError = QuinnReadError;

    type CloseDescription = u64;

    /// A read keeps the stream and side, and at most queues the stream's
    /// end (reading as blocked); a stream this end cannot read from is no
    /// receive stream.
    open spec fn recv_step(before: &Self, after: &Self, limit: usize, r: Result<Vec<u8>, QuinnReadError>) -> bool {
        &&& !may_recv(before.side(), before.stream_id()) ==> r == Err::<Vec<u8>, QuinnReadError>(QuinnReadError::NoStream)
            && after.events() == before.events()
        &&& after.stream_id() == before.stream_id()
        &&& after.side() == before.side()
        &&& after.events() == before.events() || (
            after.events() == before.events().push(closed_event(before.stream_id()))
            && r == Err::<Vec<u8>, QuinnReadError>(QuinnReadError::Blocked))
    }

    /// A finished stream reads as blocked, and its end is queued as a
    /// closed receive stream event. A stream this end cannot read from
    /// (beyond 62 bits, or a unidirectional stream it opened) is no
    /// receive stream.
    fn recv(&mut self, limit: usize) -> (r: Result<Vec<u8>, QuinnReadError>)
        ensures
            !may_recv(old(self).side(), old(self).stream_id()) ==> r == Err::<Vec<u8>, QuinnReadError>(QuinnReadError::NoStream)
                && final(self).events() == old(self).events(),
            final(self).stream_id() == old(self).stream_id(),
            final(self).side() == old(self).side(),
            final(self).events() == old(self).events() || (
                final(self).events() == old(self).events().push(closed_event(old(self).stream_id()))
                && r == Err::<Vec<u8>, QuinnReadError>(QuinnReadError::Blocked)),
    {
        if !receivable(self.connection.side, self.stream) {
            return Err(QuinnReadError::NoStream);
        }
        let (r, event) = quinn_recv_result(self.stream, read_quic_stream(self.connection, self.stream, limit));
        if let Some(event) = event {
            self.connection.stream_events.push_back(event);
        }
        r
    }

    /// Stops the stream with the error code `description`. A stream this
    /// end cannot read from, or an error code beyond 62 bits, is refused.
    fn close(&mut self, description: u64) -> (r: Result<(), ()>)
        ensures
            !may_recv(old(self).side(), old(self).stream_id()) || description >= stream_id_bound() ==> r is Err,
            final(self).stream_id() == old(self).stream_id(),
            final(self).side() == old(self).side(),
            final(self).events() == old(self).events(),
    {
        if !receivable(self.connection.side, self.stream) || description >= 0x4000_0000_0000_0000u64 {
            return Err(());
        }
        if stop_quic_stream(self.connection, self.stream, description) {
            Ok(())
        } else {
            Err(())
        }
    }

    /// The handle does not follow the stream's state: it reports the
    /// stream open.
    fn is_open(&self) -> (r: bool)
        ensures
            r,
    {
        true
    }
}

impl QuinnConnection {
    /// Opens a local stream of the direction `dir`.
    pub fn open_stream(&mut self, dir: Dir) -> (r: Option<u64>)
        ensures
            r matches Some(id) ==> id < stream_id_bound(),
            final(self).events() == old(self).events(),
    {
        open_quic_stream(&mut self.connection, dir)
    }

    /// The send stream `stream_id`.
    pub fn send_stream<'s>(&'s mut self, stream_id: u64) -> (r: QuinnSendStreamMut<'s>)
        ensures
            r.stream_id() == stream_id,
    {
        QuinnSendStreamMut { connection: self, stream: stream_id }
    }

    /// The receive stream `stream_id`.
    pub fn recv_stream<'s>(&'s mut self, stream_id: u64) -> (r: QuinnRecvStreamMut<'s>)
        ensures
            r.stream_id() == stream_id,
    {
        QuinnRecvStreamMut { connection: self, stream: stream_id }
    }

    /// Takes the oldest stream event.
    pub fn poll_stream_event(&mut self) -> (r: Option<StreamEvent<u64>>)
        ensures
            old(self).events().len() == 0 ==> r is None && final(self).events() == old(self).events(),
            old(self).events().len() > 0 ==> r == Some(old(self).events()[0]) && final(self).events() == old(self).events().drop_first(),
    {
        self.stream_events.pop_front()
    }
}

impl QuinnConnection {
    /// Takes a stream of the direction `dir` that the peer opened.
    pub fn accept_stream(&mut self, dir: Dir) -> (r: Option<u64>)
        ensures
            r matches Some(id) ==> id < stream_id_bound(),
            final(self).events() == old(self).events(),
    {
        accept_quic_stream(&mut self.connection, dir)
    }

    /// The next application event of the connection.
    pub fn poll_app_event(&mut self) -> (r: Option<AppEvent>)
        ensures
            final(self).events() == old(self).events(),
    {
        poll_quic_event(&mut self.connection)
    }

    /// Whether this end is the client or the server of the connection.
    pub fn local_side(&self) -> (r: Side)
        ensures
            r == self.side(),
    {
        self.side
    }

    /// Hands an event from the endpoint to the QUIC connection.
    pub fn handle_event(&mut self, event: quinn_proto::ConnectionEvent)
        ensures
            final(self).side() == old(self).side(),
            final(self).events() == old(self).events(),
    {
        quic_handle_event(&mut self.connection, event)
    }

    /// The next packet of the QUIC connection to send, written to `buffer`.
    pub fn poll_transmit(&mut self, now: std::time::Instant, max_datagrams: usize, buffer: &mut Vec<u8>) -> (r: Option<quinn_proto::Transmit>)
        requires
            max_datagrams > 0,
        ensures
            final(self).side() == old(self).side(),
            final(self).events() == old(self).events(),
    {
        quic_poll_transmit(&mut self.connection, now, max_datagrams, buffer)
    }

    /// When the QUIC connection's next timer expires.
    pub fn poll_timeout(&mut self) -> (r: Option<std::time::Instant>)
        ensures
            final(self).side() == old(self).side(),
            final(self).events() == old(self).events(),
    {
        quic_poll_timeout(&mut self.connection)
    }

    /// Lets the QUIC connection handle its expired timers.
    pub fn handle_timeout(&mut self, now: std::time::Instant)
        ensures
            final(self).side() == old(self).side(),
            final(self).events() == old(self).events(),
    {
        quic_handle_timeout(&mut self.connection, now)
    }

    /// The next event of the QUIC connection for its endpoint.
    pub fn poll_endpoint_events(&mut self) -> (r: Option<quinn_proto::EndpointEvent>)
        ensures
            final(self).side() == old(self).side(),
            final(self).events() == old(self).events(),
    {
        quic_poll_endpoint_event(&mut self.connection)
    }

    /// Closes the connection now, with an error code and a reason.
    pub fn close(&mut self, error_code: u32, reason: &[u8])
        ensures
            final(self).side() == old(self).side(),
            final(self).events() == old(self).events(),
    {
        close_quic_connection(&mut self.connection, error_code, reason)
    }
}

impl StreamConnection for QuinnConnection {
    type SendError = QuinnSendError;

    type ReadError = QuinnReadError;

    /// Opening keeps the queued events and gives an id below the bound.
    open spec fn open_step(before: &Self, after: &Self, dir: Dir, r: Option<u64>) -> bool {
        &&& r matches Some(id) ==> id < stream_id_bound()
        &&& after.events() == before.events()
    }

    /// A write keeps the side and queued events; a stream this end cannot
    /// write on is no send stream; a write of nonempty data that succeeds
    /// writes at least one byte.
    open spec fn send_step(before: &Self, after: &Self, stream_id: u64, data: Seq<u8>, r: Result<usize, QuinnSendError>) -> bool {
        &&& !may_send(before.side(), stream_id) ==> r == Err::<usize, QuinnSendError>(QuinnSendError::NoStream)
        &&& r matches Ok(n) ==> (data.len() > 0 ==> n > 0)
        &&& after.side() == before.side()
        &&& after.events() == before.events()
    }

    /// A read keeps the side and at most queues the stream's end (reading
    /// as blocked); a stream this end cannot read from is no receive stream.
    open spec fn recv_step(before: &Self, after: &Self, stream_id: u64, limit: usize, r: Result<Vec<u8>, QuinnReadError>) -> bool {
        &&& !may_recv(before.side(), stream_id) ==> r == Err::<Vec<u8>, QuinnReadError>(QuinnReadError::NoStream)
            && after.events() == before.events()
        &&& after.side() == before.side()
        &&& after.events() == before.events() || (
            after.events() == before.events().push(closed_event(stream_id))
            && r == Err::<Vec<u8>, QuinnReadError>(QuinnReadError::Blocked))
    }

    fn open_stream(&mut self, dir: Dir) -> (r: Option<u64>)
        ensures
            r matches Some(id) ==> id < stream_id_bound(),
            final(self).events() == old(self).events(),
    {
        open_quic_stream(&mut self.connection, dir)
    }

    /// A stream this end cannot write on (beyond 62 bits, or a
    /// unidirectional stream the peer opened) is no send stream.
    fn send(&mut self, stream_id: u64, data: &[u8]) -> (r: Result<usize, QuinnSendError>)
        ensures
            !may_send(old(self).side(), stream_id) ==> r == Err::<usize, QuinnSendError>(QuinnSendError::NoStream),
            final(self).side() == old(self).side(),
            final(self).events() == old(self).events(),
    {
        if !sendable(self.side, stream_id) {
            return Err(QuinnSendError::NoStream);
        }
        quinn_send_result(write_quic_stream(self, stream_id, data))
    }

    /// A stream this end cannot read from (beyond 62 bits, or a
    /// unidirectional stream it opened) is no receive stream. A finished
    /// stream reads as blocked, and its end is queued as a closed receive
    /// stream event.
    fn recv(&mut self, stream_id: u64, limit: usize) -> (r: Result<Vec<u8>, QuinnReadError>)
        ensures
            !may_recv(old(self).side(), stream_id) ==> r == Err::<Vec<u8>, QuinnReadError>(QuinnReadError::NoStream)
                && final(self).events() == old(self).events(),
            final(self).side() == old(self).side(),
            final(self).events() == old(self).events() || (
                final(self).events() == old(self).events().push(closed_event(stream_id))
                && r == Err::<Vec<u8>, QuinnReadError>(QuinnReadError::Blocked)),
    {
        if !receivable(self.side, stream_id) {
            return Err(QuinnReadError::NoStream);
        }
        let (r, event) = quinn_recv_result(stream_id, read_quic_stream(self, stream_id, limit));
        if let Some(event) = event {
            self.stream_events.push_back(event);
        }
        r
    }

    /// Closes the connection now, with the error code 0.
    fn disconnect(&mut self) {
        close_quic_connection(&mut self.connection, 0, &[]);
    }
}

/// The bytes of `chunks`, one after another.
pub open spec fn chunks_bytes(chunks: Seq<Vec<u8>>) -> Seq<u8>
    decreases chunks.len(),
{
    if chunks.len() == 0 {
        Seq::empty()
    } else {
        chunks_bytes(chunks.drop_last()) + chunks.last()@
    }
}

/// Writes a prefix of `data` on QUIC stream `stream_id`. An id beyond 62
/// bits names no stream; a stream of the id's range must be one this end
/// can write on.
pub fn write_stream(connection: &mut QuinnConnection, stream_id: u64, data: &[u8]) -> (r: Result<usize, WriteError>)
    requires
        stream_id < stream_id_bound() ==> may_send(old(connection).side(), stream_id),
    ensures
        stream_id >= stream_id_bound() ==> r == Err::<usize, WriteError>(WriteError::StreamDoesntExist)
            && *final(connection) == *old(connection),
        r matches Ok(n) ==> n <= data@.len(),
        final(connection).side() == old(connection).side(),
        final(connection).events() == old(connection).events(),
{
    if stream_id >= 0x4000_0000_0000_0000u64 {
        return Err(WriteError::StreamDoesntExist);
    }
    write_result(write_quic_stream(connection, stream_id, data))
}

/// One read of QUIC receive stream `stream_id`: the next chunk of at most
/// `limit` bytes, or how the stream stands (closed, finished, blocked or
/// reset).
pub fn read_stream_once(connection: &mut QuinnConnection, stream_id: u64, limit: usize) -> (r: RecvOutcome)
    requires
        may_recv(old(connection).side(), stream_id),
    ensures
        r matches RecvOutcome::Chunk(bytes) ==> bytes@.len() <= limit,
        final(connection).side() == old(connection).side(),
        final(connection).events() == old(connection).events(),
{
    read_quic_stream(connection, stream_id, limit)
}

/// The stream `stream_id` has the response `response` in `responses`.
pub open spec fn has_response(responses: Seq<(u64, StreamReaderResponse)>, stream_id: u64, response: StreamReaderResponse) -> bool {
    exists|k: int| 0 <= k < responses.len() && #[trigger] responses[k] == (stream_id, response)
}

/// `out` is what a call of `read_stream_once` on stream `stream_id` gave.
pub open spec fn read_once_gave(stream_id: u64, out: RecvOutcome) -> bool {
    exists|m: &mut QuinnConnection, limit: usize| #[trigger] call_ensures(read_stream_once, (m, stream_id, limit), out)
}

/// The reads `reads` gave the chunks `chunks`, one each and in order, and
/// then one more read ended the reading.
pub open spec fn chunks_then_end(reads: Seq<RecvOutcome>, chunks: Seq<Vec<u8>>) -> bool {
    &&& reads.len() == chunks.len() + 1
    &&& forall|k: int| 0 <= k < chunks.len() ==> #[trigger] reads[k] == RecvOutcome::Chunk(chunks[k])
}

/// The read responses `responses` once stream `stream_id` is opened for
/// reading: a stream with no response yet gets an incomplete read.
pub open spec fn reader_opened(responses: Seq<(u64, StreamReaderResponse)>, stream_id: u64) -> Seq<(u64, StreamReaderResponse)> {
    if exists|k: int| 0 <= k < responses.len() && #[trigger] responses[k].0 == stream_id {
        responses
    } else {
        responses.push((stream_id, StreamReaderResponse::IncompleteRead))
    }
}

/// How a read of a QUIC stream that ended with `out` is recorded for the
/// stream, the responses having been `before`: a read that met the
/// stream's end records it finished, a reset records the reset and its
/// code, a blocked read records it blocked; a read that stopped otherwise
/// (a closed stream, or no byte taken as the budget ran out) leaves the
/// responses as opening the stream made them.
pub open spec fn read_end_recorded(
    out: RecvOutcome,
    stream_id: u64,
    before: Seq<(u64, StreamReaderResponse)>,
    responses: Seq<(u64, StreamReaderResponse)>,
) -> bool {
    match out {
        RecvOutcome::Finished => has_response(responses, stream_id, StreamReaderResponse::Finished),
        RecvOutcome::Reset(code) => has_response(responses, stream_id, StreamReaderResponse::Reset(code)),
        RecvOutcome::Blocked => has_response(responses, stream_id, StreamReaderResponse::Blocked),
        _ => responses == reader_opened(before, stream_id),
    }
}

/// Reads the chunks of a readable stream, at most `max_bytes` bytes in all;
/// how the read ended is recorded as the stream's response for the next
/// poll. A stream that is not readable gives nothing and records nothing.
/// A chunk of no bytes (the budget is used up while data remains) ends the
/// read, the response staying an incomplete read.
pub fn read_up_to(connection: &mut QuinnConnection, streams: &mut ConnectionStreams, stream_id: u64, max_bytes: usize) -> (r: Vec<Vec<u8>>)
    requires
        old(streams).wf(),
        stream_id < stream_id_bound() ==> may_recv(old(connection).side(), stream_id),
    ensures
        final(streams).wf(),
        final(streams).readable() == old(streams).readable(),
        final(connection).side() == old(connection).side(),
        final(connection).events() == old(connection).events(),
        !old(streams).readable().contains(stream_id) ==> r@.len() == 0 && final(streams).responses() == old(streams).responses()
            && *final(connection) == *old(connection),
        chunks_bytes(r@).len() <= max_bytes,
        forall|i: int| 0 <= i < r@.len() ==> (#[trigger] r@[i])@.len() > 0,
        final(streams).responses().len() <= old(streams).responses().len() + 1,
        forall|k: int| 0 <= k < old(streams).responses().len() && old(streams).responses()[k].0 != stream_id
            ==> #[trigger] final(streams).responses()[k] == old(streams).responses()[k],
        old(streams).readable().contains(stream_id) && stream_id < stream_id_bound() ==> exists|m: &mut QuinnConnection, limit: usize, out: RecvOutcome|
            mut_ref_future(m) == *final(connection) && #[trigger] call_ensures(read_stream_once, (m, stream_id, limit), out)
            && read_end_recorded(out, stream_id, old(streams).responses(), final(streams).responses()),
        old(streams).readable().contains(stream_id) && stream_id < stream_id_bound() ==> exists|reads: Seq<RecvOutcome>|
            #[trigger] chunks_then_end(reads, r@) && (forall|k: int| 0 <= k < reads.len() ==> read_once_gave(stream_id, #[trigger] reads[k]))
            && read_end_recorded(reads.last(), stream_id, old(streams).responses(), final(streams).responses()),
{
    let mut chunks: Vec<Vec<u8>> = Vec::new();
    let ghost start = streams.responses();
    if !streams.open_reader(stream_id) {
        return chunks;
    }
    if stream_id >= 0x4000_0000_0000_0000u64 {
        return chunks;
    }
    let ghost opened = streams.responses();
    assert(opened == reader_opened(start, stream_id));
    assert(exists|k: int| 0 <= k < opened.len() && #[trigger] opened[k].0 == stream_id) by {
        if forall|k: int| 0 <= k < start.len() ==> #[trigger] start[k].0 != stream_id {
            assert(opened[start.len() as int].0 == stream_id);
        } else {
            let k = choose|k: int| !(0 <= k < start.len() ==> #[trigger] start[k].0 != stream_id);
            assert(opened[k].0 == stream_id);
        }
    }
    let mut budget = max_bytes;
    let ghost mut reads: Seq<RecvOutcome> = Seq::empty();
    loop
        invariant
            reads.len() == chunks@.len(),
            forall|k: int| 0 <= k < chunks@.len() ==> #[trigger] reads[k] == RecvOutcome::Chunk(chunks@[k]),
            forall|k: int| 0 <= k < reads.len() ==> read_once_gave(stream_id, #[trigger] reads[k]),
            streams.wf(),
            streams.readable() == old(streams).readable(),
            streams.responses() == opened,
            connection.side() == old(connection).side(),
            connection.events() == old(connection).events(),
            stream_id < stream_id_bound() ==> may_recv(connection.side(), stream_id),
            stream_id < stream_id_bound(),
            budget <= max_bytes,
            chunks_bytes(chunks@).len() + budget == max_bytes,
            forall|i: int| 0 <= i < chunks@.len() ==> (#[trigger] chunks@[i])@.len() > 0,
            old(streams).readable().contains(stream_id),
            start == old(streams).responses(),
            opened == reader_opened(start, stream_id),
            opened.len() <= start.len() + 1,
            start.len() <= opened.len(),
            exists|k: int| 0 <= k < opened.len() && #[trigger] opened[k].0 == stream_id,
            forall|k: int| 0 <= k < start.len() && start[k].0 != stream_id ==> #[trigger] opened[k] == start[k],
        decreases budget,
    {
        let got = read_stream_once(connection, stream_id, budget);
        let ghost g = got;
        assert(read_once_gave(stream_id, g));
        let ghost all = reads.push(g);
        assert forall|k: int| 0 <= k < all.len() implies read_once_gave(stream_id, #[trigger] all[k]) by {
            if k < reads.len() {
                assert(all[k] == reads[k]);
            }
        }
        assert forall|k: int| 0 <= k < chunks@.len() implies #[trigger] all[k] == RecvOutcome::Chunk(chunks@[k]) by {
            assert(all[k] == reads[k]);
        }
        let outcome = match got {
            RecvOutcome::ClosedStream => {
                assert(read_end_recorded(g, stream_id, start, streams.responses()));
                assert(all.last() == g && chunks_then_end(all, chunks@));
                return chunks;
            },
            RecvOutcome::Chunk(bytes) => {
                if bytes.len() == 0 {
                    assert(read_end_recorded(g, stream_id, start, streams.responses()));
                    assert(all.last() == g && chunks_then_end(all, chunks@));
                    return chunks;
                }
                let n = bytes.len();
                let ghost before = chunks@;
                chunks.push(bytes);
                assert(chunks@.drop_last() =~= before);
                proof {
                    assert forall|k: int| 0 <= k < chunks@.len() implies #[trigger] all[k] == RecvOutcome::Chunk(chunks@[k]) by {
                        if k < before.len() {
                            assert(chunks@[k] == before[k]);
                        }
                    }
                    reads = all;
                }
                ChunkOutcome::Data(n)
            },
            RecvOutcome::Finished => ChunkOutcome::End,
            RecvOutcome::Reset(code) => ChunkOutcome::Reset(code),
            RecvOutcome::Blocked => ChunkOutcome::Blocked,
        };
        let (rest, response) = read_chunk(budget, outcome);
        budget = rest;
        if let Some(response) = response {
            streams.set_response(stream_id, response);
            assert forall|k: int| 0 <= k < start.len() && start[k].0 != stream_id implies #[trigger] streams.responses()[k] == start[k] by {
                assert(streams.responses()[k] == opened[k]);
            }
            proof {
                let k = choose|k: int| 0 <= k < opened.len() && #[trigger] opened[k].0 == stream_id;
                assert(streams.responses()[k] == (stream_id, response));
                assert(read_end_recorded(g, stream_id, start, streams.responses()));
                assert(all.last() == g && chunks_then_end(all, chunks@));
            }
            return chunks;
        }
    }
}

/// How the read of a readable stream ended decides what the next poll of
/// the read responses tells the application of it: a read that met the
/// stream's end gives the call that the stream closed with no error, a
/// reset gives that call with the reset's code, and a blocked read gives
/// no closing call for the stream; a read of a stream with no response yet
/// that stopped otherwise (the stream closed, or the budget ran out with
/// data left) adds no call at all.
pub proof fn law_read_end_decides_the_closing_call(stream_id: u64, max_bytes: usize)
    requires
        stream_id < stream_id_bound(),
    ensures
        forall|c: &mut QuinnConnection, s: &mut ConnectionStreams, r: Vec<Vec<u8>>, polled: &mut ConnectionStreams, calls: Vec<ConnectionCall>|
            #![trigger call_ensures(read_up_to, (c, s, stream_id, max_bytes), r), call_ensures(ConnectionStreams::take_responses, (polled,), calls)]
            call_ensures(read_up_to, (c, s, stream_id, max_bytes), r) && (*s).readable().contains(stream_id)
            && *polled == mut_ref_future(s) && call_ensures(ConnectionStreams::take_responses, (polled,), calls)
            ==> exists|m: &mut QuinnConnection, limit: usize, out: RecvOutcome|
                mut_ref_future(m) == mut_ref_future(c) && #[trigger] call_ensures(read_stream_once, (m, stream_id, limit), out)
                && (out is Finished ==> calls@.contains(ConnectionCall::ReceiveStreamClosed { stream_id, reset_error: None }))
                && (out matches RecvOutcome::Reset(code) ==> calls@.contains(
                    ConnectionCall::ReceiveStreamClosed { stream_id, reset_error: Some(code) },
                ))
                && (out is Blocked ==> forall|k: int| 0 <= k < calls@.len() ==> !((#[trigger] calls@[k]) matches
                    ConnectionCall::ReceiveStreamClosed { stream_id: closed, .. } && closed == stream_id))
                && (!(out is Finished || out is Reset || out is Blocked) && (forall|k: int| 0 <= k < (*s).responses().len()
                    ==> (#[trigger] (*s).responses()[k]).0 != stream_id) ==> calls@ == closing_calls((*s).responses())),
{
    assert forall|c: &mut QuinnConnection, s: &mut ConnectionStreams, r: Vec<Vec<u8>>, polled: &mut ConnectionStreams, calls: Vec<ConnectionCall>|
        #![trigger call_ensures(read_up_to, (c, s, stream_id, max_bytes), r), call_ensures(ConnectionStreams::take_responses, (polled,), calls)]
        call_ensures(read_up_to, (c, s, stream_id, max_bytes), r) && (*s).readable().contains(stream_id)
        && *polled == mut_ref_future(s) && call_ensures(ConnectionStreams::take_responses, (polled,), calls)
        implies exists|m: &mut QuinnConnection, limit: usize, out: RecvOutcome|
            mut_ref_future(m) == mut_ref_future(c) && #[trigger] call_ensures(read_stream_once, (m, stream_id, limit), out)
            && (out is Finished ==> calls@.contains(ConnectionCall::ReceiveStreamClosed { stream_id, reset_error: None }))
            && (out matches RecvOutcome::Reset(code) ==> calls@.contains(
                ConnectionCall::ReceiveStreamClosed { stream_id, reset_error: Some(code) },
            ))
            && (out is Blocked ==> forall|k: int| 0 <= k < calls@.len() ==> !((#[trigger] calls@[k]) matches
                ConnectionCall::ReceiveStreamClosed { stream_id: closed, .. } && closed == stream_id))
            && (!(out is Finished || out is Reset || out is Blocked) && (forall|k: int| 0 <= k < (*s).responses().len()
                ==> (#[trigger] (*s).responses()[k]).0 != stream_id) ==> calls@ == closing_calls((*s).responses())) by {
        let responses = mut_ref_future(s).responses();
        let (m, limit, out) = choose|m: &mut QuinnConnection, limit: usize, out: RecvOutcome|
            mut_ref_future(m) == mut_ref_future(c) && #[trigger] call_ensures(read_stream_once, (m, stream_id, limit), out)
            && read_end_recorded(out, stream_id, (*s).responses(), responses);
        assert(calls@ == closing_calls(responses));
        match out {
            RecvOutcome::Finished => {
                let j = choose|j: int| 0 <= j < responses.len() && #[trigger] responses[j] == (stream_id, StreamReaderResponse::Finished);
                lemma_closing_call_of(responses, j);
            },
            RecvOutcome::Reset(code) => {
                let j = choose|j: int| 0 <= j < responses.len() && #[trigger] responses[j] == (stream_id, StreamReaderResponse::Reset(code));
                lemma_closing_call_of(responses, j);
            },
            RecvOutcome::Blocked => {
                let j = choose|j: int| 0 <= j < responses.len() && #[trigger] responses[j] == (stream_id, StreamReaderResponse::Blocked);
                (*polled).lemma_responses_unique();
                assert forall|k: int| 0 <= k < calls@.len() implies !((#[trigger] calls@[k]) matches
                    ConnectionCall::ReceiveStreamClosed { stream_id: closed, .. } && closed == stream_id) by {
                    lemma_closing_call_from(responses, k);
                    if let ConnectionCall::ReceiveStreamClosed { stream_id: closed, reset_error } = calls@[k] {
                        if closed == stream_id {
                            let j2 = choose|j2: int| 0 <= j2 < responses.len() && #[trigger] responses[j2].0 == closed && (match reset_error {
                                None => responses[j2].1 is Finished,
                                Some(code) => responses[j2].1 == StreamReaderResponse::Reset(code),
                            });
                            assert(responses[j].0 == responses[j2].0);
                            assert(j != j2);
                        }
                    }
                }
            },
            _ => {
                let before = (*s).responses();
                if forall|k: int| 0 <= k < before.len() ==> (#[trigger] before[k]).0 != stream_id {
                    assert(responses == before.push((stream_id, StreamReaderResponse::IncompleteRead)));
                    assert(responses.drop_last() =~= before);
                    assert(closing_calls(responses) =~= closing_calls(before));
                }
            },
        }
    }
}

/// What `read_up_to` gives of a readable stream is the data its reads of
/// the stream gave, chunk by chunk and in order, none dropped and none
/// added, up to the read that ended the reading; the budget bounds it.
pub proof fn law_read_up_to_gives_the_chunks_read(stream_id: u64, max_bytes: usize)
    requires
        stream_id < stream_id_bound(),
    ensures
        forall|c: &mut QuinnConnection, s: &mut ConnectionStreams, r: Vec<Vec<u8>>|
            #[trigger] call_ensures(read_up_to, (c, s, stream_id, max_bytes), r) && (*s).readable().contains(stream_id)
            ==> chunks_bytes(r@).len() <= max_bytes && exists|reads: Seq<RecvOutcome>| #[trigger] chunks_then_end(reads, r@)
                && forall|k: int| 0 <= k < reads.len() ==> read_once_gave(stream_id, #[trigger] reads[k]),
{
    assert forall|c: &mut QuinnConnection, s: &mut ConnectionStreams, r: Vec<Vec<u8>>|
        #[trigger] call_ensures(read_up_to, (c, s, stream_id, max_bytes), r) && (*s).readable().contains(stream_id)
        implies chunks_bytes(r@).len() <= max_bytes && exists|reads: Seq<RecvOutcome>| #[trigger] chunks_then_end(reads, r@)
            && forall|k: int| 0 <= k < reads.len() ==> read_once_gave(stream_id, #[trigger] reads[k]) by {
        let reads = choose|reads: Seq<RecvOutcome>| #[trigger] chunks_then_end(reads, r@)
            && (forall|k: int| 0 <= k < reads.len() ==> read_once_gave(stream_id, #[trigger] reads[k]))
            && read_end_recorded(reads.last(), stream_id, (*s).responses(), mut_ref_future(s).responses());
    }
}

} // verus!
