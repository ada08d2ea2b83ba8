//! Writing messages to a send stream: a message stream first sends its
//! stream header, then message frames, one at a time.
use vstd::prelude::*;
use crate::interface::{ErrorFatality, append_bytes, is_written_suffix, writable_by, send_can_give, send_blocked, lemma_writable_by_none};
use crate::headers::{be16, be16_bytes, HeaderStreamId, InitializeHeaderStreamError, HeaderSend, send_pending, sent_on_handle, send_failed_on};
use crate::deserialize::message_frame;
use crate::streams::{BevyStreamId, MismatchedType, MismatchedStreamType};
use crate::connections::{BevyConnectionMut, BevySendStream, ConnectionMut, Described, StreamDescription};

verus! {

/// The message id assigned to a message type.
#[derive(Clone, Copy, Debug, PartialEq, Eq)]
pub struct MessageId {
    pub message_id: u16,
}

/// Why a message could not be sent.
pub enum MessageStreamSendError<E> {
    /// the stream was closed
    StreamClosed,
    /// the stream does not belong to the connection's transport
    MismatchedConnection(MismatchedType),
    /// the stream failed for good
    FatalSendErr(E),
}

/// A message stream: its header stream and the bytes of the message being
/// written.
pub struct MessageStreamState {
    stream_id: HeaderStreamId,
    buffer: Vec<u8>,
}

/// The frame of a message, with the message's length written modulo 65536.
pub fn encode_message(message_id: MessageId, message: &[u8]) -> (r: Vec<u8>)
    ensures
        r@ == message_frame(message_id.message_id, message@),
{
    let mut r = be16_bytes(message_id.message_id);
    let length = be16_bytes((message.len() % 65536) as u16);
    append_bytes(&mut r, length.as_slice());
    append_bytes(&mut r, message);
    r
}

impl MessageStreamState {
    /// The bytes not yet written.
    pub closed spec fn queued(&self) -> Seq<u8> {
        self.buffer@
    }

    /// The header bytes not yet written.
    pub closed spec fn pending_header(&self) -> Seq<u8> {
        self.stream_id.pending_header()
    }

    pub closed spec fn spec_stream_id(&self) -> BevyStreamId {
        self.stream_id.spec_stream_id()
    }

    /// Opens a stream on `connection` as `description` says, for sending
    /// messages after the stream header `header`. Fails when the
    /// description is not for the connection's transport; gives `None` when
    /// no stream was opened.
    pub fn new<C: ConnectionMut>(connection: &mut BevyConnectionMut<C>, description: StreamDescription, header: u16) -> (r: Result<Option<Self>, MismatchedType>)
        ensures
            (C::OpenDescription::spec_from_value(description.value) is None) ==> r == Err::<Option<Self>, MismatchedType>(
                MismatchedType { expected: C::OpenDescription::spec_value_name() }),
            (C::OpenDescription::spec_from_value(description.value) is Some) ==> r is Ok,
            final(connection).spec_kind() == old(connection).spec_kind(),
            r matches Ok(Some(s)) ==> s.spec_stream_id().kind == old(connection).spec_kind()
                && s.pending_header() == be16(header) && s.queued() == Seq::<u8>::empty(),
            exists|m: &mut BevyConnectionMut<C>, opened: Result<Option<BevyStreamId>, MismatchedStreamType>|
                mut_ref_current(m) == *old(connection) && mut_ref_future(m) == *final(connection)
                    && #[trigger] call_ensures(BevyConnectionMut::<C>::open_stream, (m, description), opened)
                    && match opened {
                        Err(e) => r == Err::<Option<Self>, MismatchedType>(MismatchedType { expected: e.expected }),
                        Ok(None) => r == Ok::<Option<Self>, MismatchedType>(None),
                        Ok(Some(id)) => (r matches Ok(Some(s)) && s.spec_stream_id() == id && s.pending_header() == be16(header)
                            && s.queued() == Seq::<u8>::empty()),
                    },
    {
        match HeaderStreamId::new(connection, description, header) {
            Err(e) => Err(e),
            Ok(None) => Ok(None),
            Ok(Some(stream_id)) => Ok(Some(MessageStreamState { stream_id, buffer: Vec::new() })),
        }
    }

    /// The stream id.
    pub fn stream_id(&self) -> (r: BevyStreamId)
        ensures
            r == self.spec_stream_id(),
    {
        self.stream_id.stream_id()
    }

    /// Writes as much as the stream takes: first what is left of the header,
    /// then the queued message bytes. Returns `true` when everything is
    /// written and another message will be accepted. A write of zero bytes
    /// counts as a blocked stream.
    pub fn flush<'a, C: ConnectionMut>(&mut self, connection: &'a mut BevyConnectionMut<C>) -> (r: Result<bool, MessageStreamSendError<C::SendError>>)
        ensures
            final(self).spec_stream_id() == old(self).spec_stream_id(),
            is_written_suffix(old(self).pending_header(), final(self).pending_header()),
            is_written_suffix(old(self).queued(), final(self).queued()),
            final(self).pending_header().len() > 0 ==> final(self).queued() == old(self).queued(),
            (old(self).spec_stream_id().kind != old(connection).spec_kind()) <==> (r matches Err(MessageStreamSendError::MismatchedConnection(_))),
            r matches Err(MessageStreamSendError::MismatchedConnection(e)) ==> e == (MismatchedType { expected: old(connection).spec_kind().spec_id_name() }),
            r matches Ok(true) ==> final(self).pending_header().len() == 0 && final(self).queued().len() == 0,
            r matches Ok(false) ==> final(self).pending_header().len() > 0 || final(self).queued().len() > 0,
            r matches Err(MessageStreamSendError::FatalSendErr(e)) ==> e.fatal(),
            final(connection).spec_kind() == old(connection).spec_kind(),
            writable_by::<BevySendStream<C::SendMut<'a>>>(old(self).pending_header(), final(self).pending_header()),
            writable_by::<BevySendStream<C::SendMut<'a>>>(old(self).queued(), final(self).queued()),
            r matches Ok(false) ==> (final(self).pending_header().len() > 0 && exists|outcome: Result<usize, C::SendError>|
                #[trigger] send_can_give::<BevySendStream<C::SendMut<'a>>>(final(self).pending_header(), outcome) && send_blocked(outcome))
                || (final(self).queued().len() > 0 && exists|outcome: Result<usize, C::SendError>|
                #[trigger] send_can_give::<BevySendStream<C::SendMut<'a>>>(final(self).queued(), outcome) && send_blocked(outcome)),
            r matches Err(MessageStreamSendError::FatalSendErr(e)) ==>
                send_can_give::<BevySendStream<C::SendMut<'a>>>(final(self).pending_header(), Err(e)) || send_can_give::<BevySendStream<C::SendMut<'a>>>(final(self).queued(), Err(e)),
            r matches Err(MessageStreamSendError::StreamClosed) ==> exists|m: &mut BevyConnectionMut<C>|
                #[trigger] call_ensures(
                    BevyConnectionMut::<C>::send_stream,
                    (m, old(self).spec_stream_id()),
                    Ok::<Option<BevySendStream<C::SendMut<'a>>>, MismatchedStreamType>(None),
                ),
            exists|m: &mut BevyConnectionMut<C>, got: Result<Option<BevySendStream<C::SendMut<'a>>>, MismatchedStreamType>|
                mut_ref_current(m) == *old(connection) && #[trigger] call_ensures(
                    BevyConnectionMut::<C>::send_stream, (m, old(self).spec_stream_id()), got)
                && (got == Ok::<Option<BevySendStream<C::SendMut<'a>>>, MismatchedStreamType>(None) ==> r matches Err(MessageStreamSendError::StreamClosed)),
            r matches Ok(false) && final(self).pending_header().len() > 0 ==> exists|m: &mut BevyConnectionMut<C>, h0: BevySendStream<C::SendMut<'a>>|
                mut_ref_current(m) == *old(connection) && #[trigger] call_ensures(
                    BevyConnectionMut::<C>::send_stream, (m, old(self).spec_stream_id()), Ok::<Option<BevySendStream<C::SendMut<'a>>>, MismatchedStreamType>(Some(h0)))
                && sent_on_handle(h0, old(self).pending_header(), final(self).pending_header(), HeaderSend::<C::SendError>::Blocked),
            r matches Err(MessageStreamSendError::FatalSendErr(e)) ==> final(self).pending_header().len() > 0 ==> exists|m: &mut BevyConnectionMut<C>, h0: BevySendStream<C::SendMut<'a>>|
                mut_ref_current(m) == *old(connection) && #[trigger] call_ensures(
                    BevyConnectionMut::<C>::send_stream, (m, old(self).spec_stream_id()), Ok::<Option<BevySendStream<C::SendMut<'a>>>, MismatchedStreamType>(Some(h0)))
                && send_failed_on(h0, old(self).pending_header(), e),
            (r is Ok || r matches Err(MessageStreamSendError::FatalSendErr(_))) && final(self).pending_header().len() == 0 ==> exists|m: &mut BevyConnectionMut<C>, h0: BevySendStream<C::SendMut<'a>>|
                mut_ref_current(m) == *old(connection) && #[trigger] call_ensures(
                    BevyConnectionMut::<C>::send_stream, (m, old(self).spec_stream_id()), Ok::<Option<BevySendStream<C::SendMut<'a>>>, MismatchedStreamType>(Some(h0)))
                && sent_on_handle(h0, old(self).pending_header(), Seq::<u8>::empty(), HeaderSend::<C::SendError>::Ready),
            r matches Ok(true) ==> exists|m: &mut BevyConnectionMut<C>, h0: BevySendStream<C::SendMut<'a>>|
                #[trigger] call_ensures(
                    BevyConnectionMut::<C>::send_stream, (m, old(self).spec_stream_id()), Ok::<Option<BevySendStream<C::SendMut<'a>>>, MismatchedStreamType>(Some(h0)))
                && sent_on_handle(h0, old(self).queued(), final(self).queued(), HeaderSend::<C::SendError>::Ready),
            r matches Ok(false) && final(self).pending_header().len() == 0 ==> exists|m: &mut BevyConnectionMut<C>, h0: BevySendStream<C::SendMut<'a>>|
                #[trigger] call_ensures(
                    BevyConnectionMut::<C>::send_stream, (m, old(self).spec_stream_id()), Ok::<Option<BevySendStream<C::SendMut<'a>>>, MismatchedStreamType>(Some(h0)))
                && sent_on_handle(h0, old(self).queued(), final(self).queued(), HeaderSend::<C::SendError>::Blocked),
            r matches Err(MessageStreamSendError::FatalSendErr(e)) ==> final(self).pending_header().len() == 0 ==> exists|m: &mut BevyConnectionMut<C>, h0: BevySendStream<C::SendMut<'a>>|
                #[trigger] call_ensures(
                    BevyConnectionMut::<C>::send_stream, (m, old(self).spec_stream_id()), Ok::<Option<BevySendStream<C::SendMut<'a>>>, MismatchedStreamType>(Some(h0)))
                && send_failed_on(h0, old(self).queued(), e),
    {
        let ghost initial = self.buffer@;
        proof {
            lemma_writable_by_none::<BevySendStream<C::SendMut<'a>>>(initial);
            lemma_writable_by_none::<BevySendStream<C::SendMut<'a>>>(self.pending_header());
        }
        assert(initial.subrange(0, initial.len() as int) =~= initial);
        let stream_id = match self.stream_id.poll_ready(connection) {
            Err(InitializeHeaderStreamError::StreamClosedPrematurly) => {
                return Err(MessageStreamSendError::StreamClosed);
            },
            Err(InitializeHeaderStreamError::MismatchedConnection(e)) => {
                return Err(MessageStreamSendError::MismatchedConnection(e));
            },
            Err(InitializeHeaderStreamError::FatalSendErr(e)) => {
                return Err(MessageStreamSendError::FatalSendErr(e));
            },
            Ok(None) => {
                return Ok(false);
            },
            Ok(Some(stream_id)) => stream_id,
        };
        assert(self.pending_header() =~= Seq::<u8>::empty());
        assert(exists|m: &mut BevyConnectionMut<C>, h0: BevySendStream<C::SendMut<'a>>|
            mut_ref_current(m) == *old(connection) && #[trigger] call_ensures(
                BevyConnectionMut::<C>::send_stream, (m, old(self).spec_stream_id()), Ok::<Option<BevySendStream<C::SendMut<'a>>>, MismatchedStreamType>(Some(h0)))
            && sent_on_handle(h0, old(self).pending_header(), Seq::<u8>::empty(), HeaderSend::<C::SendError>::Ready));
        let mut stream = match connection.send_stream(stream_id) {
            Err(e) => {
                return Err(MessageStreamSendError::MismatchedConnection(MismatchedType { expected: e.expected }));
            },
            Ok(None) => {
                return Err(MessageStreamSendError::StreamClosed);
            },
            Ok(Some(stream)) => stream,
        };
        let ghost h0 = stream;
        match send_pending(&mut stream, &mut self.buffer) {
            HeaderSend::Ready => Ok(true),
            HeaderSend::Blocked => Ok(false),
            HeaderSend::Fatal(e) => {
                proof {
                    let rest = self.buffer@;
                    assert(sent_on_handle(h0, initial, rest, HeaderSend::<C::SendError>::Fatal(e)));
                }
                Err(MessageStreamSendError::FatalSendErr(e))
            },
        }
    }

    /// Whether a new message will be accepted: nothing is queued.
    pub fn ready(&self) -> (r: bool)
        ensures
            r == (self.queued().len() == 0),
    {
        self.buffer.len() == 0
    }

    /// Offers a message (its serialized bytes) to the stream. When bytes of
    /// an earlier message are still queued they are flushed first, and the
    /// message is refused (`Ok(false)`) if they cannot all be written. An
    /// accepted message's frame is queued and flushed (`Ok(true)`); it may
    /// not be written completely yet.
    pub fn send<'a, C: ConnectionMut>(&mut self, connection: &'a mut BevyConnectionMut<C>, message_id: MessageId, message: &[u8]) -> (r: Result<bool, MessageStreamSendError<C::SendError>>)
        ensures
            final(self).spec_stream_id() == old(self).spec_stream_id(),
            (old(self).spec_stream_id().kind != old(connection).spec_kind()) <==> (r matches Err(MessageStreamSendError::MismatchedConnection(_))),
            r matches Ok(false) ==> old(self).queued().len() > 0,
            r matches Ok(true) ==> writable_by::<BevySendStream<C::SendMut<'a>>>(message_frame(message_id.message_id, message@), final(self).queued()),
            r matches Err(MessageStreamSendError::StreamClosed) ==> exists|m: &mut BevyConnectionMut<C>|
                #[trigger] call_ensures(
                    BevyConnectionMut::<C>::send_stream,
                    (m, old(self).spec_stream_id()),
                    Ok::<Option<BevySendStream<C::SendMut<'a>>>, MismatchedStreamType>(None),
                ),
            r matches Ok(true) ==> is_written_suffix(message_frame(message_id.message_id, message@), final(self).queued()),
            r matches Ok(true) ==> (final(self).pending_header().len() > 0 ==> final(self).queued() == message_frame(message_id.message_id, message@)),
            r matches Ok(true) ==> (final(self).pending_header().len() == 0 ==> exists|m: &mut BevyConnectionMut<C>, h0: BevySendStream<C::SendMut<'a>>|
                #[trigger] call_ensures(
                    BevyConnectionMut::<C>::send_stream, (m, old(self).spec_stream_id()), Ok::<Option<BevySendStream<C::SendMut<'a>>>, MismatchedStreamType>(Some(h0)))
                && (sent_on_handle(h0, message_frame(message_id.message_id, message@), final(self).queued(), HeaderSend::<C::SendError>::Ready)
                    || sent_on_handle(h0, message_frame(message_id.message_id, message@), final(self).queued(), HeaderSend::<C::SendError>::Blocked))),
            r matches Ok(false) ==> is_written_suffix(old(self).queued(), final(self).queued())
                && (final(self).pending_header().len() > 0 || final(self).queued().len() > 0),
            r matches Err(MessageStreamSendError::FatalSendErr(e)) ==> e.fatal(),
            final(connection).spec_kind() == old(connection).spec_kind(),
    {
        if !self.ready() {
            match self.flush(connection) {
                Err(e) => {
                    return Err(e);
                },
                Ok(false) => {
                    return Ok(false);
                },
                Ok(true) => {},
            }
        }
        let frame = encode_message(message_id, message);
        append_bytes(&mut self.buffer, frame.as_slice());
        assert(self.buffer@ =~= frame@);
        match self.flush(connection) {
            Err(e) => Err(e),
            Ok(_) => Ok(true),
        }
    }

    /// Stops sending messages (and the header, if it is not sent yet) and
    /// returns the stream id.
    pub fn end(self) -> (r: BevyStreamId)
        ensures
            r == self.spec_stream_id(),
    {
        self.stream_id.end()
    }
}

} // verus!
