//! Stream headers: every stream opened through the header layer starts with
//! a two-byte big-endian header that tells the peer what the stream is for.
use vstd::prelude::*;
use crate::interface::{SendStreamMut, RecvStreamMut, ErrorFatality, StreamEventType, drain_front, append_bytes, is_written_suffix, read_blocked, writable_by, sends_can_take, send_can_give, send_blocked, total, lemma_writable_by_none, lemma_writable_by_suffix, lemma_sends_can_take_push, chained, lemma_chained_push, send_trace, sends_offered, wrote_total, wrote, lemma_sends_push, recv_can_give, reads_can_give, flat, lemma_reads_can_give_push, recv_trace, lemma_recv_trace_push, read_bytes, delivered};
use crate::streams::{BevyStreamId, BevyStreamEvent, MismatchedType, MismatchedStreamType};
use crate::connections::{bevy_poll_step, BevyConnectionMut, BevyRecvStream, BevySendStream, ConnectionMut, Described, StreamDescription};

verus! {

/// The big-endian bytes of a 16-bit value.
pub open spec fn be16(v: u16) -> Seq<u8> {
    seq![(v / 256) as u8, (v % 256) as u8]
}

/// The 16-bit value of two big-endian bytes.
pub open spec fn be16_value(hi: u8, lo: u8) -> u16 {
    (hi as int * 256 + lo as int) as u16
}

/// A header read back from its two big-endian bytes is the header that was
/// sent.
pub proof fn law_header_roundtrip(v: u16)
    ensures
        be16_value(be16(v)[0], be16(v)[1]) == v,
{
}

pub proof fn lemma_be16_value_roundtrip(hi: u8, lo: u8)
    ensures
        be16(be16_value(hi, lo)) == seq![hi, lo],
{
    let v = be16_value(hi, lo);
    assert(v as int == hi as int * 256 + lo as int);
    assert(v / 256 == hi) by (nonlinear_arith)
        requires
            v as int == hi as int * 256 + lo as int,
            lo < 256,
    ;
    assert(v % 256 == lo) by (nonlinear_arith)
        requires
            v as int == hi as int * 256 + lo as int,
            lo < 256,
    ;
    assert(be16(v) =~= seq![hi, lo]);
}

/// The big-endian bytes of `v`.
pub fn be16_bytes(v: u16) -> (r: Vec<u8>)
    ensures
        r@ == be16(v),
{
    let mut r = Vec::new();
    r.push((v / 256) as u8);
    r.push((v % 256) as u8);
    assert(r@ =~= be16(v));
    r
}

/// The value of two big-endian bytes.
pub fn be16_from_bytes(hi: u8, lo: u8) -> (r: u16)
    ensures
        r == be16_value(hi, lo),
{
    (hi as u16) * 256 + (lo as u16)
}

/// The id that tells the peer what a stream is for.
pub struct HeaderId {
    header: u16,
}

impl HeaderId {
    pub closed spec fn value(&self) -> u16 {
        self.header
    }

    /// The header id `header`.
    pub fn new(header: u16) -> (r: Self)
        ensures
            r.value() == header,
    {
        HeaderId { header }
    }

    /// The header value.
    pub fn get(&self) -> (r: u16)
        ensures
            r == self.value(),
    {
        self.header
    }
}

/// What sending pending bytes did.
pub enum HeaderSend<E> {
    /// the bytes are all sent
    Ready,
    /// the stream takes no more bytes for now
    Blocked,
    /// the stream failed for good
    Fatal(E),
}

/// What the run of sends `t` did to the pending bytes `initial`, leaving
/// `rest`, with the outcome `r`: each send was offered what was left, each
/// but the last wrote a nonempty prefix of it, and `rest` is what none
/// wrote. All is sent when nothing is left (and the last send, if any,
/// wrote bytes); the stream is blocked when its last send wrote nothing or
/// failed not for good; a send that failed for good ends the run.
pub open spec fn pending_sent<S: SendStreamMut>(
    initial: Seq<u8>,
    rest: Seq<u8>,
    t: Seq<(S, S, Seq<u8>, Result<usize, S::SendError>)>,
    r: HeaderSend<S::SendError>,
) -> bool {
    &&& send_trace(t)
    &&& sends_offered(initial, t)
    &&& rest == initial.subrange(wrote_total(t), initial.len() as int)
    &&& match r {
        HeaderSend::Ready => rest.len() == 0 && (t.len() > 0 ==> (t.last().3 matches Ok(n) && n > 0)),
        HeaderSend::Blocked => t.len() > 0 && rest.len() > 0 && send_blocked(t.last().3),
        HeaderSend::Fatal(e) => t.len() > 0 && rest.len() > 0 && t.last().3 == Err::<usize, S::SendError>(e) && e.fatal(),
    }
}

/// The bytes the sends of `t` wrote, in order: of each send, the part of
/// what it was offered that it reported written.
pub open spec fn bytes_written<T, E>(t: Seq<(T, T, Seq<u8>, Result<usize, E>)>) -> Seq<u8>
    decreases t.len(),
{
    if t.len() == 0 {
        Seq::empty()
    } else {
        bytes_written(t.drop_last()) + t.last().2.take(wrote(t.last().3))
    }
}

proof fn lemma_wrote_total_grows<T, E>(t: Seq<(T, T, Seq<u8>, Result<usize, E>)>, i: int)
    requires
        0 <= i <= t.len(),
    ensures
        0 <= wrote_total(t.take(i)) <= wrote_total(t),
    decreases t.len(),
{
    if t.len() > 0 {
        if i == t.len() {
            assert(t.take(i) =~= t);
            lemma_wrote_total_grows(t.drop_last(), i - 1);
            assert(t.drop_last().take(i - 1) =~= t.drop_last());
        } else {
            lemma_wrote_total_grows(t.drop_last(), i);
            assert(t.drop_last().take(i) =~= t.take(i));
        }
    }
}

/// Sends that were each offered what was left of `initial` wrote, in
/// order, the first bytes of `initial`, as many as they report.
pub proof fn lemma_bytes_written<T, E>(initial: Seq<u8>, t: Seq<(T, T, Seq<u8>, Result<usize, E>)>)
    requires
        sends_offered(initial, t),
    ensures
        bytes_written(t) == initial.take(wrote_total(t)),
    decreases t.len(),
{
    if t.len() == 0 {
        assert(initial.take(0) =~= Seq::<u8>::empty());
    } else {
        let t1 = t.drop_last();
        lemma_wrote_total_grows(t, t.len() - 1);
        assert(t.take(t.len() - 1) =~= t1);
        lemma_wrote_total_grows(t1, 0);
        assert(t1.take(0) =~= Seq::<(T, T, Seq<u8>, Result<usize, E>)>::empty());
        assert forall|i: int| 0 <= i < t1.len() implies #[trigger] t1[i].2 == initial.subrange(wrote_total(t1.take(i)), initial.len() as int) by {
            assert(t1[i] == t[i]);
            assert(t1.take(i) =~= t.take(i));
            assert(t[i].2 == initial.subrange(wrote_total(t.take(i)), initial.len() as int));
        }
        assert forall|i: int| 0 <= i < t1.len() - 1 implies (#[trigger] t1[i].3 matches Ok(n) && n > 0) by {
            assert(t1[i] == t[i]);
            assert(t[i].3 matches Ok(n) && n > 0);
        }
        lemma_bytes_written(initial, t1);
        let a = wrote_total(t1);
        let n = wrote(t.last().3);
        assert(t.last() == t[t.len() - 1]);
        assert(t.last().2 == initial.subrange(a, initial.len() as int));
        assert(0 <= a && a + n <= initial.len());
        assert(initial.subrange(a, initial.len() as int).take(n) =~= initial.subrange(a, a + n));
        assert(initial.take(a) + initial.subrange(a, a + n) =~= initial.take(a + n));
    }
}

/// A header sent in two polls, the second offered what the first left, is
/// written exactly once and in order: the bytes the two runs of sends
/// wrote, followed by what is still left, are the header; once the second
/// run has sent all, the bytes written are the header.
pub proof fn law_header_sent_once<S: SendStreamMut>(
    h: Seq<u8>,
    rest: Seq<u8>,
    t1: Seq<(S, S, Seq<u8>, Result<usize, S::SendError>)>,
    r1: HeaderSend<S::SendError>,
    rest2: Seq<u8>,
    t2: Seq<(S, S, Seq<u8>, Result<usize, S::SendError>)>,
    r2: HeaderSend<S::SendError>,
)
    requires
        pending_sent(h, rest, t1, r1),
        pending_sent(rest, rest2, t2, r2),
    ensures
        bytes_written(t1) + rest == h,
        bytes_written(t1) + bytes_written(t2) + rest2 == h,
        r2 is Ready ==> bytes_written(t1) + bytes_written(t2) == h,
{
    lemma_bytes_written(h, t1);
    lemma_bytes_written(rest, t2);
    let a = wrote_total(t1);
    let b = wrote_total(t2);
    assert(h.take(a) + h.subrange(a, h.len() as int) =~= h);
    assert(rest.take(b) + rest.subrange(b, rest.len() as int) =~= rest);
    assert(h.take(a) + rest.take(b) + rest2 =~= h);
}

/// Sends made on the stream handle `h0`, one after the other, did
/// `pending_sent(initial, rest, t, r)`.
pub open spec fn sent_on_handle<H: SendStreamMut>(h0: H, initial: Seq<u8>, rest: Seq<u8>, r: HeaderSend<H::SendError>) -> bool {
    exists|h1: H, t: Seq<(H, H, Seq<u8>, Result<usize, H::SendError>)>|
        #[trigger] chained(t, h0, h1) && pending_sent(initial, rest, t, r)
}

/// Sends made on the stream handle `h0`, one after the other, were offered
/// what was left of `initial` and the last of them failed for good with `e`.
pub open spec fn send_failed_on<H: SendStreamMut>(h0: H, initial: Seq<u8>, e: H::SendError) -> bool {
    exists|rest: Seq<u8>| #[trigger] sent_on_handle(h0, initial, rest, HeaderSend::<H::SendError>::Fatal(e))
}

/// Sends as much of the pending bytes as the stream takes, removing what
/// was sent. Stops when no byte is left, at a write of zero bytes, or at an
/// error. The bytes removed are those the stream's sends wrote, in order;
/// a blocked or failed send was offered what is left.
pub(crate) fn send_pending<S: SendStreamMut>(stream: &mut S, header: &mut Vec<u8>) -> (r: HeaderSend<S::SendError>)
    ensures
        is_written_suffix(old(header)@, final(header)@),
        writable_by::<S>(old(header)@, final(header)@),
        (r is Ready) == (final(header)@.len() == 0),
        r is Blocked ==> exists|outcome: Result<usize, S::SendError>|
            #[trigger] send_can_give::<S>(final(header)@, outcome) && send_blocked(outcome),
        r matches HeaderSend::Fatal(e) ==> e.fatal() && send_can_give::<S>(final(header)@, Err(e)),
        exists|t: Seq<(S, S, Seq<u8>, Result<usize, S::SendError>)>|
            #[trigger] chained(t, *old(stream), *final(stream)) && pending_sent(old(header)@, final(header)@, t, r),
{
    let ghost initial = header@;
    let ghost mut counts: Seq<usize> = Seq::empty();
    let ghost mut t: Seq<(S, S, Seq<u8>, Result<usize, S::SendError>)> = Seq::empty();
    proof {
        lemma_writable_by_none::<S>(initial);
        assert(initial.subrange(0, 0) =~= Seq::<u8>::empty());
        assert(initial.subrange(0, initial.len() as int) =~= initial);
    }
    loop
        invariant
            initial == old(header)@,
            sends_can_take::<S>(initial, counts),
            0 <= total(counts) <= initial.len(),
            header@ == initial.subrange(total(counts), initial.len() as int),
            chained(t, *old(stream), *stream),
            send_trace(t),
            sends_offered(initial, t),
            t.len() > 0 ==> (t.last().3 matches Ok(n) && n > 0),
            wrote_total(t) == total(counts),
        decreases header@.len(),
    {
        if header.len() == 0 {
            proof {
                lemma_writable_by_suffix::<S>(initial, header@);
                assert(pending_sent(initial, header@, t, HeaderSend::<S::SendError>::Ready));
            }
            return HeaderSend::Ready;
        }
        let offered = header.as_slice();
        let ghost before = *stream;
        let outcome = stream.send(offered);
        let ghost step = (before, *stream, header@, outcome);
        proof {
            assert(send_can_give::<S>(header@, outcome));
            lemma_writable_by_suffix::<S>(initial, header@);
            lemma_chained_push(t, *old(stream), step);
            lemma_sends_push::<S>(initial, t, step);
            t = t.push(step);
        }
        match outcome {
            Err(e) => {
                if e.is_fatal() {
                    assert(pending_sent(initial, header@, t, HeaderSend::<S::SendError>::Fatal(e)));
                    return HeaderSend::Fatal(e);
                }
                assert(pending_sent(initial, header@, t, HeaderSend::<S::SendError>::Blocked));
                return HeaderSend::Blocked;
            },
            Ok(n) => {
                if n == 0 {
                    assert(pending_sent(initial, header@, t, HeaderSend::<S::SendError>::Blocked));
                    return HeaderSend::Blocked;
                }
                proof {
                    lemma_sends_can_take_push::<S>(initial, counts, n);
                    counts = counts.push(n);
                }
                drain_front(header, n);
                assert(header@ =~= initial.subrange(total(counts), initial.len() as int));
            },
        }
    }
}

/// A stream whose header has not been sent yet.
pub struct UninitializedStream {
    stream_id: BevyStreamId,
    header: Vec<u8>,
}

/// Why a header stream could not be made ready.
pub enum InitializeStreamError<E> {
    /// the stream was closed before its header was sent
    StreamClosedPrematurly,
    /// the stream does not belong to the connection's transport
    MismatchedConnection { stream: UninitializedStream, connection: MismatchedType },
    /// sending the header failed for good
    FatalSendErr(E),
}

impl UninitializedStream {
    pub closed spec fn spec_stream_id(&self) -> BevyStreamId {
        self.stream_id
    }

    /// The header bytes still to send.
    pub closed spec fn pending_header(&self) -> Seq<u8> {
        self.header@
    }

    /// Opens a stream on `connection` as `description` says, with the
    /// header `header` still to send. Fails when the description is not for
    /// the connection's transport; gives `None` when no stream was opened.
    pub fn new<C: ConnectionMut>(connection: &mut BevyConnectionMut<C>, description: StreamDescription, header: u16) -> (r: Result<Option<Self>, MismatchedType>)
        ensures
            (C::OpenDescription::spec_from_value(description.value) is None) ==> r == Err::<Option<Self>, MismatchedType>(
                MismatchedType { expected: C::OpenDescription::spec_value_name() }),
            (C::OpenDescription::spec_from_value(description.value) is Some) ==> r is Ok,
            r matches Ok(Some(s)) ==> s.spec_stream_id().kind == old(connection).spec_kind() && s.pending_header() == be16(header),
            final(connection).spec_kind() == old(connection).spec_kind(),
            exists|m: &mut BevyConnectionMut<C>, opened: Result<Option<BevyStreamId>, MismatchedStreamType>|
                mut_ref_current(m) == *old(connection) && mut_ref_future(m) == *final(connection)
                    && #[trigger] call_ensures(BevyConnectionMut::<C>::open_stream, (m, description), opened)
                    && match opened {
                        Err(e) => r == Err::<Option<Self>, MismatchedType>(MismatchedType { expected: e.expected }),
                        Ok(None) => r == Ok::<Option<Self>, MismatchedType>(None),
                        Ok(Some(id)) => (r matches Ok(Some(s)) && s.spec_stream_id() == id && s.pending_header() == be16(header)),
                    },
    {
        match connection.open_stream(description) {
            Err(e) => Err(MismatchedType { expected: e.expected }),
            Ok(None) => Ok(None),
            Ok(Some(stream_id)) => Ok(Some(UninitializedStream { stream_id, header: be16_bytes(header) })),
        }
    }

    /// The stream id.
    pub fn stream_id(&self) -> (r: BevyStreamId)
        ensures
            r == self.spec_stream_id(),
    {
        self.stream_id
    }

    /// Sends the pending header on the stream of `connection`. Returns the
    /// stream id once the whole header is sent, or the stream with what is
    /// left to send when the stream is blocked. Fails, handing the stream
    /// back, when the stream is not of the connection's transport; fails
    /// when the connection no longer has the stream, or on a fatal error.
    pub fn poll_ready<'a, C: ConnectionMut>(self, connection: &'a mut BevyConnectionMut<C>) -> (r: Result<Result<BevyStreamId, Self>, InitializeStreamError<C::SendError>>)
        ensures
            self.spec_stream_id().kind != old(connection).spec_kind() ==> (r matches Err(InitializeStreamError::MismatchedConnection { stream, connection: e })
                && stream == self && e == (MismatchedType { expected: old(connection).spec_kind().spec_id_name() })),
            r matches Err(InitializeStreamError::MismatchedConnection { stream, connection: e }) ==> self.spec_stream_id().kind != old(connection).spec_kind(),
            r matches Ok(Ok(id)) ==> id == self.spec_stream_id() && writable_by::<BevySendStream<C::SendMut<'a>>>(self.pending_header(), Seq::empty()),
            r matches Ok(Err(s)) ==> s.spec_stream_id() == self.spec_stream_id()
                && s.pending_header().len() > 0 && is_written_suffix(self.pending_header(), s.pending_header())
                && writable_by::<BevySendStream<C::SendMut<'a>>>(self.pending_header(), s.pending_header())
                && exists|outcome: Result<usize, C::SendError>|
                    #[trigger] send_can_give::<BevySendStream<C::SendMut<'a>>>(s.pending_header(), outcome) && send_blocked(outcome),
            r matches Err(InitializeStreamError::FatalSendErr(e)) ==> e.fatal() && exists|rest: Seq<u8>|
                #[trigger] writable_by::<BevySendStream<C::SendMut<'a>>>(self.pending_header(), rest) && send_can_give::<BevySendStream<C::SendMut<'a>>>(rest, Err(e)),
            exists|m: &mut BevyConnectionMut<C>, got: Result<Option<BevySendStream<C::SendMut<'a>>>, MismatchedStreamType>|
                mut_ref_current(m) == *old(connection) && #[trigger] call_ensures(
                    BevyConnectionMut::<C>::send_stream,
                    (m, self.spec_stream_id()),
                    got,
                ) && (got == Ok::<Option<BevySendStream<C::SendMut<'a>>>, MismatchedStreamType>(None)) == (r matches Err(InitializeStreamError::StreamClosedPrematurly)),
            r matches Err(InitializeStreamError::StreamClosedPrematurly) ==> exists|m: &mut BevyConnectionMut<C>|
                mut_ref_current(m) == *old(connection) && #[trigger] call_ensures(
                    BevyConnectionMut::<C>::send_stream,
                    (m, self.spec_stream_id()),
                    Ok::<Option<BevySendStream<C::SendMut<'a>>>, MismatchedStreamType>(None),
                ),
            r matches Ok(Ok(_)) ==> exists|m: &mut BevyConnectionMut<C>, h0: BevySendStream<C::SendMut<'a>>|
                mut_ref_current(m) == *old(connection) && #[trigger] call_ensures(
                    BevyConnectionMut::<C>::send_stream, (m, self.spec_stream_id()), Ok::<Option<BevySendStream<C::SendMut<'a>>>, MismatchedStreamType>(Some(h0)))
                && sent_on_handle(h0, self.pending_header(), Seq::<u8>::empty(), HeaderSend::<C::SendError>::Ready),
            r matches Ok(Err(s)) ==> exists|m: &mut BevyConnectionMut<C>, h0: BevySendStream<C::SendMut<'a>>|
                mut_ref_current(m) == *old(connection) && #[trigger] call_ensures(
                    BevyConnectionMut::<C>::send_stream, (m, self.spec_stream_id()), Ok::<Option<BevySendStream<C::SendMut<'a>>>, MismatchedStreamType>(Some(h0)))
                && sent_on_handle(h0, self.pending_header(), s.pending_header(), HeaderSend::<C::SendError>::Blocked),
            r matches Err(InitializeStreamError::FatalSendErr(e)) ==> exists|m: &mut BevyConnectionMut<C>, h0: BevySendStream<C::SendMut<'a>>|
                mut_ref_current(m) == *old(connection) && #[trigger] call_ensures(
                    BevyConnectionMut::<C>::send_stream, (m, self.spec_stream_id()), Ok::<Option<BevySendStream<C::SendMut<'a>>>, MismatchedStreamType>(Some(h0)))
                && send_failed_on(h0, self.pending_header(), e),
            final(connection).spec_kind() == old(connection).spec_kind(),
    {
        let mut this = self;
        let mut stream = match connection.send_stream(this.stream_id) {
            Err(e) => {
                return Err(InitializeStreamError::MismatchedConnection { stream: this, connection: MismatchedType { expected: e.expected } });
            },
            Ok(None) => {
                return Err(InitializeStreamError::StreamClosedPrematurly);
            },
            Ok(Some(stream)) => stream,
        };
        let ghost h0 = stream;
        match send_pending(&mut stream, &mut this.header) {
            HeaderSend::Ready => {
                assert(this.header@ =~= Seq::<u8>::empty());
                Ok(Ok(this.stream_id))
            },
            HeaderSend::Blocked => Ok(Err(this)),
            HeaderSend::Fatal(e) => {
                assert(writable_by::<BevySendStream<C::SendMut<'a>>>(self.pending_header(), this.header@));
                assert(sent_on_handle(h0, self.pending_header(), this.header@, HeaderSend::<C::SendError>::Fatal(e)));
                assert(send_failed_on(h0, self.pending_header(), e));
                Err(InitializeStreamError::FatalSendErr(e))
            },
        }
    }
}

/// A stream that sends its header before any other data; it can be polled
/// until the header is sent.
pub struct HeaderStreamId {
    stream_id: BevyStreamId,
    header: Vec<u8>,
}

/// Why a header stream could not be made ready.
pub enum InitializeHeaderStreamError<E> {
    StreamClosedPrematurly,
    MismatchedConnection(MismatchedType),
    FatalSendErr(E),
}

impl HeaderStreamId {
    pub closed spec fn spec_stream_id(&self) -> BevyStreamId {
        self.stream_id
    }

    /// The header bytes still to send.
    pub closed spec fn pending_header(&self) -> Seq<u8> {
        self.header@
    }

    /// Opens a stream on `connection` as `description` says, with the
    /// header `header` still to send. Fails when the description is not for
    /// the connection's transport; gives `None` when no stream was opened.
    pub fn new<C: ConnectionMut>(connection: &mut BevyConnectionMut<C>, description: StreamDescription, header: u16) -> (r: Result<Option<Self>, MismatchedType>)
        ensures
            (C::OpenDescription::spec_from_value(description.value) is None) ==> r == Err::<Option<Self>, MismatchedType>(
                MismatchedType { expected: C::OpenDescription::spec_value_name() }),
            (C::OpenDescription::spec_from_value(description.value) is Some) ==> r is Ok,
            r matches Ok(Some(s)) ==> s.spec_stream_id().kind == old(connection).spec_kind() && s.pending_header() == be16(header),
            final(connection).spec_kind() == old(connection).spec_kind(),
            exists|m: &mut BevyConnectionMut<C>, opened: Result<Option<BevyStreamId>, MismatchedStreamType>|
                mut_ref_current(m) == *old(connection) && mut_ref_future(m) == *final(connection)
                    && #[trigger] call_ensures(BevyConnectionMut::<C>::open_stream, (m, description), opened)
                    && match opened {
                        Err(e) => r == Err::<Option<Self>, MismatchedType>(MismatchedType { expected: e.expected }),
                        Ok(None) => r == Ok::<Option<Self>, MismatchedType>(None),
                        Ok(Some(id)) => (r matches Ok(Some(s)) && s.spec_stream_id() == id && s.pending_header() == be16(header)),
                    },
    {
        match connection.open_stream(description) {
            Err(e) => Err(MismatchedType { expected: e.expected }),
            Ok(None) => Ok(None),
            Ok(Some(stream_id)) => Ok(Some(HeaderStreamId { stream_id, header: be16_bytes(header) })),
        }
    }

    /// The stream id.
    pub fn stream_id(&self) -> (r: BevyStreamId)
        ensures
            r == self.spec_stream_id(),
    {
        self.stream_id
    }

    /// Sends what is left of the header on the stream of `connection`.
    /// Returns the stream id once the whole header is sent and `None` while
    /// the stream is blocked. Fails when the stream is not of the
    /// connection's transport, when the connection no longer has the
    /// stream, or on a fatal error.
    pub fn poll_ready<'a, C: ConnectionMut>(&mut self, connection: &'a mut BevyConnectionMut<C>) -> (r: Result<Option<BevyStreamId>, InitializeHeaderStreamError<C::SendError>>)
        ensures
            final(self).spec_stream_id() == old(self).spec_stream_id(),
            is_written_suffix(old(self).pending_header(), final(self).pending_header()),
            (old(self).spec_stream_id().kind != old(connection).spec_kind()) <==> (r matches Err(InitializeHeaderStreamError::MismatchedConnection(_))),
            r matches Err(InitializeHeaderStreamError::MismatchedConnection(e)) ==> e == (MismatchedType { expected: old(connection).spec_kind().spec_id_name() }),
            r matches Ok(Some(id)) ==> id == old(self).spec_stream_id() && final(self).pending_header().len() == 0,
            r matches Ok(None) ==> final(self).pending_header().len() > 0 && exists|outcome: Result<usize, C::SendError>|
                #[trigger] send_can_give::<BevySendStream<C::SendMut<'a>>>(final(self).pending_header(), outcome) && send_blocked(outcome),
            r is Ok ==> writable_by::<BevySendStream<C::SendMut<'a>>>(old(self).pending_header(), final(self).pending_header()),
            r matches Err(InitializeHeaderStreamError::FatalSendErr(e)) ==> e.fatal()
                && writable_by::<BevySendStream<C::SendMut<'a>>>(old(self).pending_header(), final(self).pending_header())
                && send_can_give::<BevySendStream<C::SendMut<'a>>>(final(self).pending_header(), Err(e)),
            r matches Err(InitializeHeaderStreamError::MismatchedConnection(_)) ==> final(self).pending_header() == old(self).pending_header(),
            exists|m: &mut BevyConnectionMut<C>, got: Result<Option<BevySendStream<C::SendMut<'a>>>, MismatchedStreamType>|
                mut_ref_current(m) == *old(connection) && #[trigger] call_ensures(
                    BevyConnectionMut::<C>::send_stream,
                    (m, old(self).spec_stream_id()),
                    got,
                ) && (got == Ok::<Option<BevySendStream<C::SendMut<'a>>>, MismatchedStreamType>(None)) == (r matches Err(InitializeHeaderStreamError::StreamClosedPrematurly)),
            r matches Err(InitializeHeaderStreamError::StreamClosedPrematurly) ==> final(self).pending_header() == old(self).pending_header()
                && exists|m: &mut BevyConnectionMut<C>|
                mut_ref_current(m) == *old(connection) && #[trigger] call_ensures(
                    BevyConnectionMut::<C>::send_stream,
                    (m, old(self).spec_stream_id()),
                    Ok::<Option<BevySendStream<C::SendMut<'a>>>, MismatchedStreamType>(None),
                ),
            r matches Ok(Some(_)) ==> exists|m: &mut BevyConnectionMut<C>, h0: BevySendStream<C::SendMut<'a>>|
                mut_ref_current(m) == *old(connection) && #[trigger] call_ensures(
                    BevyConnectionMut::<C>::send_stream, (m, old(self).spec_stream_id()), Ok::<Option<BevySendStream<C::SendMut<'a>>>, MismatchedStreamType>(Some(h0)))
                && sent_on_handle(h0, old(self).pending_header(), final(self).pending_header(), HeaderSend::<C::SendError>::Ready),
            r matches Ok(None) ==> exists|m: &mut BevyConnectionMut<C>, h0: BevySendStream<C::SendMut<'a>>|
                mut_ref_current(m) == *old(connection) && #[trigger] call_ensures(
                    BevyConnectionMut::<C>::send_stream, (m, old(self).spec_stream_id()), Ok::<Option<BevySendStream<C::SendMut<'a>>>, MismatchedStreamType>(Some(h0)))
                && sent_on_handle(h0, old(self).pending_header(), final(self).pending_header(), HeaderSend::<C::SendError>::Blocked),
            r matches Err(InitializeHeaderStreamError::FatalSendErr(e)) ==> exists|m: &mut BevyConnectionMut<C>, h0: BevySendStream<C::SendMut<'a>>|
                mut_ref_current(m) == *old(connection) && #[trigger] call_ensures(
                    BevyConnectionMut::<C>::send_stream, (m, old(self).spec_stream_id()), Ok::<Option<BevySendStream<C::SendMut<'a>>>, MismatchedStreamType>(Some(h0)))
                && sent_on_handle(h0, old(self).pending_header(), final(self).pending_header(), HeaderSend::<C::SendError>::Fatal(e)),
            final(connection).spec_kind() == old(connection).spec_kind(),
    {
        assert(self.header@.subrange(0, self.header@.len() as int) =~= self.header@);
        let mut stream = match connection.send_stream(self.stream_id) {
            Err(e) => {
                return Err(InitializeHeaderStreamError::MismatchedConnection(MismatchedType { expected: e.expected }));
            },
            Ok(None) => {
                return Err(InitializeHeaderStreamError::StreamClosedPrematurly);
            },
            Ok(Some(stream)) => stream,
        };
        match send_pending(&mut stream, &mut self.header) {
            HeaderSend::Ready => Ok(Some(self.stream_id)),
            HeaderSend::Blocked => Ok(None),
            HeaderSend::Fatal(e) => Err(InitializeHeaderStreamError::FatalSendErr(e)),
        }
    }

    /// Gives up on the header (if it is not sent yet) and returns the stream id.
    pub fn end(self) -> (r: BevyStreamId)
        ensures
            r == self.spec_stream_id(),
    {
        self.stream_id
    }
}

/// What happened to a stream; receive streams report the header they
/// started with.
#[derive(Clone, Copy, Debug, PartialEq, Eq)]
pub enum HeaderStreamEventType {
    NewSendStream,
    ClosedSendStream,
    NewRecvStream(u16),
    ClosedRecvStream,
}

/// An event of a stream of the header layer.
#[derive(Clone, Copy, Debug, PartialEq, Eq)]
pub struct HeaderStreamEvent {
    pub stream_id: BevyStreamId,
    pub peer_generated: bool,
    pub event_type: HeaderStreamEventType,
}

/// Marks an endpoint whose connections use stream headers.
pub struct EndpointStreamHeaders;

/// The receive streams of a connection whose header is not complete yet:
/// the stream, whether the peer opened it, and the header bytes so far.
pub struct ConnectionStreamHeaders {
    uninitialized_streams: Vec<(BevyStreamId, bool, Vec<u8>)>,
}

/// What polling a stream's header did.
#[derive(Clone, Copy, Debug, PartialEq, Eq)]
pub enum HeaderPoll {
    /// the header is still incomplete; the stream stays pending
    Pending,
    /// the header is complete; the stream left the pending streams
    Complete(HeaderStreamEvent),
    /// reading the header failed for good; the stream left the pending streams
    Failed,
}

pub open spec fn pending_model(s: Seq<(BevyStreamId, bool, Vec<u8>)>) -> Seq<(BevyStreamId, bool, Seq<u8>)> {
    s.map_values(|e: (BevyStreamId, bool, Vec<u8>)| (e.0, e.1, e.2@))
}

/// A read of the header bytes that `entry` still misses was made on a
/// stream of type `R`, and gave nothing.
pub open spec fn read_blocked_for<R: RecvStreamMut>(entry: (BevyStreamId, bool, Seq<u8>)) -> bool {
    exists|m: &mut R, read: Result<Vec<u8>, R::ReadError>|
        #[trigger] call_ensures(R::recv, (m, (2 - entry.2.len()) as usize), read) && read_blocked(read)
}

/// `event` is an event that a poll of a connection of type `C` can give.
pub open spec fn bevy_poll_can_give<C: ConnectionMut>(event: BevyStreamEvent) -> bool {
    exists|m: &mut BevyConnectionMut<C>| #[trigger] call_ensures(BevyConnectionMut::<C>::poll_stream_events, (m,), Some(event))
}

/// The header-layer event of a stream event that is not a new receive
/// stream.
pub open spec fn passed_on(event: BevyStreamEvent) -> HeaderStreamEvent {
    HeaderStreamEvent {
        stream_id: event.stream_id,
        peer_generated: event.peer_generated,
        event_type: match event.event_type {
            StreamEventType::NewSendStream => HeaderStreamEventType::NewSendStream,
            StreamEventType::ClosedSendStream => HeaderStreamEventType::ClosedSendStream,
            _ => HeaderStreamEventType::ClosedRecvStream,
        },
    }
}

/// Every poll of the run `t` did what a poll of the connection does.
pub open spec fn poll_trace<C: ConnectionMut>(t: Seq<(BevyConnectionMut<C>, BevyConnectionMut<C>, (), Option<BevyStreamEvent>)>) -> bool {
    forall|i: int| 0 <= i < t.len() ==> #[trigger] bevy_poll_step(t[i].0, t[i].1, t[i].3)
}

/// The events that the polls of `t` gave, in order.
pub open spec fn polled_events<T, E>(t: Seq<(T, T, (), Option<E>)>) -> Seq<E>
    decreases t.len(),
{
    if t.len() == 0 {
        Seq::empty()
    } else {
        polled_events(t.drop_last()) + match t.last().3 {
            Some(e) => seq![e],
            None => Seq::empty(),
        }
    }
}

/// The header stream events that `events` give, in order: every event but
/// a new receive stream is passed on.
pub open spec fn passed_events(events: Seq<BevyStreamEvent>) -> Seq<HeaderStreamEvent>
    decreases events.len(),
{
    if events.len() == 0 {
        Seq::empty()
    } else {
        passed_events(events.drop_last()) + if events.last().event_type == StreamEventType::NewRecvStream {
            Seq::empty()
        } else {
            seq![passed_on(events.last())]
        }
    }
}

/// The receive streams that `events` open, in order, each with no header
/// byte read yet.
pub open spec fn new_streams(events: Seq<BevyStreamEvent>) -> Seq<(BevyStreamId, bool, Seq<u8>)>
    decreases events.len(),
{
    if events.len() == 0 {
        Seq::empty()
    } else {
        new_streams(events.drop_last()) + if events.last().event_type == StreamEventType::NewRecvStream {
            seq![(events.last().stream_id, events.last().peer_generated, Seq::<u8>::empty())]
        } else {
            Seq::empty()
        }
    }
}

/// What the reads `t` of a stream's header did, starting from the header
/// bytes `h`, with the outcome `r`: each read asked for what the two-byte
/// header still missed, every read but the last gave bytes, and the last
/// completed the header (its bytes are the header), gave nothing or failed
/// not for good (pending), or failed for good.
pub open spec fn header_reads<T, E: ErrorFatality>(h: Seq<u8>, t: Seq<(T, T, usize, Result<Vec<u8>, E>)>, r: HeaderPoll) -> bool {
    &&& forall|i: int| 0 <= i < t.len() ==> #[trigger] t[i].2 == 2 - (h + read_bytes(t.take(i))).len()
    &&& forall|i: int| 0 <= i < t.len() - 1 ==> delivered(#[trigger] t[i].3)
    &&& match r {
        HeaderPoll::Complete(event) => (forall|i: int| 0 <= i < t.len() ==> delivered(#[trigger] t[i].3))
            && (event.event_type matches HeaderStreamEventType::NewRecvStream(header) && be16(header) == h + read_bytes(t)),
        HeaderPoll::Pending => t.len() > 0 && read_blocked(t.last().3),
        HeaderPoll::Failed => t.len() > 0 && (t.last().3 matches Err(e) && e.fatal()),
    }
}

/// `event` is the completed header of a pending stream of `before`, read by
/// a run of reads on one receive stream handle, each from the state the one
/// before left it in, as `header_reads` says, from the header bytes the
/// stream had in `before`.
pub open spec fn header_traced<R: RecvStreamMut>(before: Seq<(BevyStreamId, bool, Seq<u8>)>, event: HeaderStreamEvent) -> bool {
    exists|j: int, h0: R, h1: R, t: Seq<(R, R, usize, Result<Vec<u8>, R::ReadError>)>|
        #![trigger before[j], chained(t, h0, h1)]
        0 <= j < before.len() && before[j].0 == event.stream_id && before[j].1 == event.peer_generated
            && chained(t, h0, h1) && recv_trace(t) && header_reads(before[j].2, t, HeaderPoll::Complete(event))
}

/// A run of reads on the stream handle `h0`, each from the state the one
/// before left it in, ended with a read that failed for good.
pub open spec fn header_read_failed<R: RecvStreamMut>(h0: R) -> bool {
    exists|h1: R, t: Seq<(R, R, usize, Result<Vec<u8>, R::ReadError>)>|
        #[trigger] chained(t, h0, h1) && recv_trace(t) && t.len() > 0 && (t.last().3 matches Err(e) && e.fatal())
}

/// What became of the pending stream `entry`: it is still pending (with
/// its id and origin), or its header was reported in `events`, or the
/// connection said it has no such stream, or reading its header failed for
/// good on the handle the connection gave for it.
pub open spec fn header_stream_accounted<C: ConnectionMut>(
    entry: (BevyStreamId, bool, Seq<u8>),
    pending: Seq<(BevyStreamId, bool, Seq<u8>)>,
    events: Seq<HeaderStreamEvent>,
) -> bool {
    ||| exists|k: int| 0 <= k < pending.len() && #[trigger] pending[k].0 == entry.0 && pending[k].1 == entry.1
    ||| exists|k: int| 0 <= k < events.len() && #[trigger] events[k].stream_id == entry.0 && events[k].peer_generated == entry.1
        && events[k].event_type is NewRecvStream
    ||| exists|m: &mut BevyConnectionMut<C>, got| #[trigger] call_ensures(BevyConnectionMut::<C>::recv_stream, (m, entry.0), got)
        && (got matches Ok(None) || (got matches Ok(Some(h)) && header_read_failed(h)))
}

/// `pos` gives, for each stream of `pending`, the position in `before` of
/// the stream it was, with its id and origin; the positions increase.
pub open spec fn positioned(before: Seq<(BevyStreamId, bool, Seq<u8>)>, pending: Seq<(BevyStreamId, bool, Seq<u8>)>, pos: Seq<int>) -> bool {
    &&& pos.len() == pending.len()
    &&& forall|k: int| 0 <= k < pending.len() ==> 0 <= #[trigger] pos[k] < before.len() && before[pos[k]].0 == pending[k].0
        && before[pos[k]].1 == pending[k].1
    &&& forall|a: int, b: int| 0 <= a < b < pos.len() ==> #[trigger] pos[a] < #[trigger] pos[b]
}

/// `pos` gives, for each event of `events`, the position in `before` of the
/// pending stream it reports, with its id and origin; the positions
/// increase: the events come in the order of their streams in `before`,
/// each stream reported once at most.
pub open spec fn reported_in_order(before: Seq<(BevyStreamId, bool, Seq<u8>)>, events: Seq<HeaderStreamEvent>, pos: Seq<int>) -> bool {
    &&& pos.len() == events.len()
    &&& forall|k: int| 0 <= k < events.len() ==> 0 <= #[trigger] pos[k] < before.len() && before[pos[k]].0 == events[k].stream_id
        && before[pos[k]].1 == events[k].peer_generated
    &&& forall|a: int, b: int| 0 <= a < b < pos.len() ==> #[trigger] pos[a] < #[trigger] pos[b]
}

/// Every event position of `epos` comes before the positions of `pos` from
/// `i` on.
pub open spec fn reported_before(epos: Seq<int>, pos: Seq<int>, i: int) -> bool {
    forall|e: int, k: int| 0 <= e < epos.len() && i <= k < pos.len() ==> #[trigger] epos[e] < #[trigger] pos[k]
}

/// The pending stream at `i` leaves: the positions of the others stay.
proof fn lemma_positioned_remove(
    before: Seq<(BevyStreamId, bool, Seq<u8>)>,
    pending: Seq<(BevyStreamId, bool, Seq<u8>)>,
    pos: Seq<int>,
    epos: Seq<int>,
    i: int,
)
    requires
        positioned(before, pending, pos),
        reported_before(epos, pos, i),
        0 <= i < pending.len(),
    ensures
        positioned(before, pending.remove(i), pos.remove(i)),
        reported_before(epos, pos.remove(i), i),
        reported_before(epos.push(pos[i]), pos.remove(i), i),
{
    let p2 = pos.remove(i);
    let q2 = pending.remove(i);
    assert forall|k: int| 0 <= k < q2.len() implies 0 <= #[trigger] p2[k] < before.len() && before[p2[k]].0 == q2[k].0
        && before[p2[k]].1 == q2[k].1 by {
        if k < i {
            assert(p2[k] == pos[k] && q2[k] == pending[k]);
        } else {
            assert(p2[k] == pos[k + 1] && q2[k] == pending[k + 1]);
        }
    }
    assert forall|a: int, b: int| 0 <= a < b < p2.len() implies #[trigger] p2[a] < #[trigger] p2[b] by {
        let a1 = if a < i { a } else { a + 1 };
        let b1 = if b < i { b } else { b + 1 };
        assert(p2[a] == pos[a1] && p2[b] == pos[b1]);
    }
    assert forall|e: int, k: int| 0 <= e < epos.len() && i <= k < p2.len() implies #[trigger] epos[e] < #[trigger] p2[k] by {
        assert(p2[k] == pos[k + 1]);
    }
    let e2 = epos.push(pos[i]);
    assert forall|e: int, k: int| 0 <= e < e2.len() && i <= k < p2.len() implies #[trigger] e2[e] < #[trigger] p2[k] by {
        assert(p2[k] == pos[k + 1]);
        if e < epos.len() {
            assert(e2[e] == epos[e]);
        }
    }
}

/// The pending stream at `i` is reported: the events stay in order.
proof fn lemma_reported_push(
    before: Seq<(BevyStreamId, bool, Seq<u8>)>,
    pending: Seq<(BevyStreamId, bool, Seq<u8>)>,
    pos: Seq<int>,
    events: Seq<HeaderStreamEvent>,
    epos: Seq<int>,
    i: int,
    event: HeaderStreamEvent,
)
    requires
        positioned(before, pending, pos),
        reported_in_order(before, events, epos),
        reported_before(epos, pos, i),
        0 <= i < pending.len(),
        event.stream_id == pending[i].0,
        event.peer_generated == pending[i].1,
    ensures
        reported_in_order(before, events.push(event), epos.push(pos[i])),
{
    let e2 = epos.push(pos[i]);
    let v2 = events.push(event);
    assert forall|k: int| 0 <= k < v2.len() implies 0 <= #[trigger] e2[k] < before.len() && before[e2[k]].0 == v2[k].stream_id
        && before[e2[k]].1 == v2[k].peer_generated by {
        if k < events.len() {
            assert(e2[k] == epos[k] && v2[k] == events[k]);
        }
    }
    assert forall|a: int, b: int| 0 <= a < b < e2.len() implies #[trigger] e2[a] < #[trigger] e2[b] by {
        assert(e2[a] == epos[a]);
        if b < epos.len() {
            assert(e2[b] == epos[b]);
        }
    }
}

/// Removing the pending stream at `i`, which is accounted for otherwise,
/// and reporting more events keep every stream accounted for.
proof fn lemma_accounted_after_remove<C: ConnectionMut>(
    start: Seq<(BevyStreamId, bool, Seq<u8>)>,
    before: Seq<(BevyStreamId, bool, Seq<u8>)>,
    i: int,
    events_before: Seq<HeaderStreamEvent>,
    events_after: Seq<HeaderStreamEvent>,
)
    requires
        forall|j: int| 0 <= j < start.len() ==> header_stream_accounted::<C>(#[trigger] start[j], before, events_before),
        events_before.len() <= events_after.len(),
        forall|k: int| 0 <= k < events_before.len() ==> #[trigger] events_after[k] == events_before[k],
        0 <= i < before.len(),
        header_stream_accounted::<C>(before[i], Seq::empty(), events_after),
    ensures
        forall|j: int| 0 <= j < start.len() ==> header_stream_accounted::<C>(#[trigger] start[j], before.remove(i), events_after),
{
    let after = before.remove(i);
    assert forall|j: int| 0 <= j < start.len() implies header_stream_accounted::<C>(#[trigger] start[j], after, events_after) by {
        let x = start[j];
        assert(header_stream_accounted::<C>(x, before, events_before));
        if exists|k: int| 0 <= k < before.len() && #[trigger] before[k].0 == x.0 && before[k].1 == x.1 {
            let k = choose|k: int| 0 <= k < before.len() && #[trigger] before[k].0 == x.0 && before[k].1 == x.1;
            if k < i {
                assert(after[k] == before[k]);
            } else if k > i {
                assert(after[k - 1] == before[k]);
            } else {
                let e = before[i];
                if exists|k2: int| 0 <= k2 < events_after.len() && #[trigger] events_after[k2].stream_id == e.0
                    && events_after[k2].peer_generated == e.1 && events_after[k2].event_type is NewRecvStream {
                } else {
                    assert(exists|m: &mut BevyConnectionMut<C>, got| #[trigger] call_ensures(BevyConnectionMut::<C>::recv_stream, (m, e.0), got)
                        && (got matches Ok(None) || (got matches Ok(Some(h)) && header_read_failed(h))));
                }
            }
        } else if exists|k: int| 0 <= k < events_before.len() && #[trigger] events_before[k].stream_id == x.0
            && events_before[k].peer_generated == x.1 && events_before[k].event_type is NewRecvStream {
            let k = choose|k: int| 0 <= k < events_before.len() && #[trigger] events_before[k].stream_id == x.0
                && events_before[k].peer_generated == x.1 && events_before[k].event_type is NewRecvStream;
            assert(events_after[k] == events_before[k]);
        }
    }
}

/// `out` is passed on from an event that a poll of a connection of type
/// `C` can give.
pub open spec fn polled_and_passed<C: ConnectionMut>(out: HeaderStreamEvent) -> bool {
    exists|event: BevyStreamEvent| #[trigger] bevy_poll_can_give::<C>(event) && event.event_type != StreamEventType::NewRecvStream
        && out == passed_on(event)
}

/// `entry` is a new receive stream that a poll of a connection of type `C`
/// can give, with no header byte yet.
pub open spec fn polled_new_stream<C: ConnectionMut>(entry: (BevyStreamId, bool, Seq<u8>)) -> bool {
    exists|event: BevyStreamEvent| #[trigger] bevy_poll_can_give::<C>(event) && event.event_type == StreamEventType::NewRecvStream
        && entry == (event.stream_id, event.peer_generated, Seq::<u8>::empty())
}

/// `entry` is a pending stream of `before`, as it was there.
pub open spec fn unchanged_in(before: Seq<(BevyStreamId, bool, Seq<u8>)>, entry: (BevyStreamId, bool, Seq<u8>)) -> bool {
    exists|j: int| 0 <= j < before.len() && #[trigger] before[j] == entry
}

/// `event` is the completed header of a pending stream of `before`: its
/// bytes there followed by bytes that reads on a stream of type `R` gave.
pub open spec fn header_read<R: RecvStreamMut>(before: Seq<(BevyStreamId, bool, Seq<u8>)>, event: HeaderStreamEvent) -> bool {
    &&& event.event_type matches HeaderStreamEventType::NewRecvStream(header)
    &&& exists|j: int, chunks: Seq<(usize, Seq<u8>)>|
        #![trigger before[j], reads_can_give::<R>(chunks)]
        0 <= j < before.len() && before[j].0 == event.stream_id && before[j].1 == event.peer_generated
            && reads_can_give::<R>(chunks) && be16(header) == before[j].2 + flat(chunks)
}

/// `entry` is a pending stream of `before`, with at least the header bytes
/// it had there.
pub open spec fn came_from(before: Seq<(BevyStreamId, bool, Seq<u8>)>, entry: (BevyStreamId, bool, Seq<u8>)) -> bool {
    exists|j: int| 0 <= j < before.len() && #[trigger] before[j].0 == entry.0 && before[j].1 == entry.1 && before[j].2.is_prefix_of(entry.2)
}

/// `event` is the completed header of a pending stream of `before`.
pub open spec fn header_of(before: Seq<(BevyStreamId, bool, Seq<u8>)>, event: HeaderStreamEvent) -> bool {
    &&& event.event_type matches HeaderStreamEventType::NewRecvStream(header)
    &&& exists|j: int| 0 <= j < before.len() && #[trigger] before[j].0 == event.stream_id
            && before[j].1 == event.peer_generated && before[j].2.is_prefix_of(be16(header))
}

proof fn lemma_prefix_trans(a: Seq<u8>, b: Seq<u8>, c: Seq<u8>)
    requires
        a.is_prefix_of(b),
        b.is_prefix_of(c),
    ensures
        a.is_prefix_of(c),
{
    assert(a =~= c.subrange(0, a.len() as int)) by {
        assert forall|k: int| 0 <= k < a.len() implies a[k] == c.subrange(0, a.len() as int)[k] by {
            assert(a[k] == b.subrange(0, a.len() as int)[k]);
            assert(b[k] == c.subrange(0, b.len() as int)[k]);
        }
    }
}

impl ConnectionStreamHeaders {
    /// The pending streams.
    pub closed spec fn pending(&self) -> Seq<(BevyStreamId, bool, Seq<u8>)> {
        pending_model(self.uninitialized_streams@)
    }

    /// Every pending header holds fewer bytes than a whole header.
    pub closed spec fn wf(&self) -> bool {
        forall|i: int| 0 <= i < self.pending().len() ==> #[trigger] self.pending()[i].2.len() < 2
    }

    /// A connection with no pending stream.
    pub fn new() -> (r: Self)
        ensures
            r.wf(),
            r.pending() == Seq::<(BevyStreamId, bool, Seq<u8>)>::empty(),
    {
        let r = ConnectionStreamHeaders { uninitialized_streams: Vec::new() };
        assert(r.pending() =~= Seq::<(BevyStreamId, bool, Seq<u8>)>::empty());
        r
    }

    /// The number of pending streams.
    pub fn len(&self) -> (r: usize)
        ensures
            r == self.pending().len(),
    {
        self.uninitialized_streams.len()
    }

    /// The id of pending stream `index`.
    pub fn stream_id_at(&self, index: usize) -> (r: BevyStreamId)
        requires
            index < self.pending().len(),
        ensures
            r == self.pending()[index as int].0,
    {
        self.uninitialized_streams[index].0
    }

    /// Handles a stream event of the connection: a new receive stream waits
    /// for its header; other events are passed on.
    pub fn handle_stream_event(&mut self, event: BevyStreamEvent) -> (r: Option<HeaderStreamEvent>)
        requires
            old(self).wf(),
        ensures
            final(self).wf(),
            event.event_type == StreamEventType::NewRecvStream ==> (r is None)
                && final(self).pending() == old(self).pending().push((event.stream_id, event.peer_generated, Seq::empty())),
            event.event_type != StreamEventType::NewRecvStream ==> final(self).pending() == old(self).pending()
                && r == Some(HeaderStreamEvent {
                    stream_id: event.stream_id,
                    peer_generated: event.peer_generated,
                    event_type: match event.event_type {
                        StreamEventType::NewSendStream => HeaderStreamEventType::NewSendStream,
                        StreamEventType::ClosedSendStream => HeaderStreamEventType::ClosedSendStream,
                        _ => HeaderStreamEventType::ClosedRecvStream,
                    },
                }),
    {
        match event.event_type {
            StreamEventType::NewRecvStream => {
                self.uninitialized_streams.push((event.stream_id, event.peer_generated, Vec::new()));
                assert(self.pending() =~= old(self).pending().push((event.stream_id, event.peer_generated, Seq::empty())));
                None
            },
            StreamEventType::NewSendStream => Some(HeaderStreamEvent {
                stream_id: event.stream_id,
                peer_generated: event.peer_generated,
                event_type: HeaderStreamEventType::NewSendStream,
            }),
            StreamEventType::ClosedSendStream => Some(HeaderStreamEvent {
                stream_id: event.stream_id,
                peer_generated: event.peer_generated,
                event_type: HeaderStreamEventType::ClosedSendStream,
            }),
            StreamEventType::ClosedRecvStream => Some(HeaderStreamEvent {
                stream_id: event.stream_id,
                peer_generated: event.peer_generated,
                event_type: HeaderStreamEventType::ClosedRecvStream,
            }),
        }
    }

    /// Takes the stream events waiting on `connection`, at most
    /// `max_events` of them: new receive streams wait for their header; the
    /// other events are returned, in order.
    pub fn poll_stream_events<C: ConnectionMut>(&mut self, connection: &mut BevyConnectionMut<C>, max_events: usize) -> (r: Vec<HeaderStreamEvent>)
        requires
            old(self).wf(),
        ensures
            final(self).wf(),
            final(connection).spec_kind() == old(connection).spec_kind(),
            old(self).pending().is_prefix_of(final(self).pending()),
            final(self).pending().len() - old(self).pending().len() + r@.len() <= max_events,
            forall|i: int| old(self).pending().len() <= i < final(self).pending().len() ==> (#[trigger] final(self).pending()[i]).0.kind == old(connection).spec_kind()
                && final(self).pending()[i].2 == Seq::<u8>::empty(),
            forall|i: int| 0 <= i < r@.len() ==> (#[trigger] r@[i]).stream_id.kind == old(connection).spec_kind()
                && !(r@[i].event_type is NewRecvStream),
            final(self).pending().len() - old(self).pending().len() + r@.len() < max_events ==> exists|m: &mut BevyConnectionMut<C>|
                mut_ref_future(m) == *final(connection) && #[trigger] call_ensures(
                    BevyConnectionMut::<C>::poll_stream_events,
                    (m,),
                    None::<BevyStreamEvent>,
                ),
            forall|i: int| 0 <= i < r@.len() ==> polled_and_passed::<C>(#[trigger] r@[i]),
            forall|i: int| old(self).pending().len() <= i < final(self).pending().len() ==> polled_new_stream::<C>(#[trigger] final(self).pending()[i]),
            exists|t: Seq<(BevyConnectionMut<C>, BevyConnectionMut<C>, (), Option<BevyStreamEvent>)>|
                #[trigger] chained(t, *old(connection), *final(connection)) && poll_trace(t)
                && r@ == passed_events(polled_events(t))
                && final(self).pending() == old(self).pending() + new_streams(polled_events(t))
                && t.len() <= max_events
                && (forall|i: int| 0 <= i < t.len() - 1 ==> (#[trigger] t[i].3) is Some)
                && (t.len() == max_events || (t.len() > 0 && t.last().3 is None)),
    {
        let mut events: Vec<HeaderStreamEvent> = Vec::new();
        let ghost mut t: Seq<(BevyConnectionMut<C>, BevyConnectionMut<C>, (), Option<BevyStreamEvent>)> = Seq::empty();
        assert(old(self).pending() + new_streams(polled_events(t)) =~= old(self).pending());
        let ghost start = self.pending();
        let ghost kind = connection.spec_kind();
        assert(start.is_prefix_of(start)) by {
            assert(start =~= start.subrange(0, start.len() as int));
        }
        let mut taken: usize = 0;
        while taken < max_events
            invariant_except_break
                self.wf(),
                kind == old(connection).spec_kind(),
                connection.spec_kind() == kind,
                start == old(self).pending(),
                start.is_prefix_of(self.pending()),
                taken <= max_events,
                self.pending().len() - start.len() + events@.len() == taken,
                forall|i: int| start.len() <= i < self.pending().len() ==> (#[trigger] self.pending()[i]).0.kind == kind
                    && self.pending()[i].2 == Seq::<u8>::empty(),
                forall|i: int| 0 <= i < events@.len() ==> (#[trigger] events@[i]).stream_id.kind == kind
                    && !(events@[i].event_type is NewRecvStream),
                forall|i: int| 0 <= i < events@.len() ==> polled_and_passed::<C>(#[trigger] events@[i]),
                forall|i: int| start.len() <= i < self.pending().len() ==> polled_new_stream::<C>(#[trigger] self.pending()[i]),
                chained(t, *old(connection), *connection),
                poll_trace(t),
                t.len() == taken,
                forall|i: int| 0 <= i < t.len() ==> (#[trigger] t[i].3) is Some,
                events@ == passed_events(polled_events(t)),
                self.pending() == start + new_streams(polled_events(t)),
            ensures
                self.wf(),
                kind == old(connection).spec_kind(),
                connection.spec_kind() == kind,
                start == old(self).pending(),
                start.is_prefix_of(self.pending()),
                taken <= max_events,
                self.pending().len() - start.len() + events@.len() == taken,
                forall|i: int| start.len() <= i < self.pending().len() ==> (#[trigger] self.pending()[i]).0.kind == kind
                    && self.pending()[i].2 == Seq::<u8>::empty(),
                forall|i: int| 0 <= i < events@.len() ==> (#[trigger] events@[i]).stream_id.kind == kind
                    && !(events@[i].event_type is NewRecvStream),
                forall|i: int| 0 <= i < events@.len() ==> polled_and_passed::<C>(#[trigger] events@[i]),
                forall|i: int| start.len() <= i < self.pending().len() ==> polled_new_stream::<C>(#[trigger] self.pending()[i]),
                taken < max_events ==> exists|m: &mut BevyConnectionMut<C>|
                    mut_ref_future(m) == *connection && #[trigger] call_ensures(
                        BevyConnectionMut::<C>::poll_stream_events,
                        (m,),
                        None::<BevyStreamEvent>,
                    ),
                chained(t, *old(connection), *connection),
                poll_trace(t),
                t.len() <= max_events,
                forall|i: int| 0 <= i < t.len() - 1 ==> (#[trigger] t[i].3) is Some,
                t.len() == max_events || (t.len() > 0 && t.last().3 is None),
                events@ == passed_events(polled_events(t)),
                self.pending() == start + new_streams(polled_events(t)),
            decreases max_events - taken,
        {
            let ghost c0 = *connection;
            let polled = connection.poll_stream_events();
            let ghost step = (c0, *connection, (), polled);
            let ghost t0 = t;
            proof {
                lemma_chained_push(t, *old(connection), step);
                t = t.push(step);
                assert(t.drop_last() =~= t0);
                assert forall|i: int| 0 <= i < t.len() implies #[trigger] bevy_poll_step(t[i].0, t[i].1, t[i].3) by {
                    if i < t0.len() {
                        assert(t[i] == t0[i]);
                    }
                }
            }
            let event = match polled {
                Some(event) => event,
                None => {
                    proof {
                        assert(polled_events(t) =~= polled_events(t0));
                        assert forall|i: int| 0 <= i < t.len() - 1 implies (#[trigger] t[i].3) is Some by {
                            assert(t[i] == t0[i]);
                        }
                    }
                    break;
                },
            };
            proof {
                assert(polled_events(t) =~= polled_events(t0).push(event));
                assert(polled_events(t).drop_last() =~= polled_events(t0));
                assert forall|i: int| 0 <= i < t.len() implies (#[trigger] t[i].3) is Some by {
                    if i < t0.len() {
                        assert(t[i] == t0[i]);
                    }
                }
            }
            let ghost before = self.pending();
            let ghost before_events = events@;
            assert(bevy_poll_can_give::<C>(event));
            let ghost es = polled_events(t);
            match self.handle_stream_event(event) {
                Some(header_event) => {
                    events.push(header_event);
                    assert(events@ =~= passed_events(es));
                    assert(self.pending() =~= start + new_streams(es));
                    assert forall|i: int| 0 <= i < events@.len() implies polled_and_passed::<C>(#[trigger] events@[i]) by {
                        if i < before_events.len() {
                            assert(events@[i] == before_events[i]);
                        }
                    }
                },
                None => {
                    assert(events@ =~= passed_events(es));
                    assert(self.pending() =~= start + new_streams(es));
                    assert(start =~= self.pending().subrange(0, start.len() as int)) by {
                        assert(start =~= before.subrange(0, start.len() as int));
                    }
                    assert forall|i: int| start.len() <= i < self.pending().len() implies polled_new_stream::<C>(#[trigger] self.pending()[i]) by {
                        if i < before.len() {
                            assert(self.pending()[i] == before[i]);
                        }
                    }
                },
            }
            taken = taken + 1;
        }
        events
    }

    /// Reads what is missing of the headers of the pending streams from
    /// `connection`. Streams whose header is complete leave the pending
    /// streams and are returned, in order, as new receive stream events
    /// with their header; streams that the connection no longer has, or
    /// whose stream failed for good, leave them too.
    #[verifier::spinoff_prover]
    #[verifier::rlimit(100)]
    pub fn read_headers<'a, C: ConnectionMut>(&mut self, connection: &'a mut BevyConnectionMut<C>) -> (r: Vec<HeaderStreamEvent>)
        requires
            old(self).wf(),
            forall|i: int| 0 <= i < old(self).pending().len() ==> (#[trigger] old(self).pending()[i]).0.kind == old(connection).spec_kind(),
        ensures
            final(self).wf(),
            forall|i: int| 0 <= i < final(self).pending().len() ==> (#[trigger] final(self).pending()[i]).0.kind == old(connection).spec_kind(),
            final(connection).spec_kind() == old(connection).spec_kind(),
            forall|i: int| 0 <= i < final(self).pending().len() ==> came_from(old(self).pending(), #[trigger] final(self).pending()[i]),
            forall|i: int| 0 <= i < r@.len() ==> header_of(old(self).pending(), #[trigger] r@[i]),
            final(self).pending().len() + r@.len() <= old(self).pending().len(),
            forall|i: int| 0 <= i < final(self).pending().len() ==> read_blocked_for::<BevyRecvStream<C::RecvMut<'a>>>(
                #[trigger] final(self).pending()[i],
            ),
            forall|i: int| 0 <= i < r@.len() ==> header_read::<BevyRecvStream<C::RecvMut<'a>>>(old(self).pending(), #[trigger] r@[i]),
            forall|i: int| 0 <= i < r@.len() ==> header_traced::<BevyRecvStream<C::RecvMut<'a>>>(old(self).pending(), #[trigger] r@[i]),
            forall|j: int| 0 <= j < old(self).pending().len() ==> header_stream_accounted::<C>(
                #[trigger] old(self).pending()[j], final(self).pending(), r@),
            exists|pos: Seq<int>| #[trigger] reported_in_order(old(self).pending(), r@, pos),
    {
        let ghost start = self.pending();
        let mut events: Vec<HeaderStreamEvent> = Vec::new();
        let mut i: usize = 0;
        let ghost mut pos: Seq<int> = Seq::new(start.len(), |k: int| k);
        let ghost mut epos: Seq<int> = Seq::empty();
        proof {
            assert forall|k: int| 0 <= k < self.pending().len() implies came_from(start, #[trigger] self.pending()[k]) by {
                assert(start[k].2 =~= self.pending()[k].2.subrange(0, start[k].2.len() as int));
            }
            assert forall|k: int| 0 <= k < self.pending().len() implies unchanged_in(start, #[trigger] self.pending()[k]) by {
                assert(start[k] == self.pending()[k]);
            }
            assert forall|j: int| 0 <= j < start.len() implies header_stream_accounted::<C>(#[trigger] start[j], self.pending(), events@) by {
                assert(self.pending()[j].0 == start[j].0);
            }
        }
        while i < self.len()
            invariant
                self.wf(),
                start == old(self).pending(),
                i <= self.pending().len(),
                forall|k: int| 0 <= k < self.pending().len() ==> (#[trigger] self.pending()[k]).0.kind == old(connection).spec_kind(),
                connection.spec_kind() == old(connection).spec_kind(),
                forall|k: int| 0 <= k < self.pending().len() ==> came_from(start, #[trigger] self.pending()[k]),
                forall|k: int| 0 <= k < events@.len() ==> header_of(start, #[trigger] events@[k]),
                self.pending().len() + events@.len() <= start.len(),
                forall|k: int| 0 <= k < i ==> read_blocked_for::<BevyRecvStream<C::RecvMut<'a>>>(#[trigger] self.pending()[k]),
                forall|k: int| i <= k < self.pending().len() ==> unchanged_in(start, #[trigger] self.pending()[k]),
                forall|k: int| 0 <= k < events@.len() ==> header_read::<BevyRecvStream<C::RecvMut<'a>>>(start, #[trigger] events@[k]),
                forall|k: int| 0 <= k < events@.len() ==> header_traced::<BevyRecvStream<C::RecvMut<'a>>>(start, #[trigger] events@[k]),
                forall|j: int| 0 <= j < start.len() ==> header_stream_accounted::<C>(#[trigger] start[j], self.pending(), events@),
                positioned(start, self.pending(), pos),
                reported_in_order(start, events@, epos),
                reported_before(epos, pos, i as int),
            decreases self.pending().len() - i,
        {
            let stream_id = self.stream_id_at(i);
            let ghost entry = self.pending()[i as int];
            assert(came_from(start, entry));
            let ghost j = choose|j: int| 0 <= j < start.len() && #[trigger] start[j].0 == entry.0 && start[j].1 == entry.1 && start[j].2.is_prefix_of(entry.2);
            assert(unchanged_in(start, entry));
            let ghost j2 = choose|j2: int| 0 <= j2 < start.len() && #[trigger] start[j2] == entry;
            let ghost before = self.pending();
            match connection.recv_stream(stream_id) {
                Err(_) => {
                    proof {
                        assert(false);
                    }
                },
                Ok(None) => {
                    proof {
                        assert(header_stream_accounted::<C>(before[i as int], Seq::empty(), events@));
                        lemma_accounted_after_remove::<C>(start, before, i as int, events@, events@);
                        lemma_positioned_remove(start, before, pos, epos, i as int);
                        pos = pos.remove(i as int);
                    }
                    self.drop_stream(i);
                    assert forall|k: int| 0 <= k < self.pending().len() implies came_from(start, #[trigger] self.pending()[k]) by {
                        if k < i {
                            assert(self.pending()[k] == before[k]);
                        } else {
                            assert(self.pending()[k] == before[k + 1]);
                        }
                    }
                    assert forall|k: int| i <= k < self.pending().len() implies unchanged_in(start, #[trigger] self.pending()[k]) by {
                        assert(self.pending()[k] == before[k + 1]);
                    }
                },
                Ok(Some(mut stream)) => {
                    let ghost s0 = stream;
                    let ghost ev0 = events@;
                    match self.poll_stream_header(i, &mut stream) {
                        HeaderPoll::Pending => {
                            proof {
                                assert forall|jj: int| 0 <= jj < start.len() implies header_stream_accounted::<C>(#[trigger] start[jj], self.pending(), events@) by {
                                    let x = start[jj];
                                    assert(header_stream_accounted::<C>(x, before, events@));
                                    if exists|k: int| 0 <= k < before.len() && #[trigger] before[k].0 == x.0 && before[k].1 == x.1 {
                                        let k = choose|k: int| 0 <= k < before.len() && #[trigger] before[k].0 == x.0 && before[k].1 == x.1;
                                        assert(self.pending()[k].0 == before[k].0 && self.pending()[k].1 == before[k].1);
                                    }
                                }
                                let e2 = self.pending()[i as int];
                                lemma_prefix_trans(start[j].2, entry.2, e2.2);
                                assert(start[j].0 == e2.0);
                                assert forall|k: int| 0 <= k < self.pending().len() implies came_from(start, #[trigger] self.pending()[k]) by {
                                    if k != i {
                                        assert(self.pending()[k] == before[k]);
                                    }
                                }
                                assert forall|k: int| i + 1 <= k < self.pending().len() implies unchanged_in(start, #[trigger] self.pending()[k]) by {
                                    assert(self.pending()[k] == before[k]);
                                }
                                assert forall|k: int| 0 <= k < self.pending().len() implies 0 <= #[trigger] pos[k] < start.len()
                                    && start[pos[k]].0 == self.pending()[k].0 && start[pos[k]].1 == self.pending()[k].1 by {
                                    if k != i {
                                        assert(self.pending()[k] == before[k]);
                                    }
                                }
                            }
                            i = i + 1;
                        },
                        HeaderPoll::Complete(event) => {
                            proof {
                                if let HeaderStreamEventType::NewRecvStream(header) = event.event_type {
                                    lemma_prefix_trans(start[j].2, entry.2, be16(header));
                                }
                                assert(start[j].0 == event.stream_id);
                                assert(header_of(start, event));
                                assert(header_read::<BevyRecvStream<C::RecvMut<'a>>>(start, event)) by {
                                    assert(start[j2] == entry);
                                }
                                assert(header_traced::<BevyRecvStream<C::RecvMut<'a>>>(start, event)) by {
                                    assert(start[j2] == entry);
                                }
                            }
                            proof {
                                lemma_reported_push(start, before, pos, events@, epos, i as int, event);
                                lemma_positioned_remove(start, before, pos, epos, i as int);
                                epos = epos.push(pos[i as int]);
                                pos = pos.remove(i as int);
                            }
                            events.push(event);
                            proof {
                                assert(events@[events@.len() - 1] == event);
                                assert(header_stream_accounted::<C>(before[i as int], Seq::empty(), events@));
                                assert forall|k: int| 0 <= k < ev0.len() implies #[trigger] events@[k] == ev0[k] by {
                                    assert(events@[k] == events@.drop_last()[k]);
                                }
                                lemma_accounted_after_remove::<C>(start, before, i as int, ev0, events@);
                                assert forall|k: int| 0 <= k < events@.len() implies header_of(start, #[trigger] events@[k]) by {
                                    if k < events@.len() - 1 {
                                        assert(events@[k] == events@.drop_last()[k]);
                                    }
                                }
                                assert forall|k: int| 0 <= k < events@.len() implies header_read::<BevyRecvStream<C::RecvMut<'a>>>(start, #[trigger] events@[k]) by {
                                    if k < events@.len() - 1 {
                                        assert(events@[k] == events@.drop_last()[k]);
                                    }
                                }
                                assert forall|k: int| 0 <= k < events@.len() implies header_traced::<BevyRecvStream<C::RecvMut<'a>>>(start, #[trigger] events@[k]) by {
                                    if k < events@.len() - 1 {
                                        assert(events@[k] == events@.drop_last()[k]);
                                    }
                                }
                                assert forall|k: int| i <= k < self.pending().len() implies unchanged_in(start, #[trigger] self.pending()[k]) by {
                                    assert(self.pending()[k] == before[k + 1]);
                                }
                                assert forall|k: int| 0 <= k < self.pending().len() implies came_from(start, #[trigger] self.pending()[k]) by {
                                    if k < i {
                                        assert(self.pending()[k] == before[k]);
                                    } else {
                                        assert(self.pending()[k] == before[k + 1]);
                                    }
                                }
                            }
                        },
                        HeaderPoll::Failed => {
                            proof {
                                assert(header_read_failed(s0));
                                assert(header_stream_accounted::<C>(before[i as int], Seq::empty(), events@));
                                lemma_accounted_after_remove::<C>(start, before, i as int, events@, events@);
                                lemma_positioned_remove(start, before, pos, epos, i as int);
                                pos = pos.remove(i as int);
                            }
                            assert forall|k: int| 0 <= k < self.pending().len() implies came_from(start, #[trigger] self.pending()[k]) by {
                                if k < i {
                                    assert(self.pending()[k] == before[k]);
                                } else {
                                    assert(self.pending()[k] == before[k + 1]);
                                }
                            }
                            assert forall|k: int| i <= k < self.pending().len() implies unchanged_in(start, #[trigger] self.pending()[k]) by {
                                assert(self.pending()[k] == before[k + 1]);
                            }
                        },
                    }
                },
            }
        }
        events
    }

    /// Forgets pending stream `index`, whose stream no longer exists.
    pub fn drop_stream(&mut self, index: usize)
        requires
            old(self).wf(),
            index < old(self).pending().len(),
        ensures
            final(self).wf(),
            final(self).pending() == old(self).pending().remove(index as int),
    {
        self.uninitialized_streams.remove(index);
        assert(self.pending() =~= old(self).pending().remove(index as int));
    }

    /// Reads the header of pending stream `index` from its stream: at most
    /// the missing bytes are read each time, until the header is complete,
    /// the stream is blocked (or gives no bytes) or fails for good.
    pub fn poll_stream_header<R: RecvStreamMut>(&mut self, index: usize, stream: &mut R) -> (r: HeaderPoll)
        requires
            old(self).wf(),
            index < old(self).pending().len(),
        ensures
            final(self).wf(),
            r is Pending ==> final(self).pending().len() == old(self).pending().len() && ({
                let (id, peer, h) = old(self).pending()[index as int];
                let (id2, peer2, h2) = final(self).pending()[index as int];
                &&& id2 == id && peer2 == peer
                &&& h.is_prefix_of(h2)
                &&& final(self).pending() == old(self).pending().update(index as int, (id, peer, h2))
            }),
            r is Failed ==> final(self).pending() == old(self).pending().remove(index as int),
            r matches HeaderPoll::Complete(event) ==> final(self).pending() == old(self).pending().remove(index as int) && ({
                let (id, peer, h) = old(self).pending()[index as int];
                &&& event.stream_id == id
                &&& event.peer_generated == peer
                &&& event.event_type matches HeaderStreamEventType::NewRecvStream(header) && h.is_prefix_of(be16(header))
            }),
            r is Pending ==> exists|m: &mut R, read: Result<Vec<u8>, R::ReadError>|
                mut_ref_future(m) == *final(stream) && #[trigger] call_ensures(
                    R::recv,
                    (m, (2 - final(self).pending()[index as int].2.len()) as usize),
                    read,
                ) && read_blocked(read),
            r is Failed ==> exists|m: &mut R, limit: usize, read: Result<Vec<u8>, R::ReadError>|
                mut_ref_future(m) == *final(stream) && #[trigger] call_ensures(R::recv, (m, limit), read)
                    && (read matches Err(e) && e.fatal()),
            exists|chunks: Seq<(usize, Seq<u8>)>| #[trigger] reads_can_give::<R>(chunks) && ({
                let h = old(self).pending()[index as int].2;
                &&& forall|i: int| 0 <= i < chunks.len() ==> #[trigger] chunks[i].0 == 2 - (h + flat(chunks.take(i))).len()
                &&& r matches HeaderPoll::Complete(event) ==> (event.event_type matches HeaderStreamEventType::NewRecvStream(header)
                    && be16(header) == h + flat(chunks))
                &&& r is Pending ==> final(self).pending()[index as int].2 == h + flat(chunks)
            }),
            exists|t: Seq<(R, R, usize, Result<Vec<u8>, R::ReadError>)>|
                #[trigger] chained(t, *old(stream), *final(stream)) && recv_trace(t) && header_reads(old(self).pending()[index as int].2, t, r)
                && (r is Pending ==> final(self).pending()[index as int].2 == old(self).pending()[index as int].2 + read_bytes(t)),
    {
        let (stream_id, peer_generated, mut buffer) = self.uninitialized_streams.remove(index);
        let ghost mut t: Seq<(R, R, usize, Result<Vec<u8>, R::ReadError>)> = Seq::empty();
        let ghost rest = self.pending();
        proof {
            assert(rest =~= old(self).pending().remove(index as int));
            assert(buffer@ == old(self).pending()[index as int].2);
        }
        let ghost initial = buffer@;
        let ghost mut chunks: Seq<(usize, Seq<u8>)> = Seq::empty();
        assert(initial + flat(chunks) =~= initial);
        loop
            invariant_except_break
                forall|i: int| 0 <= i < t.len() ==> delivered(#[trigger] t[i].3),
            invariant
                reads_can_give::<R>(chunks),
                buffer@ == initial + flat(chunks),
                forall|i: int| 0 <= i < chunks.len() ==> #[trigger] chunks[i].0 == 2 - (initial + flat(chunks.take(i))).len(),
                buffer@.len() <= 2,
                initial.is_prefix_of(buffer@),
                initial.len() < 2,
                initial == old(self).pending()[index as int].2,
                stream_id == old(self).pending()[index as int].0,
                peer_generated == old(self).pending()[index as int].1,
                index < old(self).pending().len(),
                self.pending() == rest,
                rest == old(self).pending().remove(index as int),
                forall|i: int| 0 <= i < rest.len() ==> #[trigger] rest[i].2.len() < 2,
                chained(t, *old(stream), *stream),
                recv_trace(t),
                buffer@ == initial + read_bytes(t),
                forall|i: int| 0 <= i < t.len() ==> #[trigger] t[i].2 == 2 - (initial + read_bytes(t.take(i))).len(),
                forall|i: int| 0 <= i < t.len() - 1 ==> delivered(#[trigger] t[i].3),
            ensures
                chained(t, *old(stream), *stream),
                recv_trace(t),
                header_reads(initial, t, HeaderPoll::Pending),
                buffer@ == initial + read_bytes(t),
                reads_can_give::<R>(chunks),
                buffer@ == initial + flat(chunks),
                forall|i: int| 0 <= i < chunks.len() ==> #[trigger] chunks[i].0 == 2 - (initial + flat(chunks.take(i))).len(),
                buffer@.len() < 2,
                initial.is_prefix_of(buffer@),
                self.pending() == rest,
                exists|m: &mut R, read: Result<Vec<u8>, R::ReadError>|
                    mut_ref_future(m) == *stream && #[trigger] call_ensures(R::recv, (m, (2 - buffer@.len()) as usize), read)
                        && read_blocked(read),
            decreases 2 - buffer@.len(),
        {
            let to_receive = 2 - buffer.len();
            if to_receive == 0 {
                let header = be16_from_bytes(buffer[0], buffer[1]);
                proof {
                    lemma_be16_value_roundtrip(buffer@[0], buffer@[1]);
                    assert(buffer@ =~= seq![buffer@[0], buffer@[1]]);
                }
                let done = HeaderPoll::Complete(HeaderStreamEvent {
                    stream_id,
                    peer_generated,
                    event_type: HeaderStreamEventType::NewRecvStream(header),
                });
                assert(header_reads(initial, t, done));
                return done;
            }
            let ghost s0 = *stream;
            let outcome = stream.recv(to_receive);
            let ghost step = (s0, *stream, to_receive, outcome);
            let ghost t0 = t;
            proof {
                lemma_chained_push(t, *old(stream), step);
                lemma_recv_trace_push::<R>(t, step);
                t = t.push(step);
                assert forall|i: int| 0 <= i < t.len() implies #[trigger] t[i].2 == 2 - (initial + read_bytes(t.take(i))).len() by {
                    if i < t0.len() {
                        assert(t[i] == t0[i]);
                        assert(t.take(i) == t0.take(i));
                    } else {
                        assert(t.take(i) =~= t0);
                    }
                }
                assert forall|i: int| 0 <= i < t.len() - 1 implies delivered(#[trigger] t[i].3) by {
                    assert(t[i] == t0[i]);
                }
            }
            match outcome {
                Err(e) => {
                    assert(buffer@ =~= initial + read_bytes(t));
                    if e.is_fatal() {
                        assert(header_reads(initial, t, HeaderPoll::Failed));
                        return HeaderPoll::Failed;
                    }
                    break;
                },
                Ok(bytes) => {
                    if bytes.len() == 0 {
                        assert(buffer@ =~= initial + read_bytes(t));
                        break;
                    }
                    proof {
                        assert forall|i: int| 0 <= i < t.len() implies delivered(#[trigger] t[i].3) by {
                            if i < t0.len() {
                                assert(t[i] == t0[i]);
                            }
                        }
                    }
                    let ghost before = buffer@;
                    proof {
                        assert(recv_can_give::<R>(to_receive, bytes@));
                        lemma_reads_can_give_push::<R>(chunks, to_receive, bytes@);
                        chunks = chunks.push((to_receive, bytes@));
                    }
                    append_bytes(&mut buffer, bytes.as_slice());
                    assert(buffer@ =~= initial + flat(chunks));
                    assert(buffer@ =~= initial + read_bytes(t));
                    assert(buffer@.subrange(0, initial.len() as int) =~= before.subrange(0, initial.len() as int));
                },
            }
        }
        let ghost h2 = buffer@;
        self.uninitialized_streams.insert(index, (stream_id, peer_generated, buffer));
        proof {
            assert(self.pending() =~= old(self).pending().update(index as int, (stream_id, peer_generated, h2)));
            assert(forall|i: int| 0 <= i < self.pending().len() ==> #[trigger] self.pending()[i].2.len() < 2);
        }
        HeaderPoll::Pending
    }
}

/// A pending stream that leaves the pending streams in a call of
/// `read_headers` is reported as a new receive stream, with its id and
/// origin, unless the connection said it has no such stream or a read of
/// its header failed for good: a stream whose header was read in full is
/// never dropped unreported.
pub proof fn law_streams_leaving_pending_are_reported<'a, C: ConnectionMut>(id: BevyStreamId, peer: bool)
    ensures
        forall|h: &mut ConnectionStreamHeaders, c: &'a mut BevyConnectionMut<C>, r: Vec<HeaderStreamEvent>|
            #[trigger] call_ensures(ConnectionStreamHeaders::read_headers::<C>, (h, c), r)
            && (exists|j: int| 0 <= j < (*h).pending().len() && (*h).pending()[j].0 == id && (*h).pending()[j].1 == peer)
            && (forall|k: int| 0 <= k < mut_ref_future(h).pending().len() ==> !(#[trigger] mut_ref_future(h).pending()[k].0 == id
                && mut_ref_future(h).pending()[k].1 == peer))
            && (forall|m: &mut BevyConnectionMut<C>, got| #[trigger] call_ensures(BevyConnectionMut::<C>::recv_stream, (m, id), got)
                ==> (got matches Ok(Some(s)) && !header_read_failed(s)))
            ==> exists|k: int| 0 <= k < r@.len() && (#[trigger] r@[k]).stream_id == id && r@[k].peer_generated == peer
                && r@[k].event_type is NewRecvStream,
{
    assert forall|h: &mut ConnectionStreamHeaders, c: &'a mut BevyConnectionMut<C>, r: Vec<HeaderStreamEvent>|
        #[trigger] call_ensures(ConnectionStreamHeaders::read_headers::<C>, (h, c), r)
        && (exists|j: int| 0 <= j < (*h).pending().len() && (*h).pending()[j].0 == id && (*h).pending()[j].1 == peer)
        && (forall|k: int| 0 <= k < mut_ref_future(h).pending().len() ==> !(#[trigger] mut_ref_future(h).pending()[k].0 == id
            && mut_ref_future(h).pending()[k].1 == peer))
        && (forall|m: &mut BevyConnectionMut<C>, got| #[trigger] call_ensures(BevyConnectionMut::<C>::recv_stream, (m, id), got)
            ==> (got matches Ok(Some(s)) && !header_read_failed(s)))
        implies exists|k: int| 0 <= k < r@.len() && (#[trigger] r@[k]).stream_id == id && r@[k].peer_generated == peer
            && r@[k].event_type is NewRecvStream by {
        let j = choose|j: int| 0 <= j < (*h).pending().len() && (*h).pending()[j].0 == id && (*h).pending()[j].1 == peer;
        assert(header_stream_accounted::<C>((*h).pending()[j], mut_ref_future(h).pending(), r@));
    }
}

/// The new receive streams that a call of `read_headers` reports come in
/// the order their streams had among the pending streams: of two events,
/// the earlier reports a stream that stood before the other's. So no
/// pending stream is reported twice.
pub proof fn law_headers_reported_in_pending_order<'a, C: ConnectionMut>(a: int, b: int)
    ensures
        forall|h: &mut ConnectionStreamHeaders, c: &'a mut BevyConnectionMut<C>, r: Vec<HeaderStreamEvent>|
            #[trigger] call_ensures(ConnectionStreamHeaders::read_headers::<C>, (h, c), r) && 0 <= a < b < r@.len()
            ==> exists|pa: int, pb: int| 0 <= pa < pb < (*h).pending().len()
                && (#[trigger] (*h).pending()[pa]).0 == r@[a].stream_id && (*h).pending()[pa].1 == r@[a].peer_generated
                && (#[trigger] (*h).pending()[pb]).0 == r@[b].stream_id && (*h).pending()[pb].1 == r@[b].peer_generated,
{
    assert forall|h: &mut ConnectionStreamHeaders, c: &'a mut BevyConnectionMut<C>, r: Vec<HeaderStreamEvent>|
        #[trigger] call_ensures(ConnectionStreamHeaders::read_headers::<C>, (h, c), r) && 0 <= a < b < r@.len()
        implies exists|pa: int, pb: int| 0 <= pa < pb < (*h).pending().len()
            && (#[trigger] (*h).pending()[pa]).0 == r@[a].stream_id && (*h).pending()[pa].1 == r@[a].peer_generated
            && (#[trigger] (*h).pending()[pb]).0 == r@[b].stream_id && (*h).pending()[pb].1 == r@[b].peer_generated by {
        let pos = choose|pos: Seq<int>| #[trigger] reported_in_order((*h).pending(), r@, pos);
        assert(pos[a] < pos[b]);
        assert((*h).pending()[pos[a]].0 == r@[a].stream_id);
        assert((*h).pending()[pos[b]].0 == r@[b].stream_id);
    }
}

} // verus!
