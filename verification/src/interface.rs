//! The transport-independent interface: stream events, stream access traits
//! and the byte-buffer helpers that every stream user relies on.
use vstd::prelude::*;

verus! {

/// The kind of change a stream went through.
#[derive(Clone, Copy, Debug, PartialEq, Eq, Structural)]
pub enum StreamEventType {
    NewSendStream,
    ClosedSendStream,
    NewRecvStream,
    ClosedRecvStream,
}

/// An event fired by a stream of id type `S`.
#[derive(Clone, Copy, Debug, PartialEq, Eq, Structural)]
pub struct StreamEvent<S> {
    pub stream_id: S,
    /// `false` if the local endpoint generated the event, `true` if the peer did.
    pub peer_generated: bool,
    pub event_type: StreamEventType,
}

/// The direction of a stream.
#[derive(Clone, Copy, Debug, PartialEq, Eq, Structural)]
pub enum Dir {
    /// data flows one way only
    Uni,
    /// data flows both ways
    Bi,
}

/// Which end of a connection the local endpoint is.
#[derive(Clone, Copy, Debug, PartialEq, Eq, Structural)]
pub enum Side {
    Client,
    Server,
}

/// Errors that know whether retrying the operation can ever succeed.
pub trait ErrorFatality {
    /// The stream can never be used again.
    spec fn fatal(&self) -> bool;

    /// `true` when the stream can never be used again.
    fn is_fatal(&self) -> (r: bool)
        ensures
            r == self.fatal(),
    ;
}

/// A stream error as seen by code that does not know the transport.
pub trait StreamError {
    fn is_fatal(&self) -> bool;
}

/// A read that gave nothing: a failure that is not for good, or no bytes.
pub open spec fn read_blocked<E: ErrorFatality>(read: Result<Vec<u8>, E>) -> bool {
    match read {
        Err(e) => !e.fatal(),
        Ok(bytes) => bytes@.len() == 0,
    }
}

impl<E: ErrorFatality> StreamError for E {
    fn is_fatal(&self) -> (r: bool)
        ensures
            r == self.fatal(),
    {
        ErrorFatality::is_fatal(self)
    }
}

/// Operations on a mutable reference to a send stream.
///
/// Implementors write a prefix of the data they are given and report its length.
pub trait SendStreamMut {
    type SendError: ErrorFatality;

    type CloseDescription: crate::connections::Described;

    /// What one write does: a send of `data` on the stream `before` that
    /// gave `r` leaves the stream as `after`. Each stream type states this
    /// of its own sends; one that does not allows any outcome.
    open spec fn send_step(before: &Self, after: &Self, data: Seq<u8>, r: Result<usize, Self::SendError>) -> bool {
        true
    }

    fn send(&mut self, data: &[u8]) -> (r: Result<usize, Self::SendError>)
        ensures
            r matches Ok(n) ==> n <= data@.len(),
            Self::send_step(&*old(self), &*final(self), data@, r),
    ;

    fn close(&mut self, description: Self::CloseDescription) -> Result<(), ()>;

    fn is_open(&self) -> bool;
}

/// Every send of the run `t` did what its stream type says a send does.
pub open spec fn send_trace<S: SendStreamMut>(t: Seq<(S, S, Seq<u8>, Result<usize, S::SendError>)>) -> bool {
    forall|i: int| 0 <= i < t.len() ==> #[trigger] S::send_step(&t[i].0, &t[i].1, t[i].2, t[i].3)
}

/// How many bytes a send wrote.
pub open spec fn wrote<E>(outcome: Result<usize, E>) -> int {
    match outcome {
        Ok(n) => n as int,
        Err(_) => 0,
    }
}

/// How many bytes the sends of `t` wrote, in all.
pub open spec fn wrote_total<T, E>(t: Seq<(T, T, Seq<u8>, Result<usize, E>)>) -> int
    decreases t.len(),
{
    if t.len() == 0 {
        0
    } else {
        wrote_total(t.drop_last()) + wrote(t.last().3)
    }
}

/// The sends of `t` were offered, in turn, what was left of `initial` after
/// the bytes the sends before them wrote, and each but the last wrote a
/// nonempty prefix of it.
pub open spec fn sends_offered<T, E>(initial: Seq<u8>, t: Seq<(T, T, Seq<u8>, Result<usize, E>)>) -> bool {
    &&& forall|i: int| 0 <= i < t.len() ==> #[trigger] t[i].2 == initial.subrange(wrote_total(t.take(i)), initial.len() as int)
    &&& forall|i: int| 0 <= i < t.len() - 1 ==> (#[trigger] t[i].3 matches Ok(n) && n > 0)
    &&& 0 <= wrote_total(t) <= initial.len()
}

/// One more send, offered what was left, at the end of a run of sends.
pub proof fn lemma_sends_push<S: SendStreamMut>(
    initial: Seq<u8>,
    t: Seq<(S, S, Seq<u8>, Result<usize, S::SendError>)>,
    step: (S, S, Seq<u8>, Result<usize, S::SendError>),
)
    requires
        send_trace(t),
        sends_offered(initial, t),
        t.len() > 0 ==> (t.last().3 matches Ok(n) && n > 0),
        S::send_step(&step.0, &step.1, step.2, step.3),
        step.2 == initial.subrange(wrote_total(t), initial.len() as int),
        step.3 matches Ok(n) ==> n <= step.2.len(),
    ensures
        send_trace(t.push(step)),
        sends_offered(initial, t.push(step)),
        wrote_total(t.push(step)) == wrote_total(t) + wrote(step.3),
        t.push(step).drop_last() == t,
        t.push(step).last() == step,
{
    let t2 = t.push(step);
    assert(t2.drop_last() =~= t);
    assert(t2.take(t.len() as int) =~= t);
    assert forall|i: int| 0 <= i < t2.len() implies #[trigger] S::send_step(&t2[i].0, &t2[i].1, t2[i].2, t2[i].3) by {
        if i < t.len() {
            assert(t2[i] == t[i]);
        }
    }
    assert forall|i: int| 0 <= i < t2.len() implies #[trigger] t2[i].2 == initial.subrange(wrote_total(t2.take(i)), initial.len() as int) by {
        if i < t.len() {
            assert(t2[i] == t[i]);
            assert(t2.take(i) =~= t.take(i));
        }
    }
    assert forall|i: int| 0 <= i < t2.len() - 1 implies (#[trigger] t2[i].3 matches Ok(n) && n > 0) by {
        assert(t2[i] == t[i]);
        if i < t.len() - 1 {
        } else {
            assert(t[i] == t.last());
        }
    }
}

/// Operations on a mutable reference to a receive stream.
///
/// Implementors hand out at most `limit` bytes per call.
pub trait RecvStreamMut {
    type ReadError: ErrorFatality;

    type CloseDescription: crate::connections::Described;

    /// What one read does: a read of at most `limit` bytes on the stream
    /// `before` that gave `r` leaves the stream as `after`. Each stream type
    /// states this of its own reads; one that does not allows any outcome.
    open spec fn recv_step(before: &Self, after: &Self, limit: usize, r: Result<Vec<u8>, Self::ReadError>) -> bool {
        true
    }

    fn recv(&mut self, limit: usize) -> (r: Result<Vec<u8>, Self::ReadError>)
        ensures
            r matches Ok(bytes) ==> bytes@.len() <= limit,
            Self::recv_step(&*old(self), &*final(self), limit, r),
    ;

    fn close(&mut self, description: Self::CloseDescription) -> Result<(), ()>;

    fn is_open(&self) -> bool;
}

/// Every read of the run `t` did what its stream type says a read does.
pub open spec fn recv_trace<R: RecvStreamMut>(t: Seq<(R, R, usize, Result<Vec<u8>, R::ReadError>)>) -> bool {
    forall|i: int| 0 <= i < t.len() ==> #[trigger] R::recv_step(&t[i].0, &t[i].1, t[i].2, t[i].3)
}

/// Operations that can be made with a shared reference to connection state.
pub trait ConnectionRef {
    type ConnectionStats;

    fn get_stats(&self) -> Self::ConnectionStats;
}

/// Callbacks fired while an endpoint is updated.
///
/// Incoming connections are refused unless `connection_request` is overridden.
pub trait EndpointEventHandler<ConnectionId, IncomingConnectionInfo>: Sized {
    /// asked whether an incoming connection should be accepted; `true` accepts
    fn connection_request(&mut self, request: IncomingConnectionInfo) -> (r: bool)
        default_ensures
            !r,
            *final(self) == *old(self),
    {
        false
    }

    fn connected(&mut self, connection_id: ConnectionId);

    fn disconnected(&mut self, connection_id: ConnectionId);
}

/// Stream-level access to a QUIC connection, by stream id.
///
/// This is the part of a connection that the WebTransport handshakes drive:
/// opening streams, writing a prefix of a buffer, reading at most a limit of
/// bytes and closing the connection.
pub trait StreamConnection {
    type SendError;

    type ReadError;

    /// What opening a stream does: opening a stream of direction `dir` on
    /// the connection `before` that gave `r` leaves the connection as
    /// `after`. Each connection type states this of its own streams; one
    /// that does not allows any outcome.
    open spec fn open_step(before: &Self, after: &Self, dir: Dir, r: Option<u64>) -> bool {
        true
    }

    /// What one write does: a send of `data` on stream `stream_id` of the
    /// connection `before` that gave `r` leaves the connection as `after`.
    open spec fn send_step(before: &Self, after: &Self, stream_id: u64, data: Seq<u8>, r: Result<usize, Self::SendError>) -> bool {
        true
    }

    /// What one read does: a read of at most `limit` bytes of stream
    /// `stream_id` of the connection `before` that gave `r` leaves the
    /// connection as `after`.
    open spec fn recv_step(before: &Self, after: &Self, stream_id: u64, limit: usize, r: Result<Vec<u8>, Self::ReadError>) -> bool {
        true
    }

    fn open_stream(&mut self, dir: Dir) -> (r: Option<u64>)
        ensures
            Self::open_step(&*old(self), &*final(self), dir, r),
    ;

    fn send(&mut self, stream_id: u64, data: &[u8]) -> (r: Result<usize, Self::SendError>)
        ensures
            r matches Ok(n) ==> n <= data@.len(),
            Self::send_step(&*old(self), &*final(self), stream_id, data@, r),
    ;

    fn recv(&mut self, stream_id: u64, limit: usize) -> (r: Result<Vec<u8>, Self::ReadError>)
        ensures
            r matches Ok(bytes) ==> bytes@.len() <= limit,
            Self::recv_step(&*old(self), &*final(self), stream_id, limit, r),
    ;

    fn disconnect(&mut self);
}

/// Removes the first `n` bytes of `buffer`.
pub fn drain_front(buffer: &mut Vec<u8>, n: usize)
    requires
        n <= old(buffer)@.len(),
    ensures
        final(buffer)@ == old(buffer)@.subrange(n as int, old(buffer)@.len() as int),
{
    let rest = buffer.split_off(n);
    *buffer = rest;
}

/// Appends `bytes` to `buffer`.
pub fn append_bytes(buffer: &mut Vec<u8>, bytes: &[u8])
    ensures
        final(buffer)@ == old(buffer)@ + bytes@,
{
    let ghost start = buffer@;
    let mut i: usize = 0;
    while i < bytes.len()
        invariant
            i <= bytes@.len(),
            buffer@ == start + bytes@.subrange(0, i as int),
        decreases bytes@.len() - i,
    {
        buffer.push(bytes[i]);
        i = i + 1;
        assert(buffer@ =~= start + bytes@.subrange(0, i as int));
    }
    assert(bytes@.subrange(0, bytes@.len() as int) =~= bytes@);
}

/// `rest` is what is left of `buffer` once a prefix of it has been written.
pub open spec fn is_written_suffix(buffer: Seq<u8>, rest: Seq<u8>) -> bool {
    exists|k: int| 0 <= k <= buffer.len() && rest == buffer.subrange(k, buffer.len() as int)
}

/// `t` is a run of calls on one object, in order: each step holds the
/// object before and after the call, what the call was given and what it
/// gave; the object starts as `first` and ends as `last`.
pub open spec fn chained<T, A, O>(t: Seq<(T, T, A, O)>, first: T, last: T) -> bool {
    &&& t.len() == 0 ==> first == last
    &&& t.len() > 0 ==> t[0].0 == first && t[t.len() - 1].1 == last
    &&& forall|i: int| #![trigger t[i]] 0 <= i < t.len() - 1 ==> t[i].1 == t[i + 1].0
}

/// A read that gave bytes.
pub open spec fn delivered<E>(outcome: Result<Vec<u8>, E>) -> bool {
    outcome matches Ok(bytes) && bytes@.len() > 0
}

/// The bytes that the reads of `t` gave, in order.
pub open spec fn read_bytes<T, E>(t: Seq<(T, T, usize, Result<Vec<u8>, E>)>) -> Seq<u8>
    decreases t.len(),
{
    if t.len() == 0 {
        Seq::empty()
    } else {
        read_bytes(t.drop_last()) + match t.last().3 {
            Ok(bytes) => bytes@,
            Err(_) => Seq::empty(),
        }
    }
}

/// One more step at the end of a run of calls.
pub proof fn lemma_chained_push<T, A, O>(t: Seq<(T, T, A, O)>, first: T, step: (T, T, A, O))
    requires
        chained(t, first, step.0),
    ensures
        chained(t.push(step), first, step.1),
        t.push(step).drop_last() == t,
        forall|i: int| 0 <= i <= t.len() ==> #[trigger] t.push(step).take(i) == t.take(i),
{
    let t2 = t.push(step);
    assert(t2.drop_last() =~= t);
    assert forall|i: int| 0 <= i <= t.len() implies #[trigger] t2.take(i) == t.take(i) by {
        assert(t2.take(i) =~= t.take(i));
    }
    assert forall|i: int| #![trigger t2[i]] 0 <= i < t2.len() - 1 implies t2[i].1 == t2[i + 1].0 by {
        if i < t.len() - 1 {
            assert(t2[i] == t[i] && t2[i + 1] == t[i + 1]);
        } else {
            assert(t2[i] == t[t.len() - 1]);
        }
    }
}

/// One more read at the end of a run of reads.
pub proof fn lemma_recv_trace_push<R: RecvStreamMut>(
    t: Seq<(R, R, usize, Result<Vec<u8>, R::ReadError>)>,
    step: (R, R, usize, Result<Vec<u8>, R::ReadError>),
)
    requires
        recv_trace(t),
        R::recv_step(&step.0, &step.1, step.2, step.3),
    ensures
        recv_trace(t.push(step)),
{
    assert forall|i: int| 0 <= i < t.push(step).len() implies #[trigger] R::recv_step(&t.push(step)[i].0, &t.push(step)[i].1, t.push(step)[i].2, t.push(step)[i].3) by {
        if i < t.len() {
            assert(t.push(step)[i] == t[i]);
        }
    }
}

/// `S::recv` can give the bytes `bytes` when it is asked for at most `limit`.
pub open spec fn recv_can_give<R: RecvStreamMut>(limit: usize, bytes: Seq<u8>) -> bool {
    exists|m: &mut R, v: Vec<u8>| v@ == bytes && #[trigger] call_ensures(R::recv, (m, limit), Ok::<Vec<u8>, R::ReadError>(v))
}

/// Each `(limit, bytes)` of `chunks` is bytes that a read of at most `limit`
/// bytes on a stream of type `R` can give.
pub open spec fn reads_can_give<R: RecvStreamMut>(chunks: Seq<(usize, Seq<u8>)>) -> bool {
    forall|i: int| 0 <= i < chunks.len() ==> recv_can_give::<R>(#[trigger] chunks[i].0, chunks[i].1)
}

/// The bytes of `chunks`, in order.
pub open spec fn flat(chunks: Seq<(usize, Seq<u8>)>) -> Seq<u8>
    decreases chunks.len(),
{
    if chunks.len() == 0 {
        Seq::empty()
    } else {
        flat(chunks.drop_last()) + chunks.last().1
    }
}

/// One more read.
pub proof fn lemma_reads_can_give_push<R: RecvStreamMut>(chunks: Seq<(usize, Seq<u8>)>, limit: usize, bytes: Seq<u8>)
    requires
        reads_can_give::<R>(chunks),
        recv_can_give::<R>(limit, bytes),
    ensures
        reads_can_give::<R>(chunks.push((limit, bytes))),
        flat(chunks.push((limit, bytes))) == flat(chunks) + bytes,
        forall|i: int| 0 <= i <= chunks.len() ==> #[trigger] chunks.push((limit, bytes)).take(i) == chunks.take(i),
        chunks.take(chunks.len() as int) == chunks,
{
    assert(chunks.take(chunks.len() as int) =~= chunks);
    let c2 = chunks.push((limit, bytes));
    assert(c2.drop_last() =~= chunks);
    assert forall|i: int| 0 <= i <= chunks.len() implies #[trigger] c2.take(i) == chunks.take(i) by {
        assert(c2.take(i) =~= chunks.take(i));
    }
    assert forall|i: int| 0 <= i < c2.len() implies recv_can_give::<R>(#[trigger] c2[i].0, c2[i].1) by {
        if i < chunks.len() {
            assert(c2[i] == chunks[i]);
        }
    }
}

/// The sum of `counts`.
pub open spec fn total(counts: Seq<usize>) -> int
    decreases counts.len(),
{
    if counts.len() == 0 {
        0
    } else {
        total(counts.drop_last()) + counts.last()
    }
}

/// `outcome` is a result that `S::send` can give when it is offered `data`.
pub open spec fn send_can_give<S: SendStreamMut>(data: Seq<u8>, outcome: Result<usize, S::SendError>) -> bool {
    exists|m: &mut S, offered: &[u8]| offered@ == data && #[trigger] call_ensures(S::send, (m, offered), outcome)
}

/// A send that took nothing: it wrote zero bytes, or failed not for good.
pub open spec fn send_blocked<E: ErrorFatality>(outcome: Result<usize, E>) -> bool {
    match outcome {
        Ok(n) => n == 0,
        Err(e) => !e.fatal(),
    }
}

/// Sends of stream type `S`, offered in turn what was left of `initial`,
/// each wrote a nonempty prefix of it: `counts[i]` bytes.
pub open spec fn sends_can_take<S: SendStreamMut>(initial: Seq<u8>, counts: Seq<usize>) -> bool
    decreases counts.len(),
{
    if counts.len() == 0 {
        true
    } else {
        let before = total(counts.drop_last());
        &&& sends_can_take::<S>(initial, counts.drop_last())
        &&& 0 < counts.last()
        &&& before + counts.last() <= initial.len()
        &&& send_can_give::<S>(initial.subrange(before, initial.len() as int), Ok(counts.last()))
    }
}

/// `rest` is what is left of `initial` after sends of stream type `S`, each
/// offered what was left, wrote nonempty prefixes of it, in order.
pub open spec fn writable_by<S: SendStreamMut>(initial: Seq<u8>, rest: Seq<u8>) -> bool {
    exists|counts: Seq<usize>|
        #[trigger] sends_can_take::<S>(initial, counts) && total(counts) <= initial.len()
            && rest == initial.subrange(total(counts), initial.len() as int)
}

/// What is left after sends is what is left after writing a prefix.
pub proof fn lemma_writable_by_suffix<S: SendStreamMut>(initial: Seq<u8>, rest: Seq<u8>)
    requires
        writable_by::<S>(initial, rest),
    ensures
        is_written_suffix(initial, rest),
{
    let counts = choose|counts: Seq<usize>|
        #[trigger] sends_can_take::<S>(initial, counts) && total(counts) <= initial.len()
            && rest == initial.subrange(total(counts), initial.len() as int);
    lemma_total_nonneg(counts);
}

proof fn lemma_total_nonneg(counts: Seq<usize>)
    ensures
        total(counts) >= 0,
    decreases counts.len(),
{
    if counts.len() > 0 {
        lemma_total_nonneg(counts.drop_last());
    }
}

/// One more send that wrote `n` bytes of what was left.
pub proof fn lemma_sends_can_take_push<S: SendStreamMut>(initial: Seq<u8>, counts: Seq<usize>, n: usize)
    requires
        sends_can_take::<S>(initial, counts),
        0 < n,
        total(counts) + n <= initial.len(),
        send_can_give::<S>(initial.subrange(total(counts), initial.len() as int), Ok(n)),
    ensures
        sends_can_take::<S>(initial, counts.push(n)),
        total(counts.push(n)) == total(counts) + n,
{
    assert(counts.push(n).drop_last() =~= counts);
}

/// Nothing sent yet.
pub proof fn lemma_writable_by_none<S: SendStreamMut>(initial: Seq<u8>)
    ensures
        writable_by::<S>(initial, initial),
{
    let counts = Seq::<usize>::empty();
    assert(sends_can_take::<S>(initial, counts));
    assert(initial.subrange(0, initial.len() as int) =~= initial);
}

/// `outcome` is a result that `C::send` can give when it is offered `data`
/// for stream `stream_id`.
pub open spec fn conn_send_can_give<C: StreamConnection>(stream_id: u64, data: Seq<u8>, outcome: Result<usize, C::SendError>) -> bool {
    exists|m: &mut C, offered: &[u8]| offered@ == data && #[trigger] call_ensures(C::send, (m, stream_id, offered), outcome)
}

/// `outcome` is a result that `C::recv` can give when it is asked for at
/// most `limit` bytes of stream `stream_id`.
pub open spec fn conn_recv_can_give<C: StreamConnection>(stream_id: u64, limit: usize, outcome: Result<Vec<u8>, C::ReadError>) -> bool {
    exists|m: &mut C| #[trigger] call_ensures(C::recv, (m, stream_id, limit), outcome)
}

/// Sends on stream `stream_id` of a connection of type `C`, offered in
/// turn what was left of `initial`, each wrote a nonempty prefix of it:
/// `counts[i]` bytes.
pub open spec fn conn_sends_can_take<C: StreamConnection>(stream_id: u64, initial: Seq<u8>, counts: Seq<usize>) -> bool
    decreases counts.len(),
{
    if counts.len() == 0 {
        true
    } else {
        let before = total(counts.drop_last());
        &&& conn_sends_can_take::<C>(stream_id, initial, counts.drop_last())
        &&& 0 < counts.last()
        &&& before + counts.last() <= initial.len()
        &&& conn_send_can_give::<C>(stream_id, initial.subrange(before, initial.len() as int), Ok(counts.last()))
    }
}

/// `rest` is what is left of `initial` after sends on stream `stream_id` of
/// a connection of type `C`, each offered what was left, wrote nonempty
/// prefixes of it, in order.
pub open spec fn conn_writable_by<C: StreamConnection>(stream_id: u64, initial: Seq<u8>, rest: Seq<u8>) -> bool {
    exists|counts: Seq<usize>|
        #[trigger] conn_sends_can_take::<C>(stream_id, initial, counts) && total(counts) <= initial.len()
            && rest == initial.subrange(total(counts), initial.len() as int)
}

/// One more send on the connection that wrote `n` bytes of what was left.
pub proof fn lemma_conn_sends_can_take_push<C: StreamConnection>(stream_id: u64, initial: Seq<u8>, counts: Seq<usize>, n: usize)
    requires
        conn_sends_can_take::<C>(stream_id, initial, counts),
        0 < n,
        total(counts) + n <= initial.len(),
        conn_send_can_give::<C>(stream_id, initial.subrange(total(counts), initial.len() as int), Ok(n)),
    ensures
        conn_sends_can_take::<C>(stream_id, initial, counts.push(n)),
        total(counts.push(n)) == total(counts) + n,
{
    assert(counts.push(n).drop_last() =~= counts);
}

/// Every send of the run `t`, each on stream `stream_id`, did what its
/// connection type says a send does.
pub open spec fn conn_send_trace<C: StreamConnection>(stream_id: u64, t: Seq<(C, C, Seq<u8>, Result<usize, C::SendError>)>) -> bool {
    forall|i: int| 0 <= i < t.len() ==> #[trigger] C::send_step(&t[i].0, &t[i].1, stream_id, t[i].2, t[i].3)
}

/// Every read of the run `t`, each on stream `stream_id`, did what its
/// connection type says a read does.
pub open spec fn conn_recv_trace<C: StreamConnection>(stream_id: u64, t: Seq<(C, C, usize, Result<Vec<u8>, C::ReadError>)>) -> bool {
    forall|i: int| 0 <= i < t.len() ==> #[trigger] C::recv_step(&t[i].0, &t[i].1, stream_id, t[i].2, t[i].3)
}

/// One more send on the connection, offered what was left, at the end of a
/// run of sends.
pub proof fn lemma_conn_sends_push<C: StreamConnection>(
    stream_id: u64,
    initial: Seq<u8>,
    t: Seq<(C, C, Seq<u8>, Result<usize, C::SendError>)>,
    step: (C, C, Seq<u8>, Result<usize, C::SendError>),
)
    requires
        conn_send_trace(stream_id, t),
        sends_offered(initial, t),
        t.len() > 0 ==> (t.last().3 matches Ok(n) && n > 0),
        C::send_step(&step.0, &step.1, stream_id, step.2, step.3),
        step.2 == initial.subrange(wrote_total(t), initial.len() as int),
        step.3 matches Ok(n) ==> n <= step.2.len(),
    ensures
        conn_send_trace(stream_id, t.push(step)),
        sends_offered(initial, t.push(step)),
        wrote_total(t.push(step)) == wrote_total(t) + wrote(step.3),
        t.push(step).drop_last() == t,
        t.push(step).last() == step,
{
    let t2 = t.push(step);
    assert(t2.drop_last() =~= t);
    assert(t2.take(t.len() as int) =~= t);
    assert forall|i: int| 0 <= i < t2.len() implies #[trigger] C::send_step(&t2[i].0, &t2[i].1, stream_id, t2[i].2, t2[i].3) by {
        if i < t.len() {
            assert(t2[i] == t[i]);
        }
    }
    assert forall|i: int| 0 <= i < t2.len() implies #[trigger] t2[i].2 == initial.subrange(wrote_total(t2.take(i)), initial.len() as int) by {
        if i < t.len() {
            assert(t2[i] == t[i]);
            assert(t2.take(i) =~= t.take(i));
        }
    }
    assert forall|i: int| 0 <= i < t2.len() - 1 implies (#[trigger] t2[i].3 matches Ok(n) && n > 0) by {
        assert(t2[i] == t[i]);
        if i < t.len() - 1 {
        } else {
            assert(t[i] == t.last());
        }
    }
}

/// The run of sends `t` on one stream wrote `initial` down to `rest`: each
/// send was offered what was left, each but the last wrote a nonempty
/// prefix of it, and the last wrote nothing or failed.
pub open spec fn conn_drained<C: StreamConnection>(
    stream_id: u64,
    initial: Seq<u8>,
    rest: Seq<u8>,
    t: Seq<(C, C, Seq<u8>, Result<usize, C::SendError>)>,
) -> bool {
    &&& conn_send_trace(stream_id, t)
    &&& sends_offered(initial, t)
    &&& rest == initial.subrange(wrote_total(t), initial.len() as int)
    &&& t.len() > 0
    &&& (t.last().3 is Err || t.last().3 == Ok::<usize, C::SendError>(0))
}

/// Writes as much of `buffer` as the stream takes, removing what was written.
///
/// Writing stops at the first error, at the first write of zero bytes, or
/// when the buffer is empty. Returns `true` when the buffer is empty.
pub fn send_all<C: StreamConnection>(connection: &mut C, stream_id: u64, buffer: &mut Vec<u8>) -> (r: bool)
    ensures
        is_written_suffix(old(buffer)@, final(buffer)@),
        conn_writable_by::<C>(stream_id, old(buffer)@, final(buffer)@),
        r == (final(buffer)@.len() == 0),
        !r ==> exists|outcome: Result<usize, C::SendError>|
            #[trigger] conn_send_can_give::<C>(stream_id, final(buffer)@, outcome) && (outcome is Err || outcome == Ok::<usize, C::SendError>(0)),
        exists|t: Seq<(C, C, Seq<u8>, Result<usize, C::SendError>)>|
            #[trigger] chained(t, *old(connection), *final(connection)) && conn_drained(stream_id, old(buffer)@, final(buffer)@, t),
{
    let ghost initial = buffer@;
    let ghost mut counts: Seq<usize> = Seq::empty();
    let ghost mut t: Seq<(C, C, Seq<u8>, Result<usize, C::SendError>)> = Seq::empty();
    assert(initial.subrange(0, initial.len() as int) =~= initial);
    assert(conn_sends_can_take::<C>(stream_id, initial, counts));
    loop
        invariant_except_break
            initial == old(buffer)@,
            conn_sends_can_take::<C>(stream_id, initial, counts),
            0 <= total(counts) <= initial.len(),
            buffer@ == initial.subrange(total(counts), initial.len() as int),
            chained(t, *old(connection), *connection),
            conn_send_trace(stream_id, t),
            sends_offered(initial, t),
            t.len() > 0 ==> (t.last().3 matches Ok(n) && n > 0),
            wrote_total(t) == total(counts),
        ensures
            conn_sends_can_take::<C>(stream_id, initial, counts),
            0 <= total(counts) <= initial.len(),
            buffer@ == initial.subrange(total(counts), initial.len() as int),
            buffer@.len() > 0 ==> exists|outcome: Result<usize, C::SendError>|
                #[trigger] conn_send_can_give::<C>(stream_id, buffer@, outcome) && (outcome is Err || outcome == Ok::<usize, C::SendError>(0)),
            chained(t, *old(connection), *connection),
            conn_drained(stream_id, initial, buffer@, t),
        decreases buffer@.len(),
    {
        let offered = buffer.as_slice();
        let ghost before = *connection;
        let outcome = connection.send(stream_id, offered);
        let ghost step = (before, *connection, buffer@, outcome);
        proof {
            lemma_chained_push(t, *old(connection), step);
            lemma_conn_sends_push::<C>(stream_id, initial, t, step);
            t = t.push(step);
        }
        assert(conn_send_can_give::<C>(stream_id, buffer@, outcome));
        match outcome {
            Ok(n) => {
                if n == 0 {
                    break;
                }
                proof {
                    lemma_conn_sends_can_take_push::<C>(stream_id, initial, counts, n);
                    counts = counts.push(n);
                }
                drain_front(buffer, n);
                assert(buffer@ =~= initial.subrange(total(counts), initial.len() as int));
            },
            Err(_) => {
                break;
            },
        }
    }
    assert(conn_writable_by::<C>(stream_id, initial, buffer@));
    buffer.len() == 0
}

} // verus!
