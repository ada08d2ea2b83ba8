//! Reading messages from receive streams: each message is a frame made of
//! a two-byte message id, a two-byte length (both big-endian) and that many
//! bytes of serialized message.
use vstd::prelude::*;
use crate::interface::{RecvStreamMut, ErrorFatality, append_bytes, read_blocked, chained, recv_trace, read_bytes, delivered, lemma_chained_push, lemma_recv_trace_push};
use crate::headers::{be16, be16_value, be16_from_bytes, lemma_be16_value_roundtrip, HeaderStreamEvent, HeaderStreamEventType};
use crate::streams::{BevyStreamId, MismatchedStreamType};
use crate::connections::{BevyConnectionMut, BevyRecvStream, ConnectionMut};
use std::collections::VecDeque;

verus! {

/// The frame of message `id` with serialized bytes `payload`. The length
/// field holds the payload length modulo 65536.
pub open spec fn message_frame(id: u16, payload: Seq<u8>) -> Seq<u8> {
    be16(id) + be16((payload.len() % 65536) as u16) + payload
}

/// The length field of a frame that holds at least its four header bytes.
pub open spec fn frame_length_field(p: Seq<u8>) -> nat {
    p[2] as nat * 256 + p[3] as nat
}

/// `p` is exactly one whole frame.
pub open spec fn frame_complete(p: Seq<u8>) -> bool {
    p.len() >= 4 && p.len() == 4 + frame_length_field(p)
}

/// The message id of a frame.
pub open spec fn frame_id(p: Seq<u8>) -> u16 {
    be16_value(p[0], p[1])
}

/// The serialized message of a frame.
pub open spec fn frame_payload(p: Seq<u8>) -> Seq<u8> {
    p.subrange(4, p.len() as int)
}

/// How many bytes the next read may take: the rest of the frame header, or
/// the rest of the message once the header is complete.
pub open spec fn frame_missing(p: Seq<u8>) -> int {
    if p.len() < 4 {
        4 - p.len()
    } else {
        4 + frame_length_field(p) - p.len()
    }
}

/// A measure that decreases as a frame is read.
pub open spec fn frame_measure(p: Seq<u8>) -> int {
    if p.len() < 4 {
        65540 - p.len()
    } else {
        frame_missing(p)
    }
}

/// A message frame fits any payload shorter than 65536 bytes, reading it
/// yields the message it was made of, and no proper prefix of it is a whole
/// frame: a reader fed the frame yields the message exactly at its last byte.
pub proof fn law_frame_roundtrip(id: u16, payload: Seq<u8>)
    requires
        payload.len() < 65536,
    ensures
        frame_complete(message_frame(id, payload)),
        frame_id(message_frame(id, payload)) == id,
        frame_payload(message_frame(id, payload)) == payload,
        forall|k: int| 0 <= k < message_frame(id, payload).len() ==> !frame_complete(#[trigger] message_frame(id, payload).take(k)),
{
    let f = message_frame(id, payload);
    let n = payload.len() as u16;
    assert(n / 256 < 256 && n % 256 < 256);
    assert((n / 256) as nat * 256 + (n % 256) as nat == payload.len());
    assert(f[2] == (n / 256) as u8 && f[3] == (n % 256) as u8);
    assert(frame_length_field(f) == payload.len());
    assert(id / 256 < 256 && id % 256 < 256);
    assert(be16_value(f[0], f[1]) == id);
    assert(frame_payload(f) =~= payload);
    assert forall|k: int| 0 <= k < f.len() implies !frame_complete(#[trigger] f.take(k)) by {
        if k >= 4 {
            assert(f.take(k)[2] == f[2] && f.take(k)[3] == f[3]);
        }
    }
}

/// Why reading messages stopped for good.
#[derive(Clone, Copy, Debug, PartialEq, Eq)]
pub enum ReadMessageError {
    /// the stream failed while a message header was read
    FatalHeaderRead,
    /// the stream failed while a message body was read
    FatalBodyRead,
}

/// The partly read message of a stream.
pub enum ReadMessageState {
    /// reading the four header bytes
    ReadingHeader(Vec<u8>),
    /// reading the serialized message
    ReadingMessage { message_id: u16, message_length: u16, buffer: Vec<u8> },
}

impl ReadMessageState {
    /// The bytes of the current frame read so far.
    pub closed spec fn pending(&self) -> Seq<u8> {
        match self {
            ReadMessageState::ReadingHeader(b) => b@,
            ReadMessageState::ReadingMessage { message_id, message_length, buffer } => be16(*message_id) + be16(*message_length) + buffer@,
        }
    }

    /// The state holds part of a frame and waits for more.
    pub closed spec fn wf(&self) -> bool {
        match self {
            ReadMessageState::ReadingHeader(b) => b@.len() < 4,
            ReadMessageState::ReadingMessage { message_id, message_length, buffer } => buffer@.len() < *message_length,
        }
    }

    proof fn lemma_wf(&self)
        requires
            self.wf(),
        ensures
            !frame_complete(self.pending()),
            frame_missing(self.pending()) > 0,
            self.pending().len() >= 4 ==> self.pending().len() + frame_missing(self.pending()) <= 65539,
    {
        match self {
            ReadMessageState::ReadingHeader(b) => {},
            ReadMessageState::ReadingMessage { message_id, message_length, buffer } => {
                let p = self.pending();
                let l = *message_length;
                assert(l / 256 < 256 && l % 256 < 256);
                assert(p[2] == (l / 256) as u8 && p[3] == (l % 256) as u8);
                assert(frame_length_field(p) == l);
            },
        }
    }

    /// A state that waits for the first byte of a frame.
    pub fn new() -> (r: Self)
        ensures
            r.wf(),
            r.pending() == Seq::<u8>::empty(),
    {
        ReadMessageState::ReadingHeader(Vec::new())
    }

    /// How many bytes the next read may take.
    pub fn to_read(&self) -> (r: usize)
        requires
            self.wf(),
        ensures
            r == frame_missing(self.pending()),
            r > 0,
    {
        proof {
            self.lemma_wf();
        }
        match self {
            ReadMessageState::ReadingHeader(b) => 4 - b.len(),
            ReadMessageState::ReadingMessage { message_id, message_length, buffer } => {
                proof {
                    let p = self.pending();
                    let l = *message_length;
                    assert(l / 256 < 256 && l % 256 < 256);
                    assert(p[2] == (l / 256) as u8 && p[3] == (l % 256) as u8);
                }
                (*message_length as usize) - buffer.len()
            },
        }
    }

    /// Adds bytes read from the stream to the frame. When they complete it,
    /// the message id and serialized message are returned and the state
    /// waits for the next frame.
    pub fn receive(&mut self, bytes: &[u8]) -> (r: Option<(u16, Vec<u8>)>)
        requires
            old(self).wf(),
            bytes@.len() <= frame_missing(old(self).pending()),
        ensures
            final(self).wf(),
            frame_complete(old(self).pending() + bytes@) ==> final(self).pending() == Seq::<u8>::empty()
                && (r matches Some((id, m)) && id == frame_id(old(self).pending() + bytes@)
                && m@ == frame_payload(old(self).pending() + bytes@)),
            !frame_complete(old(self).pending() + bytes@) ==> (r is None) && final(self).pending() == old(self).pending() + bytes@,
    {
        proof {
            old(self).lemma_wf();
        }
        let ghost p = old(self).pending() + bytes@;
        let mut state = ReadMessageState::ReadingHeader(Vec::new());
        std::mem::swap(&mut state, self);
        match state {
            ReadMessageState::ReadingHeader(mut buffer) => {
                append_bytes(&mut buffer, bytes);
                assert(buffer@ == p);
                if buffer.len() < 4 {
                    *self = ReadMessageState::ReadingHeader(buffer);
                    return None;
                }
                let message_id = be16_from_bytes(buffer[0], buffer[1]);
                let message_length = be16_from_bytes(buffer[2], buffer[3]);
                proof {
                    lemma_be16_value_roundtrip(p[0], p[1]);
                    lemma_be16_value_roundtrip(p[2], p[3]);
                    assert(message_length as nat == frame_length_field(p));
                    assert(p =~= be16(message_id) + be16(message_length) + Seq::<u8>::empty());
                }
                if message_length == 0 {
                    *self = ReadMessageState::ReadingHeader(Vec::new());
                    let payload: Vec<u8> = Vec::new();
                    assert(payload@ =~= frame_payload(p));
                    Some((message_id, payload))
                } else {
                    *self = ReadMessageState::ReadingMessage { message_id, message_length, buffer: Vec::new() };
                    None
                }
            },
            ReadMessageState::ReadingMessage { message_id, message_length, mut buffer } => {
                let ghost q = old(self).pending();
                proof {
                    let l = message_length;
                    assert(l / 256 < 256 && l % 256 < 256);
                    assert(q[2] == (l / 256) as u8 && q[3] == (l % 256) as u8);
                    assert(frame_length_field(q) == l);
                    assert(p[2] == q[2] && p[3] == q[3]);
                    assert(frame_length_field(p) == l);
                    assert(id_bytes_hold(q, message_id));
                }
                append_bytes(&mut buffer, bytes);
                assert(p =~= be16(message_id) + be16(message_length) + buffer@);
                if buffer.len() == message_length as usize {
                    *self = ReadMessageState::ReadingHeader(Vec::new());
                    proof {
                        lemma_be16_value_roundtrip(p[0], p[1]);
                        assert(frame_payload(p) =~= buffer@);
                    }
                    Some((message_id, buffer))
                } else {
                    *self = ReadMessageState::ReadingMessage { message_id, message_length, buffer };
                    None
                }
            },
        }
    }

    /// Reads from the stream until a whole message is read (returned with its
    /// id), the stream is blocked or gives no bytes (`None`), or the stream
    /// fails for good (an error). Each read takes at most what the current
    /// frame still misses.
    #[verifier::spinoff_prover]
    #[verifier::rlimit(80)]
    pub fn read<R: RecvStreamMut>(&mut self, stream: &mut R) -> (r: Result<Option<(u16, Vec<u8>)>, ReadMessageError>)
        requires
            old(self).wf(),
        ensures
            final(self).wf(),
            r matches Ok(Some((id, m))) ==> (m@.len() < 65536 && old(self).pending().is_prefix_of(message_frame(id, m@))
                && final(self).pending() == Seq::<u8>::empty()),
            !(r matches Ok(Some(_))) ==> old(self).pending().is_prefix_of(final(self).pending()),
            r matches Err(e) ==> e == read_error_at(final(self).pending()),
            exists|t: Seq<(R, R, usize, Result<Vec<u8>, R::ReadError>)>|
                #[trigger] chained(t, *old(stream), *final(stream)) && recv_trace(t)
                && message_read(old(self).pending(), final(self).pending(), t, r),
    {
        let ghost mut t: Seq<(R, R, usize, Result<Vec<u8>, R::ReadError>)> = Seq::empty();
        assert(old(self).pending() + read_bytes(t) =~= old(self).pending());
        proof {
            reveal(reads_asked);
            reveal(all_delivered);
        }
        loop
            invariant
                self.wf(),
                old(self).pending().is_prefix_of(self.pending()),
                chained(t, *old(stream), *stream),
                recv_trace(t),
                self.pending() == old(self).pending() + read_bytes(t),
                reads_asked(old(self).pending(), t),
                all_delivered(t),
            decreases frame_measure(self.pending()),
        {
            proof {
                self.lemma_wf();
            }
            let to_read = self.to_read();
            let ghost before = *stream;
            let outcome = stream.recv(to_read);
            let ghost step = (before, *stream, to_read, outcome);
            proof {
                lemma_chained_push(t, *old(stream), step);
                assert(frame_missing(self.pending()) as usize == to_read);
                lemma_reads_asked_push(old(self).pending(), t, step);
                lemma_all_delivered_push(t, step);
                lemma_recv_trace_push::<R>(t, step);
                t = t.push(step);
            }
            match outcome {
                Err(e) => {
                    proof {
                        assert(self.pending() =~= old(self).pending() + read_bytes(t));
                    }
                    let r = if e.is_fatal() {
                        Err(self.fatal_error())
                    } else {
                        Ok(None)
                    };
                    assert(message_read(old(self).pending(), self.pending(), t, r));
                    return r;
                },
                Ok(bytes) => {
                    if bytes.len() == 0 {
                        proof {
                            assert(self.pending() =~= old(self).pending() + read_bytes(t));
                        }
                        return Ok(None);
                    }
                    let ghost before_p = self.pending();
                    match self.receive(bytes.as_slice()) {
                        Some((id, m)) => {
                            proof {
                                let p = before_p + bytes@;
                                assert(p =~= old(self).pending() + read_bytes(t));
                                lemma_whole_frame(p);
                                assert(p =~= message_frame(id, m@));
                                assert(old(self).pending().is_prefix_of(p));
                                assert(message_read(old(self).pending(), self.pending(), t, Ok(Some((id, m)))));
                                assert(chained(t, *old(stream), *stream));
                            }
                            return Ok(Some((id, m)));
                        },
                        None => {
                            proof {
                                let p = before_p + bytes@;
                                assert(p =~= old(self).pending() + read_bytes(t));
                                assert(old(self).pending().is_prefix_of(p));
                                if before_p.len() >= 4 {
                                    assert(p[2] == before_p[2] && p[3] == before_p[3]);
                                }
                            }
                        },
                    }
                },
            }
        }
    }

    /// The error of a stream that failed in the current phase.
    fn fatal_error(&self) -> (r: ReadMessageError)
        requires
            self.wf(),
        ensures
            r == read_error_at(self.pending()),
    {
        match self {
            ReadMessageState::ReadingHeader(_) => ReadMessageError::FatalHeaderRead,
            ReadMessageState::ReadingMessage { .. } => ReadMessageError::FatalBodyRead,
        }
    }
}

/// Each read of `t` asked for what the frame still missed after `start` and
/// the bytes read before it.
#[verifier::opaque]
pub open spec fn reads_asked<T, E>(start: Seq<u8>, t: Seq<(T, T, usize, Result<Vec<u8>, E>)>) -> bool {
    forall|i: int| 0 <= i < t.len() ==> #[trigger] t[i].2 == frame_missing(start + read_bytes(t.take(i)))
}

/// Every read of `t` gave bytes.
#[verifier::opaque]
pub open spec fn all_delivered<T, E>(t: Seq<(T, T, usize, Result<Vec<u8>, E>)>) -> bool {
    forall|i: int| #![trigger t[i]] 0 <= i < t.len() ==> delivered(t[i].3)
}

proof fn lemma_reads_asked_push<T, E>(start: Seq<u8>, t: Seq<(T, T, usize, Result<Vec<u8>, E>)>, step: (T, T, usize, Result<Vec<u8>, E>))
    requires
        reads_asked(start, t),
        step.2 == frame_missing(start + read_bytes(t)),
    ensures
        reads_asked(start, t.push(step)),
        read_bytes(t.push(step)) == read_bytes(t) + match step.3 {
            Ok(bytes) => bytes@,
            Err(_) => Seq::<u8>::empty(),
        },
{
    reveal(reads_asked);
    let t2 = t.push(step);
    assert(t2.drop_last() =~= t);
    assert(t2.take(t.len() as int) =~= t);
    assert forall|i: int| 0 <= i < t2.len() implies #[trigger] t2[i].2 == frame_missing(start + read_bytes(t2.take(i))) by {
        if i < t.len() {
            assert(t2[i] == t[i]);
            assert(t2.take(i) =~= t.take(i));
        }
    }
}

proof fn lemma_all_delivered_push<T, E>(t: Seq<(T, T, usize, Result<Vec<u8>, E>)>, step: (T, T, usize, Result<Vec<u8>, E>))
    requires
        all_delivered(t),
    ensures
        all_delivered(t.push(step).drop_last()),
        delivered(step.3) ==> all_delivered(t.push(step)),
{
    reveal(all_delivered);
    let t2 = t.push(step);
    assert(t2.drop_last() =~= t);
    assert forall|i: int| #![trigger t2[i]] 0 <= i < t2.len() && delivered(step.3) implies delivered(t2[i].3) by {
        if i < t.len() {
            assert(t2[i] == t[i]);
        }
    }
}

/// What a read did, by the run of reads `t` it made: each asked for what the
/// frame still missed after `start` and the bytes read before it; every read
/// but the last gave bytes; the last one gave the byte that completed the
/// frame (the message returned is that frame's), gave nothing (`Ok(None)`),
/// or failed for good (an error). Unless a message was returned, `end` holds
/// `start` followed by every byte read.
pub open spec fn message_read<T, E: ErrorFatality>(
    start: Seq<u8>,
    end: Seq<u8>,
    t: Seq<(T, T, usize, Result<Vec<u8>, E>)>,
    r: Result<Option<(u16, Vec<u8>)>, ReadMessageError>,
) -> bool {
    let p = start + read_bytes(t);
    &&& reads_asked(start, t)
    &&& all_delivered(t.drop_last())
    &&& t.len() > 0
    &&& match r {
        Ok(Some((id, m))) => delivered(t[t.len() - 1].3) && frame_complete(p) && id == frame_id(p) && m@ == frame_payload(p)
            && end == Seq::<u8>::empty(),
        Ok(None) => read_blocked(t[t.len() - 1].3) && end == p,
        Err(_) => (t[t.len() - 1].3 matches Err(e) && e.fatal()) && end == p,
    }
}

/// The error of a stream that failed while the bytes `pending` of a frame
/// were read: the header was being read while it is incomplete.
pub open spec fn read_error_at(pending: Seq<u8>) -> ReadMessageError {
    if pending.len() < 4 {
        ReadMessageError::FatalHeaderRead
    } else {
        ReadMessageError::FatalBodyRead
    }
}

spec fn id_bytes_hold(q: Seq<u8>, id: u16) -> bool {
    q[0] == (id / 256) as u8 && q[1] == (id % 256) as u8
}

/// A whole frame is the frame of its own id and payload.
proof fn lemma_whole_frame(p: Seq<u8>)
    requires
        frame_complete(p),
    ensures
        frame_payload(p).len() < 65536,
        p == message_frame(frame_id(p), frame_payload(p)),
{
    let l = frame_length_field(p);
    assert(p[2] < 256 && p[3] < 256);
    assert(l < 65536);
    lemma_be16_value_roundtrip(p[0], p[1]);
    let n = (frame_payload(p).len() % 65536) as u16;
    assert(n as nat == l);
    assert(be16_value(p[2], p[3]) == n);
    lemma_be16_value_roundtrip(p[2], p[3]);
    assert(p =~= message_frame(frame_id(p), frame_payload(p)));
}

/// The queue of message id `id` in `queues`; a missing queue is empty.
pub open spec fn queue_of(queues: Seq<Seq<Seq<u8>>>, id: int) -> Seq<Seq<u8>> {
    if 0 <= id < queues.len() {
        queues[id]
    } else {
        Seq::empty()
    }
}

/// The queues after `message` of id `id` was received: it joins the back of
/// its queue, and queues up to its id exist.
pub open spec fn after_push(queues: Seq<Seq<Seq<u8>>>, id: int, message: Seq<u8>) -> Seq<Seq<Seq<u8>>> {
    Seq::new(
        if id + 1 > queues.len() { (id + 1) as nat } else { queues.len() },
        |j: int| if j == id { queue_of(queues, id).push(message) } else { queue_of(queues, j) },
    )
}

/// The queues after the oldest message of id `id` was taken.
pub open spec fn after_poll(queues: Seq<Seq<Seq<u8>>>, id: int) -> Seq<Seq<Seq<u8>>> {
    if queue_of(queues, id).len() > 0 {
        queues.update(id, queues[id].drop_first())
    } else {
        queues
    }
}

/// The oldest received message of id `id`, if any.
pub open spec fn oldest(queues: Seq<Seq<Seq<u8>>>, id: int) -> Option<Seq<u8>> {
    if queue_of(queues, id).len() > 0 {
        Some(queue_of(queues, id)[0])
    } else {
        None
    }
}

/// Serialized messages received on a connection, queued by message id.
pub struct ReceivedSerializedMessages {
    buffers: Vec<VecDeque<Vec<u8>>>,
}

pub open spec fn queue_model(q: VecDeque<Vec<u8>>) -> Seq<Seq<u8>> {
    q@.map_values(|m: Vec<u8>| m@)
}

impl ReceivedSerializedMessages {
    /// The queue of each message id, by id.
    pub closed spec fn queues(&self) -> Seq<Seq<Seq<u8>>> {
        self.buffers@.map_values(|q: VecDeque<Vec<u8>>| queue_model(q))
    }

    /// No message received yet.
    pub fn new() -> (r: Self)
        ensures
            r.queues() == Seq::<Seq<Seq<u8>>>::empty(),
    {
        let r = ReceivedSerializedMessages { buffers: Vec::new() };
        assert(r.queues() =~= Seq::<Seq<Seq<u8>>>::empty());
        r
    }

    /// Queues a received message behind the earlier ones of its id.
    pub fn push_message(&mut self, message_id: u16, message: Vec<u8>)
        ensures
            final(self).queues() == after_push(old(self).queues(), message_id as int, message@),
    {
        let index = message_id as usize;
        while self.buffers.len() <= index
            invariant
                index == message_id as int,
                self.buffers@.len() == old(self).buffers@.len() || self.buffers@.len() <= index + 1,
                forall|j: int| 0 <= j < self.buffers@.len() ==> #[trigger] queue_of(self.queues(), j) == queue_of(old(self).queues(), j),
                self.buffers@.len() >= old(self).buffers@.len(),
            decreases index + 1 - self.buffers@.len(),
        {
            let ghost before = self.queues();
            self.buffers.push(VecDeque::new());
            proof {
                assert forall|j: int| 0 <= j < self.buffers@.len() implies #[trigger] queue_of(self.queues(), j) == queue_of(old(self).queues(), j) by {
                    if j < before.len() {
                        assert(queue_of(before, j) == queue_of(old(self).queues(), j));
                    } else {
                        assert(queue_model(self.buffers@[j]) =~= Seq::<Seq<u8>>::empty());
                    }
                }
            }
        }
        let ghost mid = self.queues();
        let mut queue = self.buffers.remove(index);
        let ghost m = message@;
        queue.push_back(message);
        let ghost q = queue_model(queue);
        self.buffers.insert(index, queue);
        proof {
            assert(q =~= queue_of(mid, index as int).push(m));
            let target = after_push(old(self).queues(), message_id as int, m);
            assert(self.queues().len() == target.len());
            assert forall|j: int| 0 <= j < target.len() implies #[trigger] self.queues()[j] == target[j] by {
                if j == index as int {
                } else {
                    assert(queue_of(mid, j) == queue_of(old(self).queues(), j));
                }
            }
            assert(self.queues() =~= target);
        }
    }

    /// Takes the oldest received message of id `message_id`, if any.
    pub fn poll_message_received(&mut self, message_id: u16) -> (r: Option<Vec<u8>>)
        ensures
            final(self).queues() == after_poll(old(self).queues(), message_id as int),
            match r {
                Some(m) => oldest(old(self).queues(), message_id as int) == Some(m@),
                None => oldest(old(self).queues(), message_id as int) is None,
            },
    {
        let index = message_id as usize;
        if index >= self.buffers.len() {
            return None;
        }
        let mut queue = self.buffers.remove(index);
        let r = queue.pop_front();
        let ghost q = queue_model(queue);
        self.buffers.insert(index, queue);
        proof {
            if r is Some {
                assert(q =~= old(self).queues()[index as int].drop_first());
                assert(self.queues() =~= after_poll(old(self).queues(), message_id as int));
            } else {
                assert(self.queues() =~= old(self).queues());
            }
        }
        r
    }
}

/// Received messages come out of their id's queue in the order they were
/// received, and receiving or taking messages of one id leaves the other
/// ids' queues as they were.
pub proof fn law_received_messages_fifo(queues: Seq<Seq<Seq<u8>>>, id: int, other: int, first: Seq<u8>, second: Seq<u8>)
    requires
        0 <= id,
        queue_of(queues, id).len() == 0,
        other != id,
    ensures
        oldest(after_push(after_push(queues, id, first), id, second), id) == Some(first),
        oldest(after_poll(after_push(after_push(queues, id, first), id, second), id), id) == Some(second),
        queue_of(after_push(queues, id, first), other) == queue_of(queues, other),
        queue_of(after_poll(after_push(queues, id, first), id), other) == queue_of(queues, other),
{
    let q1 = after_push(queues, id, first);
    let q2 = after_push(q1, id, second);
    assert(queue_of(q1, id) =~= seq![first]);
    assert(queue_of(q2, id) =~= seq![first, second]);
    assert(queue_of(after_poll(q2, id), id) =~= seq![second]);
    assert(queue_of(after_poll(q1, id), other) == queue_of(q1, other));
}

/// What a read gives back of a write: when the bytes read from the front of
/// a stream (`p`, the bytes `read` framed its message from) start a stream
/// that carries the frame of `id` and `payload` followed by anything, and
/// they form a whole frame, they are exactly that frame, and the message
/// read is `id` with `payload`.
pub proof fn law_read_returns_the_sent_message(p: Seq<u8>, id: u16, payload: Seq<u8>, rest: Seq<u8>)
    requires
        payload.len() < 65536,
        frame_complete(p),
        p.is_prefix_of(message_frame(id, payload) + rest),
    ensures
        p == message_frame(id, payload),
        frame_id(p) == id,
        frame_payload(p) == payload,
{
    let f = message_frame(id, payload);
    law_frame_roundtrip(id, payload);
    let s = f + rest;
    assert(p[2] == s[2] && p[3] == s[3]);
    assert(s[2] == f[2] && s[3] == f[3]);
    assert(frame_length_field(p) == frame_length_field(f));
    assert(p.len() == f.len());
    assert(p =~= f) by {
        assert forall|k: int| 0 <= k < p.len() implies p[k] == f[k] by {
            assert(p[k] == s[k]);
        }
    }
}

/// A read that starts a frame, made on a stream whose reads gave bytes of
/// what was sent (a message's frame followed by anything), returns that
/// message; a read that stops before keeps every byte its reads gave.
pub proof fn law_read_of_sent_bytes<T, E: ErrorFatality>(
    t: Seq<(T, T, usize, Result<Vec<u8>, E>)>,
    end: Seq<u8>,
    r: Result<Option<(u16, Vec<u8>)>, ReadMessageError>,
    id: u16,
    payload: Seq<u8>,
    rest: Seq<u8>,
)
    requires
        payload.len() < 65536,
        message_read(Seq::<u8>::empty(), end, t, r),
        read_bytes(t).is_prefix_of(message_frame(id, payload) + rest),
    ensures
        r matches Ok(Some((id2, m))) ==> id2 == id && m@ == payload,
        !(r matches Ok(Some(_))) ==> end == read_bytes(t),
{
    let p = Seq::<u8>::empty() + read_bytes(t);
    assert(p =~= read_bytes(t));
    if r matches Ok(Some((id2, m))) {
        law_read_returns_the_sent_message(p, id, payload, rest);
    }
}

/// The frames of `messages`, one after another.
pub open spec fn frames_of(messages: Seq<(u16, Seq<u8>)>) -> Seq<u8>
    decreases messages.len(),
{
    if messages.len() == 0 {
        Seq::empty()
    } else {
        message_frame(messages[0].0, messages[0].1) + frames_of(messages.drop_first())
    }
}

/// The byte runs `runs`, one after another.
pub open spec fn joined(runs: Seq<Seq<u8>>) -> Seq<u8>
    decreases runs.len(),
{
    if runs.len() == 0 {
        Seq::empty()
    } else {
        runs[0] + joined(runs.drop_first())
    }
}

/// Frames read one after another from a stream that carries the frames of
/// `messages` (whatever follows them) are those frames, in order: the `j`-th
/// message read is the `j`-th message written, however the bytes were cut
/// into reads.
pub proof fn law_reads_return_the_sent_messages_in_order(messages: Seq<(u16, Seq<u8>)>, frames: Seq<Seq<u8>>, rest: Seq<u8>)
    requires
        forall|j: int| 0 <= j < messages.len() ==> (#[trigger] messages[j]).1.len() < 65536,
        frames.len() <= messages.len(),
        forall|j: int| 0 <= j < frames.len() ==> frame_complete(#[trigger] frames[j]),
        joined(frames).is_prefix_of(frames_of(messages) + rest),
    ensures
        forall|j: int| 0 <= j < frames.len() ==> #[trigger] frames[j] == message_frame(messages[j].0, messages[j].1),
    decreases frames.len(),
{
    if frames.len() > 0 {
        let f0 = message_frame(messages[0].0, messages[0].1);
        let tail = frames_of(messages.drop_first()) + rest;
        assert(frames_of(messages) + rest =~= f0 + tail);
        let p = frames[0];
        assert(p.is_prefix_of(f0 + tail)) by {
            assert(joined(frames) == p + joined(frames.drop_first()));
            assert forall|k: int| 0 <= k < p.len() implies p[k] == (f0 + tail)[k] by {
                assert(p[k] == joined(frames)[k]);
            }
        }
        law_read_returns_the_sent_message(p, messages[0].0, messages[0].1, tail);
        let ms = messages.drop_first();
        let fs = frames.drop_first();
        assert forall|j: int| 0 <= j < ms.len() implies (#[trigger] ms[j]).1.len() < 65536 by {
            assert(ms[j] == messages[j + 1]);
        }
        assert forall|j: int| 0 <= j < fs.len() implies frame_complete(#[trigger] fs[j]) by {
            assert(fs[j] == frames[j + 1]);
        }
        assert(joined(fs).is_prefix_of(frames_of(ms) + rest)) by {
            assert(joined(frames) == p + joined(fs));
            assert forall|k: int| 0 <= k < joined(fs).len() implies joined(fs)[k] == (frames_of(ms) + rest)[k] by {
                assert(joined(fs)[k] == joined(frames)[k + p.len()]);
                assert((f0 + tail)[k + p.len()] == tail[k]);
            }
        }
        law_reads_return_the_sent_messages_in_order(ms, fs, rest);
        assert forall|j: int| 0 <= j < frames.len() implies #[trigger] frames[j] == message_frame(messages[j].0, messages[j].1) by {
            if j > 0 {
                assert(frames[j] == fs[j - 1]);
                assert(messages[j] == ms[j - 1]);
            }
        }
    }
}

/// The queues after the operations `ops` in order: `(true, id, m)` receives
/// message `m` of id `id`, `(false, id, _)` takes the oldest message of id
/// `id`.
pub open spec fn queues_after(queues: Seq<Seq<Seq<u8>>>, ops: Seq<(bool, int, Seq<u8>)>) -> Seq<Seq<Seq<u8>>>
    decreases ops.len(),
{
    if ops.len() == 0 {
        queues
    } else {
        let before = queues_after(queues, ops.drop_last());
        let op = ops.last();
        if op.0 {
            after_push(before, op.1, op.2)
        } else {
            after_poll(before, op.1)
        }
    }
}

/// The messages of id `id` that `ops` received, in order.
pub open spec fn received_of(ops: Seq<(bool, int, Seq<u8>)>, id: int) -> Seq<Seq<u8>>
    decreases ops.len(),
{
    if ops.len() == 0 {
        Seq::empty()
    } else {
        let op = ops.last();
        if op.0 && op.1 == id {
            received_of(ops.drop_last(), id).push(op.2)
        } else {
            received_of(ops.drop_last(), id)
        }
    }
}

/// The messages of id `id` that the takes of `ops` got, in order.
pub open spec fn taken_of(queues: Seq<Seq<Seq<u8>>>, ops: Seq<(bool, int, Seq<u8>)>, id: int) -> Seq<Seq<u8>>
    decreases ops.len(),
{
    if ops.len() == 0 {
        Seq::empty()
    } else {
        let op = ops.last();
        let before = queues_after(queues, ops.drop_last());
        if !op.0 && op.1 == id && oldest(before, id) is Some {
            taken_of(queues, ops.drop_last(), id).push(oldest(before, id)->0)
        } else {
            taken_of(queues, ops.drop_last(), id)
        }
    }
}

proof fn lemma_other_queue_kept(queues: Seq<Seq<Seq<u8>>>, id: int, other: int, message: Seq<u8>)
    requires
        0 <= id,
        0 <= other,
        id != other,
    ensures
        queue_of(after_push(queues, other, message), id) == queue_of(queues, id),
        queue_of(after_poll(queues, other), id) == queue_of(queues, id),
{
}

/// Whatever the order in which messages of any ids are received and taken,
/// the messages of one id that were taken, followed by those still queued,
/// are exactly the messages of that id that were received, in order.
pub proof fn law_received_messages_fifo_interleaved(queues: Seq<Seq<Seq<u8>>>, ops: Seq<(bool, int, Seq<u8>)>, id: int)
    requires
        0 <= id,
        queue_of(queues, id).len() == 0,
        forall|i: int| 0 <= i < ops.len() ==> 0 <= (#[trigger] ops[i]).1,
    ensures
        received_of(ops, id) == taken_of(queues, ops, id) + queue_of(queues_after(queues, ops), id),
    decreases ops.len(),
{
    if ops.len() == 0 {
        assert(queue_of(queues, id) =~= Seq::<Seq<u8>>::empty());
        assert(Seq::<Seq<u8>>::empty() + queue_of(queues, id) =~= Seq::<Seq<u8>>::empty());
    } else {
        let rest = ops.drop_last();
        assert forall|i: int| 0 <= i < rest.len() implies 0 <= (#[trigger] rest[i]).1 by {
            assert(rest[i] == ops[i]);
        }
        law_received_messages_fifo_interleaved(queues, rest, id);
        let op = ops.last();
        assert(op == ops[ops.len() - 1]);
        let before = queues_after(queues, rest);
        let q = queue_of(before, id);
        let taken = taken_of(queues, rest, id);
        if op.1 != id {
            lemma_other_queue_kept(before, id, op.1, op.2);
        } else if op.0 {
            assert(queue_of(after_push(before, id, op.2), id) =~= q.push(op.2));
            assert(taken + q.push(op.2) =~= (taken + q).push(op.2));
        } else if q.len() > 0 {
            assert(queue_of(after_poll(before, id), id) =~= q.drop_first());
            assert(taken.push(q[0]) + q.drop_first() =~= taken + q);
        }
    }
}

/// Every queue of `after` starts with the queue of the same id in `before`:
/// messages were only added.
/// The queues after the messages `msgs` were received, one after the other.
pub open spec fn after_pushes(queues: Seq<Seq<Seq<u8>>>, msgs: Seq<(u16, Seq<u8>)>) -> Seq<Seq<Seq<u8>>>
    decreases msgs.len(),
{
    if msgs.len() == 0 {
        queues
    } else {
        after_push(after_pushes(queues, msgs.drop_last()), msgs.last().0 as int, msgs.last().1)
    }
}

/// A read of message stream `id`: the stream and what the read gave.
pub type MessageRead = (BevyStreamId, Result<Option<(u16, Vec<u8>)>, ReadMessageError>);

/// `res` is what a call of `read_message` gave on the message stream `id`,
/// read through a receive stream handle of type `R`.
pub open spec fn read_on_stream<R: RecvStreamMut>(id: BevyStreamId, res: Result<Option<(u16, Vec<u8>)>, ReadMessageError>) -> bool {
    exists|s: &mut ConnectionMessageStreams, index: usize, st: &mut R|
        #[trigger] call_ensures(ConnectionMessageStreams::read_message::<R>, (s, index, st), res)
        && index < (*s).stream_ids().len() && (*s).stream_ids()[index as int] == id
}

/// The messages that the reads `reads` gave, in order.
pub open spec fn messages_of(reads: Seq<MessageRead>) -> Seq<(u16, Seq<u8>)>
    decreases reads.len(),
{
    if reads.len() == 0 {
        Seq::empty()
    } else {
        messages_of(reads.drop_last()) + match reads.last().1 {
            Ok(Some((id, m))) => seq![(id, m@)],
            _ => Seq::empty(),
        }
    }
}

/// How many of the reads `reads` of stream `id` gave a message.
pub open spec fn messages_read_on(reads: Seq<MessageRead>, id: BevyStreamId) -> nat
    decreases reads.len(),
{
    if reads.len() == 0 {
        0
    } else {
        messages_read_on(reads.drop_last(), id) + if reads.last().0 == id && reads.last().1 matches Ok(Some(_)) { 1nat } else { 0nat }
    }
}

/// The reading of stream `id` in `reads` came to its end: a read of it
/// found no whole message, or `max` of its reads gave a message.
pub open spec fn reading_ended(reads: Seq<MessageRead>, id: BevyStreamId, max: usize) -> bool {
    ||| exists|k: int| 0 <= k < reads.len() && #[trigger] reads[k] == (id, Ok::<Option<(u16, Vec<u8>)>, ReadMessageError>(None))
    ||| messages_read_on(reads, id) >= max
}

/// Each read of `reads` is a call of `read_message` on its stream through
/// handles of type `R`, and the queues went from `before` to `after` by
/// receiving the messages they gave, each once, in order.
pub open spec fn reads_queued<R: RecvStreamMut>(reads: Seq<MessageRead>, before: Seq<Seq<Seq<u8>>>, after: Seq<Seq<Seq<u8>>>) -> bool {
    &&& forall|k: int| 0 <= k < reads.len() ==> read_on_stream::<R>((#[trigger] reads[k]).0, reads[k].1)
    &&& after_pushes(before, messages_of(reads)) == after
}

/// One more read keeps the reading of every stream ended that had ended.
proof fn lemma_reading_ended_push(reads: Seq<MessageRead>, x: MessageRead, id: BevyStreamId, max: usize)
    requires
        reading_ended(reads, id, max),
    ensures
        reading_ended(reads.push(x), id, max),
{
    assert(reads.push(x).drop_last() =~= reads);
    if exists|k: int| 0 <= k < reads.len() && #[trigger] reads[k] == (id, Ok::<Option<(u16, Vec<u8>)>, ReadMessageError>(None)) {
        let k = choose|k: int| 0 <= k < reads.len() && #[trigger] reads[k] == (id, Ok::<Option<(u16, Vec<u8>)>, ReadMessageError>(None));
        assert(reads.push(x)[k] == reads[k]);
    }
}

/// The message stream `id` is still in `ids`, or the connection reported
/// that it has no such receive stream.
pub open spec fn stream_kept_or_gone<C: ConnectionMut>(ids: Seq<BevyStreamId>, id: BevyStreamId) -> bool {
    ||| ids.contains(id)
    ||| exists|m: &mut BevyConnectionMut<C>, got| #[trigger] call_ensures(BevyConnectionMut::<C>::recv_stream, (m, id), got)
        && got matches Ok(None)
}

pub open spec fn queues_grow(before: Seq<Seq<Seq<u8>>>, after: Seq<Seq<Seq<u8>>>) -> bool {
    forall|id: int| 0 <= id ==> #[trigger] queue_of(before, id).is_prefix_of(queue_of(after, id))
}

proof fn lemma_push_grows(before: Seq<Seq<Seq<u8>>>, mid: Seq<Seq<Seq<u8>>>, id: int, message: Seq<u8>)
    requires
        queues_grow(before, mid),
        0 <= id,
    ensures
        queues_grow(before, after_push(mid, id, message)),
{
    let after = after_push(mid, id, message);
    assert forall|j: int| 0 <= j implies #[trigger] queue_of(before, j).is_prefix_of(queue_of(after, j)) by {
        let a = queue_of(before, j);
        let b = queue_of(mid, j);
        assert(a.is_prefix_of(b));
        if j == id {
            assert(queue_of(after, j) == b.push(message));
            assert(a =~= b.push(message).subrange(0, a.len() as int)) by {
                assert(a =~= b.subrange(0, a.len() as int));
            }
        } else {
            assert(queue_of(after, j) == b);
        }
    }
}

/// Deserialized messages of one type received on a connection, oldest first.
pub struct ReceivedMessages<T> {
    messages: VecDeque<T>,
}

impl<T> ReceivedMessages<T> {
    /// The queued messages, oldest first.
    pub closed spec fn queued(&self) -> Seq<T> {
        self.messages@
    }

    /// No message yet.
    pub fn new() -> (r: Self)
        ensures
            r.queued() == Seq::<T>::empty(),
    {
        ReceivedMessages { messages: VecDeque::new() }
    }

    /// Queues a deserialized message.
    pub fn push(&mut self, message: T)
        ensures
            final(self).queued() == old(self).queued().push(message),
    {
        self.messages.push_back(message);
    }

    /// Takes all queued messages, oldest first.
    pub fn drain(&mut self) -> (r: Vec<T>)
        ensures
            r@ == old(self).queued(),
            final(self).queued() == Seq::<T>::empty(),
    {
        let mut r = Vec::new();
        while self.messages.len() > 0
            invariant
                r@ + self.messages@ == old(self).queued(),
            decreases self.messages@.len(),
        {
            let ghost before = self.messages@;
            match self.messages.pop_front() {
                Some(m) => {
                    r.push(m);
                    assert(r@ + self.messages@ =~= old(self).queued());
                },
                None => {},
            }
        }
        assert(r@ =~= old(self).queued());
        r
    }

    /// Takes the oldest queued message, if any.
    pub fn pop(&mut self) -> (r: Option<T>)
        ensures
            old(self).queued().len() == 0 ==> (r is None) && final(self).queued() == old(self).queued(),
            old(self).queued().len() > 0 ==> r == Some(old(self).queued()[0]) && final(self).queued() == old(self).queued().drop_first(),
    {
        let r = self.messages.pop_front();
        proof {
            if old(self).queued().len() > 0 {
                assert(self.messages@ =~= old(self).queued().drop_first());
            }
        }
        r
    }
}

/// Put on an endpoint: the stream header that marks message streams.
pub struct EndpointMessagingHeader {
    pub header: u16,
}

/// Whether a header stream event is a new receive stream that carries
/// messages, given the endpoint's message stream header.
pub fn is_message_stream(event: &HeaderStreamEvent, header: u16) -> (r: bool)
    ensures
        r == (event.event_type == HeaderStreamEventType::NewRecvStream(header)),
{
    match event.event_type {
        HeaderStreamEventType::NewRecvStream(incoming) => incoming == header,
        _ => false,
    }
}

/// The message streams of a connection, each with its partly read message.
pub struct ConnectionMessageStreams {
    streams: Vec<(BevyStreamId, ReadMessageState)>,
}

impl ConnectionMessageStreams {
    /// The streams, in the order they arrived.
    pub closed spec fn stream_ids(&self) -> Seq<BevyStreamId> {
        self.streams@.map_values(|e: (BevyStreamId, ReadMessageState)| e.0)
    }

    /// The bytes of the frame each stream is reading, read so far.
    pub closed spec fn frames(&self) -> Seq<Seq<u8>> {
        self.streams@.map_values(|e: (BevyStreamId, ReadMessageState)| e.1.pending())
    }

    /// Every stream holds part of a frame.
    pub closed spec fn wf(&self) -> bool {
        forall|i: int| 0 <= i < self.streams@.len() ==> (#[trigger] self.streams@[i]).1.wf()
    }

    /// No message stream yet.
    pub fn new() -> (r: Self)
        ensures
            r.wf(),
            r.stream_ids() == Seq::<BevyStreamId>::empty(),
            r.frames() == Seq::<Seq<u8>>::empty(),
    {
        let r = ConnectionMessageStreams { streams: Vec::new() };
        assert(r.stream_ids() =~= Seq::<BevyStreamId>::empty());
        assert(r.frames() =~= Seq::<Seq<u8>>::empty());
        r
    }

    /// Takes a stream event: a new receive stream with the message header
    /// becomes a message stream with nothing read yet.
    pub fn receive_stream(&mut self, event: &HeaderStreamEvent, header: u16) -> (r: bool)
        requires
            old(self).wf(),
        ensures
            final(self).wf(),
            r == (event.event_type == HeaderStreamEventType::NewRecvStream(header)),
            r ==> final(self).stream_ids() == old(self).stream_ids().push(event.stream_id),
            r ==> final(self).frames() == old(self).frames().push(Seq::<u8>::empty()),
            !r ==> final(self).stream_ids() == old(self).stream_ids() && final(self).frames() == old(self).frames(),
    {
        if is_message_stream(event, header) {
            self.streams.push((event.stream_id, ReadMessageState::new()));
            assert(self.stream_ids() =~= old(self).stream_ids().push(event.stream_id));
            assert(self.frames() =~= old(self).frames().push(Seq::<u8>::empty()));
            true
        } else {
            false
        }
    }

    /// The number of message streams.
    pub fn len(&self) -> (r: usize)
        ensures
            r == self.stream_ids().len(),
    {
        self.streams.len()
    }

    /// The id of message stream `index`.
    pub fn stream_id_at(&self, index: usize) -> (r: BevyStreamId)
        requires
            index < self.stream_ids().len(),
        ensures
            r == self.stream_ids()[index as int],
    {
        self.streams[index].0
    }

    /// Forgets message stream `index`, whose stream no longer exists.
    pub fn drop_stream(&mut self, index: usize)
        requires
            old(self).wf(),
            index < old(self).stream_ids().len(),
        ensures
            final(self).wf(),
            final(self).stream_ids() == old(self).stream_ids().remove(index as int),
            final(self).frames() == old(self).frames().remove(index as int),
    {
        self.streams.remove(index);
        assert(self.stream_ids() =~= old(self).stream_ids().remove(index as int));
        assert(self.frames() =~= old(self).frames().remove(index as int));
    }

    /// Reads the messages that the message streams have ready on
    /// `connection`, at most `max_per_stream` from each stream, and queues
    /// each by its id, in the order read. Streams that the connection no
    /// longer has are forgotten. A stream that fails for good stops the
    /// reading with an error.
    pub fn read_messages<'a, C: ConnectionMut>(&mut self, connection: &'a mut BevyConnectionMut<C>, received: &mut ReceivedSerializedMessages, max_per_stream: usize) -> (r: Result<(), ReadMessageError>)
        requires
            old(self).wf(),
            forall|i: int| 0 <= i < old(self).stream_ids().len() ==> (#[trigger] old(self).stream_ids()[i]).kind == old(connection).spec_kind(),
        ensures
            final(self).wf(),
            final(connection).spec_kind() == old(connection).spec_kind(),
            forall|i: int| 0 <= i < final(self).stream_ids().len() ==> (#[trigger] final(self).stream_ids()[i]).kind == old(connection).spec_kind(),
            forall|i: int| 0 <= i < final(self).stream_ids().len() ==> old(self).stream_ids().contains(#[trigger] final(self).stream_ids()[i]),
            final(self).stream_ids().len() <= old(self).stream_ids().len(),
            queues_grow(old(received).queues(), final(received).queues()),
            (old(self).stream_ids().len() == 0 || max_per_stream == 0) ==> r is Ok && final(received).queues() == old(received).queues(),
            r matches Err(e) ==> exists|i: int| 0 <= i < final(self).frames().len() && e == read_error_at(#[trigger] final(self).frames()[i]),
            forall|j: int| 0 <= j < old(self).stream_ids().len() ==> stream_kept_or_gone::<C>(
                final(self).stream_ids(), #[trigger] old(self).stream_ids()[j]),
            exists|msgs: Seq<(u16, Seq<u8>)>| #[trigger] after_pushes(old(received).queues(), msgs) == final(received).queues(),
            exists|reads: Seq<MessageRead>| #[trigger] reads_queued::<BevyRecvStream<C::RecvMut<'a>>>(
                reads,
                old(received).queues(),
                final(received).queues(),
            ) && (r is Ok ==> forall|j: int| 0 <= j < final(self).stream_ids().len() ==> reading_ended(
                reads,
                #[trigger] final(self).stream_ids()[j],
                max_per_stream,
            )) && (r matches Err(e) ==> reads.len() > 0 && reads.last().1 == Err::<Option<(u16, Vec<u8>)>, ReadMessageError>(e)),
    {
        let ghost kind = connection.spec_kind();
        let ghost mut msgs: Seq<(u16, Seq<u8>)> = Seq::empty();
        let ghost mut reads: Seq<MessageRead> = Seq::empty();
        let mut i: usize = 0;
        proof {
            assert forall|id: int| 0 <= id implies #[trigger] queue_of(received.queues(), id).is_prefix_of(queue_of(received.queues(), id)) by {
                assert(queue_of(received.queues(), id) =~= queue_of(received.queues(), id).subrange(0, queue_of(received.queues(), id).len() as int));
            }
        }
        while i < self.len()
            invariant
                self.wf(),
                kind == old(connection).spec_kind(),
                connection.spec_kind() == kind,
                i <= self.stream_ids().len(),
                forall|k: int| 0 <= k < self.stream_ids().len() ==> (#[trigger] self.stream_ids()[k]).kind == kind,
                forall|k: int| 0 <= k < self.stream_ids().len() ==> old(self).stream_ids().contains(#[trigger] self.stream_ids()[k]),
                self.stream_ids().len() <= old(self).stream_ids().len(),
                queues_grow(old(received).queues(), received.queues()),
                (old(self).stream_ids().len() == 0 || max_per_stream == 0) ==> received.queues() == old(received).queues(),
                forall|j: int| 0 <= j < old(self).stream_ids().len() ==> stream_kept_or_gone::<C>(
                    self.stream_ids(), #[trigger] old(self).stream_ids()[j]),
                after_pushes(old(received).queues(), msgs) == received.queues(),
                msgs == messages_of(reads),
                forall|k: int| 0 <= k < reads.len() ==> read_on_stream::<BevyRecvStream<C::RecvMut<'a>>>((#[trigger] reads[k]).0, reads[k].1),
                forall|j: int| 0 <= j < i ==> reading_ended(reads, #[trigger] self.stream_ids()[j], max_per_stream),
            decreases self.stream_ids().len() - i,
        {
            let stream_id = self.stream_id_at(i);
            let ghost before = self.stream_ids();
            match connection.recv_stream(stream_id) {
                Err(_) => {
                    proof {
                        assert(false);
                    }
                },
                Ok(None) => {
                    self.drop_stream(i);
                    assert forall|k: int| 0 <= k < self.stream_ids().len() implies old(self).stream_ids().contains(#[trigger] self.stream_ids()[k]) by {
                        if k < i {
                            assert(self.stream_ids()[k] == before[k]);
                        } else {
                            assert(self.stream_ids()[k] == before[k + 1]);
                        }
                    }
                    assert forall|j: int| 0 <= j < i implies reading_ended(reads, #[trigger] self.stream_ids()[j], max_per_stream) by {
                        assert(self.stream_ids()[j] == before[j]);
                    }
                    proof {
                        assert(stream_kept_or_gone::<C>(self.stream_ids(), stream_id));
                        assert forall|j: int| 0 <= j < old(self).stream_ids().len() implies stream_kept_or_gone::<C>(
                            self.stream_ids(), #[trigger] old(self).stream_ids()[j]) by {
                            let x = old(self).stream_ids()[j];
                            assert(stream_kept_or_gone::<C>(before, x));
                            if before.contains(x) && x != stream_id {
                                let k = choose|k: int| 0 <= k < before.len() && before[k] == x;
                                if k < i {
                                    assert(self.stream_ids()[k] == before[k]);
                                } else {
                                    assert(k > i);
                                    assert(self.stream_ids()[k - 1] == before[k]);
                                }
                            }
                        }
                    }
                },
                Ok(Some(mut stream)) => {
                    let mut failure: Option<ReadMessageError> = None;
                    let mut read: usize = 0;
                    while read < max_per_stream
                        invariant_except_break
                            self.wf(),
                            i < self.stream_ids().len(),
                            self.stream_ids() == before,
                            forall|k: int| 0 <= k < before.len() ==> (#[trigger] before[k]).kind == kind,
                            forall|k: int| 0 <= k < before.len() ==> old(self).stream_ids().contains(#[trigger] before[k]),
                            before.len() <= old(self).stream_ids().len(),
                            queues_grow(old(received).queues(), received.queues()),
                            max_per_stream == 0 ==> failure is None,
                            (old(self).stream_ids().len() == 0 || max_per_stream == 0) ==> received.queues() == old(received).queues(),
                            failure is None,
                            after_pushes(old(received).queues(), msgs) == received.queues(),
                            msgs == messages_of(reads),
                            forall|k: int| 0 <= k < reads.len() ==> read_on_stream::<BevyRecvStream<C::RecvMut<'a>>>((#[trigger] reads[k]).0, reads[k].1),
                            forall|j: int| 0 <= j < i ==> reading_ended(reads, #[trigger] before[j], max_per_stream),
                            messages_read_on(reads, stream_id) >= read,
                            before[i as int] == stream_id,
                        ensures
                            after_pushes(old(received).queues(), msgs) == received.queues(),
                            msgs == messages_of(reads),
                            forall|k: int| 0 <= k < reads.len() ==> read_on_stream::<BevyRecvStream<C::RecvMut<'a>>>((#[trigger] reads[k]).0, reads[k].1),
                            forall|j: int| 0 <= j < i ==> reading_ended(reads, #[trigger] before[j], max_per_stream),
                            failure is None ==> reading_ended(reads, stream_id, max_per_stream),
                            failure matches Some(e) ==> reads.len() > 0 && reads.last().1 == Err::<Option<(u16, Vec<u8>)>, ReadMessageError>(e),
                            self.wf(),
                            i < self.stream_ids().len(),
                            self.stream_ids() == before,
                            forall|k: int| 0 <= k < before.len() ==> (#[trigger] before[k]).kind == kind,
                            forall|k: int| 0 <= k < before.len() ==> old(self).stream_ids().contains(#[trigger] before[k]),
                            before.len() <= old(self).stream_ids().len(),
                            queues_grow(old(received).queues(), received.queues()),
                            max_per_stream == 0 ==> failure is None,
                            (old(self).stream_ids().len() == 0 || max_per_stream == 0) ==> received.queues() == old(received).queues(),
                            failure matches Some(e) ==> e == read_error_at(self.frames()[i as int]),
                        decreases max_per_stream - read,
                    {
                        let got = self.read_message(i, &mut stream);
                        let ghost g = got;
                        proof {
                            assert(read_on_stream::<BevyRecvStream<C::RecvMut<'a>>>(stream_id, g));
                            let x: MessageRead = (stream_id, g);
                            let r2 = reads.push(x);
                            assert(r2.drop_last() =~= reads);
                            assert forall|j: int| 0 <= j < i implies reading_ended(r2, #[trigger] before[j], max_per_stream) by {
                                lemma_reading_ended_push(reads, x, before[j], max_per_stream);
                            }
                            assert forall|k: int| 0 <= k < r2.len() implies read_on_stream::<BevyRecvStream<C::RecvMut<'a>>>((#[trigger] r2[k]).0, r2[k].1) by {
                                if k < reads.len() {
                                    assert(r2[k] == reads[k]);
                                }
                            }
                            if g matches Ok(None) {
                                assert(r2[reads.len() as int] == (stream_id, Ok::<Option<(u16, Vec<u8>)>, ReadMessageError>(None)));
                            }
                            reads = r2;
                        }
                        match got {
                            Err(e) => {
                                failure = Some(e);
                                break;
                            },
                            Ok(None) => {
                                break;
                            },
                            Ok(Some((message_id, message))) => {
                                let ghost mid = received.queues();
                                let ghost mm = message@;
                                received.push_message(message_id, message);
                                proof {
                                    lemma_push_grows(old(received).queues(), mid, message_id as int, mm);
                                    let m2 = msgs.push((message_id, mm));
                                    assert(m2.drop_last() =~= msgs);
                                    msgs = m2;
                                }
                            },
                        }
                        read = read + 1;
                    }
                    if let Some(e) = failure {
                        assert(reads_queued::<BevyRecvStream<C::RecvMut<'a>>>(reads, old(received).queues(), received.queues()));
                        return Err(e);
                    }
                    i = i + 1;
                },
            }
        }
        assert(reads_queued::<BevyRecvStream<C::RecvMut<'a>>>(reads, old(received).queues(), received.queues()));
        Ok(())
    }

    /// Reads the next message of message stream `index` from its stream.
    pub fn read_message<R: RecvStreamMut>(&mut self, index: usize, stream: &mut R) -> (r: Result<Option<(u16, Vec<u8>)>, ReadMessageError>)
        requires
            old(self).wf(),
            index < old(self).stream_ids().len(),
        ensures
            final(self).wf(),
            final(self).stream_ids() == old(self).stream_ids(),
            final(self).frames() == old(self).frames().update(index as int, final(self).frames()[index as int]),
            r matches Ok(Some((id, m))) ==> m@.len() < 65536
                && old(self).frames()[index as int].is_prefix_of(message_frame(id, m@))
                && final(self).frames()[index as int] == Seq::<u8>::empty(),
            !(r matches Ok(Some(_))) ==> old(self).frames()[index as int].is_prefix_of(final(self).frames()[index as int]),
            r matches Err(e) ==> e == read_error_at(final(self).frames()[index as int]),
            exists|t: Seq<(R, R, usize, Result<Vec<u8>, R::ReadError>)>|
                #[trigger] chained(t, *old(stream), *final(stream)) && recv_trace(t)
                && message_read(old(self).frames()[index as int], final(self).frames()[index as int], t, r),
    {
        let (stream_id, mut state) = self.streams.remove(index);
        proof {
            assert(state.wf());
        }
        let r = state.read(stream);
        self.streams.insert(index, (stream_id, state));
        proof {
            assert(self.stream_ids() =~= old(self).stream_ids());
            assert(self.frames()[index as int] == state.pending());
            assert(old(self).frames()[index as int] == old(self).streams@[index as int].1.pending());
            assert(self.frames() =~= old(self).frames().update(index as int, self.frames()[index as int]));
            assert forall|i: int| 0 <= i < self.streams@.len() implies (#[trigger] self.streams@[i]).1.wf() by {
                if i < index as int {
                    assert(self.streams@[i] == old(self).streams@[i]);
                } else if i > index as int {
                    assert(self.streams@[i] == old(self).streams@[i]);
                }
            }
        }
        r
    }
}

} // verus!

verus! {

/// One call of `ReadMessageState::read`: the bytes of the frame it started
/// with, the bytes it kept, its run of reads and its result.
pub type ReadCall<T, E> = (Seq<u8>, Seq<u8>, Seq<(T, T, usize, Result<Vec<u8>, E>)>, Result<Option<(u16, Vec<u8>)>, ReadMessageError>);

/// Successive calls of `read` on one reader: each did what `message_read`
/// says, none failed for good, the first started with no byte of a frame,
/// and each next one started with what the one before kept.
pub open spec fn read_calls<T, E: ErrorFatality>(calls: Seq<ReadCall<T, E>>) -> bool {
    &&& forall|i: int| 0 <= i < calls.len() ==> #[trigger] message_read(calls[i].0, calls[i].1, calls[i].2, calls[i].3)
        && !(calls[i].3 is Err)
    &&& calls.len() > 0 ==> calls[0].0 == Seq::<u8>::empty()
    &&& forall|i: int| 0 < i < calls.len() ==> #[trigger] calls[i].0 == calls[i - 1].1
}

/// The bytes the reads of all the calls gave, in order.
pub open spec fn calls_bytes<T, E>(calls: Seq<ReadCall<T, E>>) -> Seq<u8>
    decreases calls.len(),
{
    if calls.len() == 0 {
        Seq::empty()
    } else {
        calls_bytes(calls.drop_last()) + read_bytes(calls.last().2)
    }
}

/// The messages the calls returned, in order.
pub open spec fn calls_messages<T, E>(calls: Seq<ReadCall<T, E>>) -> Seq<(u16, Seq<u8>)>
    decreases calls.len(),
{
    if calls.len() == 0 {
        Seq::empty()
    } else {
        calls_messages(calls.drop_last()) + match calls.last().3 {
            Ok(Some((id, m))) => seq![(id, m@)],
            _ => Seq::empty(),
        }
    }
}

proof fn lemma_frames_of_push(a: Seq<(u16, Seq<u8>)>, x: (u16, Seq<u8>))
    ensures
        frames_of(a.push(x)) == frames_of(a) + message_frame(x.0, x.1),
    decreases a.len(),
{
    if a.len() == 0 {
        assert(a.push(x).drop_first() =~= Seq::<(u16, Seq<u8>)>::empty());
        assert(a.push(x)[0] == x);
        assert(frames_of(Seq::<(u16, Seq<u8>)>::empty()) == Seq::<u8>::empty());
        assert(frames_of(a) == Seq::<u8>::empty());
        assert(frames_of(a.push(x)) =~= message_frame(x.0, x.1));
    } else {
        lemma_frames_of_push(a.drop_first(), x);
        assert(a.push(x).drop_first() =~= a.drop_first().push(x));
        assert(frames_of(a.push(x)) =~= frames_of(a) + message_frame(x.0, x.1));
    }
}

proof fn lemma_frames_of_split(m: Seq<(u16, Seq<u8>)>, k: int)
    requires
        0 <= k <= m.len(),
    ensures
        frames_of(m) == frames_of(m.take(k)) + frames_of(m.skip(k)),
    decreases k,
{
    if k == 0 {
        assert(m.take(0) =~= Seq::<(u16, Seq<u8>)>::empty());
        assert(m.skip(0) =~= m);
        assert(frames_of(m) =~= frames_of(m.take(k)) + frames_of(m.skip(k)));
    } else {
        lemma_frames_of_split(m.drop_first(), k - 1);
        assert(m.take(k).drop_first() =~= m.drop_first().take(k - 1));
        assert(m.take(k)[0] == m[0]);
        assert(m.drop_first().skip(k - 1) =~= m.skip(k));
        assert(frames_of(m) =~= frames_of(m.take(k)) + frames_of(m.skip(k)));
    }
}

/// Messages written to a stream (each frame as `message_frame` makes it)
/// and read back by successive calls of `read`, however the stream cut the
/// bytes into reads and wherever calls stopped: the messages read are the
/// first messages written, in order, each exactly once, and the bytes read
/// are their frames followed by what the last call kept; once every byte
/// written is read, every message is read.
#[verifier::spinoff_prover]
pub proof fn law_messages_read_are_messages_written<T, E: ErrorFatality>(
    calls: Seq<ReadCall<T, E>>,
    messages: Seq<(u16, Seq<u8>)>,
)
    requires
        forall|j: int| 0 <= j < messages.len() ==> (#[trigger] messages[j]).1.len() < 65536,
        read_calls(calls),
        calls_bytes(calls).is_prefix_of(frames_of(messages)),
    ensures
        calls_messages(calls).len() <= messages.len(),
        calls_messages(calls) == messages.take(calls_messages(calls).len() as int),
        calls.len() > 0 ==> frames_of(calls_messages(calls)) + calls.last().1 == calls_bytes(calls),
        calls.len() > 0 && calls_bytes(calls) == frames_of(messages) && calls.last().1.len() == 0
            ==> calls_messages(calls) == messages,
    decreases calls.len(),
{
    if calls.len() == 0 {
        assert(messages.take(0) =~= Seq::<(u16, Seq<u8>)>::empty());
        return;
    }
    let c0 = calls.drop_last();
    let c = calls.last();
    assert(c == calls[calls.len() - 1]);
    assert(message_read(calls[calls.len() - 1].0, calls[calls.len() - 1].1, calls[calls.len() - 1].2, calls[calls.len() - 1].3));
    assert(message_read(c.0, c.1, c.2, c.3) && !(c.3 is Err));
    let b0 = calls_bytes(c0);
    let rb = read_bytes(c.2);
    assert(calls_bytes(calls) == b0 + rb);
    assert(b0.is_prefix_of(frames_of(messages))) by {
        assert forall|k: int| 0 <= k < b0.len() implies b0[k] == frames_of(messages)[k] by {
            assert(b0[k] == calls_bytes(calls)[k]);
        }
    }
    assert forall|i: int| 0 <= i < c0.len() implies #[trigger] message_read(c0[i].0, c0[i].1, c0[i].2, c0[i].3) && !(c0[i].3 is Err) by {
        assert(c0[i] == calls[i]);
        assert(message_read(calls[i].0, calls[i].1, calls[i].2, calls[i].3) && !(calls[i].3 is Err));
    }
    assert forall|i: int| 0 < i < c0.len() implies #[trigger] c0[i].0 == c0[i - 1].1 by {
        assert(c0[i] == calls[i]);
        assert(c0[i - 1] == calls[i - 1]);
        assert(calls[i].0 == calls[i - 1].1);
    }
    law_messages_read_are_messages_written(c0, messages);
    let m0 = calls_messages(c0);
    let k = m0.len() as int;
    let start = c.0;
    // what the earlier calls read: their messages' frames, then what the last of them kept
    assert(frames_of(m0) + start == b0) by {
        if c0.len() == 0 {
            assert(start == Seq::<u8>::empty());
            assert(m0 =~= Seq::<(u16, Seq<u8>)>::empty());
            assert(frames_of(m0) + start =~= b0);
        } else {
            assert(calls[c0.len() as int].0 == calls[c0.len() as int - 1].1);
            assert(c0.last() == calls[c0.len() - 1]);
        }
    }
    let p = start + rb;
    assert(calls_bytes(calls) =~= frames_of(m0) + p);
    lemma_frames_of_split(messages, k);
    assert(messages.take(k) == m0);
    let tail = frames_of(messages.skip(k));
    assert(p.is_prefix_of(tail)) by {
        assert forall|j: int| 0 <= j < p.len() implies p[j] == tail[j] by {
            assert(calls_bytes(calls)[frames_of(m0).len() + j] == p[j]);
            assert(frames_of(messages)[frames_of(m0).len() + j] == tail[j]);
        }
    }
    match c.3 {
        Ok(Some((id, m))) => {
            assert(frame_complete(p) && id == frame_id(p) && m@ == frame_payload(p) && c.1 == Seq::<u8>::empty());
            if k >= messages.len() {
                assert(messages.skip(k) =~= Seq::<(u16, Seq<u8>)>::empty());
                assert(false);
            }
            let rest = messages.skip(k);
            assert(rest.drop_first() =~= messages.skip(k + 1));
            assert(rest[0] == messages[k]);
            assert(tail == message_frame(messages[k].0, messages[k].1) + frames_of(messages.skip(k + 1)));
            law_read_returns_the_sent_message(p, messages[k].0, messages[k].1, frames_of(messages.skip(k + 1)));
            assert(calls_messages(calls) == m0.push((id, m@))) by {
                assert(m0 + seq![(id, m@)] =~= m0.push((id, m@)));
            }
            assert((id, m@) == messages[k]);
            assert(m0.push((id, m@)) =~= messages.take(k + 1));
            lemma_frames_of_push(m0, (id, m@));
            assert(frames_of(calls_messages(calls)) + c.1 =~= calls_bytes(calls));
        },
        _ => {
            assert(calls_messages(calls) =~= m0);
            assert(c.1 == p);
        },
    }
    if calls_bytes(calls) == frames_of(messages) && c.1.len() == 0 {
        let mm = calls_messages(calls);
        lemma_frames_of_split(messages, mm.len() as int);
        assert(frames_of(mm) + c.1 =~= frames_of(mm));
        assert(frames_of(messages.skip(mm.len() as int)).len() == 0);
        if mm.len() < messages.len() {
            let rest = messages.skip(mm.len() as int);
            assert(frames_of(rest) == message_frame(rest[0].0, rest[0].1) + frames_of(rest.drop_first()));
            assert(false);
        }
        assert(messages.take(messages.len() as int) =~= messages);
    }
}

} // verus!

verus! {

/// The payloads of the messages of id `id` among `msgs`, in order.
pub open spec fn payloads_of(msgs: Seq<(u16, Seq<u8>)>, id: int) -> Seq<Seq<u8>>
    decreases msgs.len(),
{
    if msgs.len() == 0 {
        Seq::empty()
    } else {
        payloads_of(msgs.drop_last(), id) + if msgs.last().0 as int == id { seq![msgs.last().1] } else { Seq::empty() }
    }
}

/// Messages received one after the other join the back of their own id's
/// queue in the order received, each once, and no other queue changes: the
/// queue of each id is what it held, followed by the payloads of that id's
/// messages, in order.
pub proof fn law_received_messages_queue_in_order(queues: Seq<Seq<Seq<u8>>>, msgs: Seq<(u16, Seq<u8>)>, id: int)
    requires
        0 <= id,
    ensures
        queue_of(after_pushes(queues, msgs), id) == queue_of(queues, id) + payloads_of(msgs, id),
    decreases msgs.len(),
{
    if msgs.len() == 0 {
        assert(queue_of(queues, id) + payloads_of(msgs, id) =~= queue_of(queues, id));
    } else {
        law_received_messages_queue_in_order(queues, msgs.drop_last(), id);
        let q = after_pushes(queues, msgs.drop_last());
        let (mid, m) = msgs.last();
        if mid as int == id {
            assert(queue_of(after_push(q, mid as int, m), id) == queue_of(q, id).push(m));
            assert(queue_of(queues, id) + payloads_of(msgs, id) =~= (queue_of(queues, id) + payloads_of(msgs.drop_last(), id)).push(m));
        } else {
            let a = after_push(q, mid as int, m);
            assert(queue_of(a, id) == queue_of(q, id)) by {
                if id < a.len() {
                    assert(a[id] == queue_of(q, id));
                } else {
                    assert(id >= q.len());
                }
            }
            assert(queue_of(queues, id) + payloads_of(msgs, id) =~= queue_of(queues, id) + payloads_of(msgs.drop_last(), id));
        }
    }
}

/// A message stream leaves the reader's list in a call of `read_messages`
/// only when the connection reports that it has no such receive stream: a
/// stream that the connection never reported gone is still listed after
/// the call, whether its read gave a message, nothing yet, or failed.
pub proof fn law_message_streams_leave_only_when_gone<'a, C: ConnectionMut>(id: BevyStreamId, max_per_stream: usize)
    ensures
        forall|s: &mut ConnectionMessageStreams, c: &'a mut BevyConnectionMut<C>, q: &mut ReceivedSerializedMessages, r: Result<(), ReadMessageError>|
            #[trigger] call_ensures(ConnectionMessageStreams::read_messages::<C>, (s, c, q, max_per_stream), r)
            && (*s).stream_ids().contains(id)
            && !(exists|m: &mut BevyConnectionMut<C>, got| #[trigger] call_ensures(BevyConnectionMut::<C>::recv_stream, (m, id), got)
                && got matches Ok(None))
            ==> mut_ref_future(s).stream_ids().contains(id),
{
    assert forall|s: &mut ConnectionMessageStreams, c: &'a mut BevyConnectionMut<C>, q: &mut ReceivedSerializedMessages, r: Result<(), ReadMessageError>|
        #[trigger] call_ensures(ConnectionMessageStreams::read_messages::<C>, (s, c, q, max_per_stream), r)
        && (*s).stream_ids().contains(id)
        && !(exists|m: &mut BevyConnectionMut<C>, got| #[trigger] call_ensures(BevyConnectionMut::<C>::recv_stream, (m, id), got)
            && got matches Ok(None))
        implies mut_ref_future(s).stream_ids().contains(id) by {
        let j = choose|j: int| 0 <= j < (*s).stream_ids().len() && (*s).stream_ids()[j] == id;
        assert(stream_kept_or_gone::<C>(mut_ref_future(s).stream_ids(), (*s).stream_ids()[j]));
    }
}

/// Each id's queue in `after` is its queue in `before`, followed by the
/// payloads of that id's messages of `msgs`, in order.
pub open spec fn queued_in_order(before: Seq<Seq<Seq<u8>>>, after: Seq<Seq<Seq<u8>>>, msgs: Seq<(u16, Seq<u8>)>) -> bool {
    forall|id: int| 0 <= id ==> #[trigger] queue_of(after, id) == queue_of(before, id) + payloads_of(msgs, id)
}

/// What a call of `read_messages` queues is what its reads of the message
/// streams gave: there is a run of reads, each a call of `read_message` on
/// one of the streams, such that the queues gained exactly the messages
/// those reads gave, each once and in the order read; and when the call
/// succeeds, every stream still listed was read until a read found no
/// whole message, or until `max_per_stream` of its reads gave a message;
/// when it fails, the error is the one its last read gave.
pub proof fn law_read_messages_queues_what_it_reads<'a, C: ConnectionMut>(max_per_stream: usize)
    ensures
        forall|s: &mut ConnectionMessageStreams, c: &'a mut BevyConnectionMut<C>, q: &mut ReceivedSerializedMessages, r: Result<(), ReadMessageError>|
            #[trigger] call_ensures(ConnectionMessageStreams::read_messages::<C>, (s, c, q, max_per_stream), r)
            ==> exists|reads: Seq<MessageRead>| #[trigger] queued_in_order((*q).queues(), mut_ref_future(q).queues(), messages_of(reads))
                && (forall|k: int| 0 <= k < reads.len() ==> read_on_stream::<BevyRecvStream<C::RecvMut<'a>>>((#[trigger] reads[k]).0, reads[k].1))
                && (r is Ok ==> forall|j: int| 0 <= j < mut_ref_future(s).stream_ids().len() ==> reading_ended(
                    reads,
                    #[trigger] mut_ref_future(s).stream_ids()[j],
                    max_per_stream,
                ))
                && (r matches Err(e) ==> reads.len() > 0 && reads.last().1 == Err::<Option<(u16, Vec<u8>)>, ReadMessageError>(e)),
{
    assert forall|s: &mut ConnectionMessageStreams, c: &'a mut BevyConnectionMut<C>, q: &mut ReceivedSerializedMessages, r: Result<(), ReadMessageError>|
        #[trigger] call_ensures(ConnectionMessageStreams::read_messages::<C>, (s, c, q, max_per_stream), r)
        implies exists|reads: Seq<MessageRead>| #[trigger] queued_in_order((*q).queues(), mut_ref_future(q).queues(), messages_of(reads))
            && (forall|k: int| 0 <= k < reads.len() ==> read_on_stream::<BevyRecvStream<C::RecvMut<'a>>>((#[trigger] reads[k]).0, reads[k].1))
            && (r is Ok ==> forall|j: int| 0 <= j < mut_ref_future(s).stream_ids().len() ==> reading_ended(
                reads,
                #[trigger] mut_ref_future(s).stream_ids()[j],
                max_per_stream,
            )) && (r matches Err(e) ==> reads.len() > 0 && reads.last().1 == Err::<Option<(u16, Vec<u8>)>, ReadMessageError>(e)) by {
        let reads = choose|reads: Seq<MessageRead>| #[trigger] reads_queued::<BevyRecvStream<C::RecvMut<'a>>>(
            reads,
            (*q).queues(),
            mut_ref_future(q).queues(),
        ) && (r is Ok ==> forall|j: int| 0 <= j < mut_ref_future(s).stream_ids().len() ==> reading_ended(
            reads,
            #[trigger] mut_ref_future(s).stream_ids()[j],
            max_per_stream,
        )) && (r matches Err(e) ==> reads.len() > 0 && reads.last().1 == Err::<Option<(u16, Vec<u8>)>, ReadMessageError>(e));
        let msgs = messages_of(reads);
        assert forall|id: int| 0 <= id implies #[trigger] queue_of(mut_ref_future(q).queues(), id) == queue_of((*q).queues(), id)
            + payloads_of(msgs, id) by {
            law_received_messages_queue_in_order((*q).queues(), msgs, id);
        }
        assert(queued_in_order((*q).queues(), mut_ref_future(q).queues(), msgs));
    }
}

} // verus!
