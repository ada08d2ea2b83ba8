//! The decisions of a QUIC endpoint driven over a UDP socket: which
//! streams are readable, what reading them ended with, which events the
//! application hears of, how received datagrams are cut up and what is done
//! with the events the endpoint makes of them.
use vstd::prelude::*;
use std::collections::HashSet;
use crate::interface::{StreamEvent, StreamEventType};
use crate::transports::QuinnReadError;

verus! {

broadcast use vstd::std_specs::hash::group_hash_axioms;

/// Why writing to a stream failed.
#[derive(Clone, Copy, Debug, PartialEq, Eq, Structural)]
pub enum WriteError {
    /// the stream takes no more data for now
    Blocked,
    /// the stream was never opened, or is finished or stopped
    StreamDoesntExist,
}

/// A connection id that names no connection of the endpoint.
#[derive(Clone, Copy, Debug, PartialEq, Eq, Structural)]
pub struct ConnectionNotFound;

/// What the last read of a stream ended with.
#[derive(Clone, Copy, Debug, PartialEq, Eq, Structural)]
pub enum StreamReaderResponse {
    /// the stream was opened for reading, and reading did not end yet
    IncompleteRead,
    /// all data available so far was read
    Blocked,
    /// the peer finished the stream: no more data will come
    Finished,
    /// the peer reset the stream with an error code
    Reset(u64),
}

/// A call to the application's endpoint event handler.
#[derive(Clone, Copy, Debug, PartialEq, Eq, Structural)]
pub enum ConnectionCall {
    /// the connection was established
    NewConnection,
    /// the connection was lost or closed
    Disconnected,
    /// the peer opened a stream
    NewStream { stream_id: u64, bi_directional: bool },
    /// a receive stream was finished (no error) or reset (its error code)
    ReceiveStreamClosed { stream_id: u64, reset_error: Option<u64> },
}

/// An application event of a QUIC connection.
#[derive(Clone, Copy, Debug, PartialEq, Eq, Structural)]
pub enum AppEvent {
    HandshakeDataReady,
    Connected,
    ConnectionLost,
    StreamOpened,
    StreamReadable(u64),
    StreamWritable(u64),
    StreamFinished(u64),
    StreamStopped(u64),
    StreamAvailable,
    DatagramReceived,
    DatagramsUnblocked,
}

/// The calls that the read responses `responses` give, in order: one for
/// each stream that was finished or reset.
pub open spec fn closing_calls(responses: Seq<(u64, StreamReaderResponse)>) -> Seq<ConnectionCall>
    decreases responses.len(),
{
    if responses.len() == 0 {
        Seq::empty()
    } else {
        let (id, response) = responses.last();
        closing_calls(responses.drop_last()) + match response {
            StreamReaderResponse::Finished => seq![ConnectionCall::ReceiveStreamClosed { stream_id: id, reset_error: None }],
            StreamReaderResponse::Reset(code) => seq![ConnectionCall::ReceiveStreamClosed { stream_id: id, reset_error: Some(code) }],
            _ => Seq::empty(),
        }
    }
}

/// The streams whose read ended (blocked, finished or reset) in `responses`.
pub open spec fn settled(responses: Seq<(u64, StreamReaderResponse)>) -> Set<u64> {
    Set::new(|id: u64| exists|k: int| 0 <= k < responses.len() && #[trigger] responses[k].0 == id
        && !(responses[k].1 is IncompleteRead))
}

/// A stream reported closed by the read responses stops being readable:
/// its read ended.
pub proof fn law_closed_streams_are_settled(responses: Seq<(u64, StreamReaderResponse)>, k: int)
    requires
        0 <= k < closing_calls(responses).len(),
    ensures
        closing_calls(responses)[k] matches ConnectionCall::ReceiveStreamClosed { stream_id, .. } && settled(responses).contains(stream_id),
    decreases responses.len(),
{
    let rest = responses.drop_last();
    let (id, response) = responses.last();
    let tail: Seq<ConnectionCall> = match response {
        StreamReaderResponse::Finished => seq![ConnectionCall::ReceiveStreamClosed { stream_id: id, reset_error: None }],
        StreamReaderResponse::Reset(code) => seq![ConnectionCall::ReceiveStreamClosed { stream_id: id, reset_error: Some(code) }],
        _ => Seq::empty(),
    };
    assert(closing_calls(responses) == closing_calls(rest) + tail);
    if k < closing_calls(rest).len() {
        law_closed_streams_are_settled(rest, k);
        assert(closing_calls(responses)[k] == closing_calls(rest)[k]);
        if let ConnectionCall::ReceiveStreamClosed { stream_id, .. } = closing_calls(rest)[k] {
            let j = choose|j: int| 0 <= j < rest.len() && #[trigger] rest[j].0 == stream_id && !(rest[j].1 is IncompleteRead);
            assert(responses[j] == rest[j]);
        }
    } else {
        assert(closing_calls(responses)[k] == tail[k - closing_calls(rest).len()]);
        assert(responses[responses.len() - 1] == (id, response));
    }
}

/// The response at `k` gives its closing call, if it is finished or reset.
pub proof fn lemma_closing_call_of(responses: Seq<(u64, StreamReaderResponse)>, k: int)
    requires
        0 <= k < responses.len(),
    ensures
        responses[k].1 is Finished ==> closing_calls(responses).contains(
            ConnectionCall::ReceiveStreamClosed { stream_id: responses[k].0, reset_error: None },
        ),
        responses[k].1 matches StreamReaderResponse::Reset(code) ==> closing_calls(responses).contains(
            ConnectionCall::ReceiveStreamClosed { stream_id: responses[k].0, reset_error: Some(code) },
        ),
    decreases responses.len(),
{
    let rest = responses.drop_last();
    let (id, response) = responses.last();
    let tail: Seq<ConnectionCall> = match response {
        StreamReaderResponse::Finished => seq![ConnectionCall::ReceiveStreamClosed { stream_id: id, reset_error: None }],
        StreamReaderResponse::Reset(code) => seq![ConnectionCall::ReceiveStreamClosed { stream_id: id, reset_error: Some(code) }],
        _ => Seq::empty(),
    };
    assert(closing_calls(responses) == closing_calls(rest) + tail);
    if k < rest.len() {
        lemma_closing_call_of(rest, k);
        assert(rest[k] == responses[k]);
        assert forall|c: ConnectionCall| closing_calls(rest).contains(c) implies closing_calls(responses).contains(c) by {
            let j = choose|j: int| 0 <= j < closing_calls(rest).len() && closing_calls(rest)[j] == c;
            assert(closing_calls(responses)[j] == c);
        }
    } else {
        if response is Finished || response is Reset {
            assert(closing_calls(responses)[closing_calls(rest).len() as int] == tail[0]);
        }
    }
}

/// A closing call comes from a finished or reset response of its stream.
pub proof fn lemma_closing_call_from(responses: Seq<(u64, StreamReaderResponse)>, k: int)
    requires
        0 <= k < closing_calls(responses).len(),
    ensures
        closing_calls(responses)[k] matches ConnectionCall::ReceiveStreamClosed { stream_id, reset_error }
            && exists|j: int| 0 <= j < responses.len() && #[trigger] responses[j].0 == stream_id && (match reset_error {
                None => responses[j].1 is Finished,
                Some(code) => responses[j].1 == StreamReaderResponse::Reset(code),
            }),
    decreases responses.len(),
{
    let rest = responses.drop_last();
    let (id, response) = responses.last();
    let tail: Seq<ConnectionCall> = match response {
        StreamReaderResponse::Finished => seq![ConnectionCall::ReceiveStreamClosed { stream_id: id, reset_error: None }],
        StreamReaderResponse::Reset(code) => seq![ConnectionCall::ReceiveStreamClosed { stream_id: id, reset_error: Some(code) }],
        _ => Seq::empty(),
    };
    assert(closing_calls(responses) == closing_calls(rest) + tail);
    if k < closing_calls(rest).len() {
        lemma_closing_call_from(rest, k);
        assert(closing_calls(responses)[k] == closing_calls(rest)[k]);
        if let ConnectionCall::ReceiveStreamClosed { stream_id, reset_error } = closing_calls(rest)[k] {
            let j = choose|j: int| 0 <= j < rest.len() && #[trigger] rest[j].0 == stream_id && (match reset_error {
                None => rest[j].1 is Finished,
                Some(code) => rest[j].1 == StreamReaderResponse::Reset(code),
            });
            assert(responses[j] == rest[j]);
        }
    } else {
        assert(closing_calls(responses)[k] == tail[k - closing_calls(rest).len()]);
        assert(responses[responses.len() - 1] == (id, response));
    }
}

/// No stream has two read responses.
pub open spec fn unique_streams(responses: Seq<(u64, StreamReaderResponse)>) -> bool {
    forall|i: int, j: int| 0 <= i < j < responses.len() ==> #[trigger] responses[i].0 != #[trigger] responses[j].0
}

/// The streams of a connection that have data to read, and what the reads
/// made since the last poll ended with.
pub struct ConnectionStreams {
    readable_streams: HashSet<u64>,
    read_responses: Vec<(u64, StreamReaderResponse)>,
}

impl ConnectionStreams {
    /// The streams with data to read.
    pub closed spec fn readable(&self) -> Set<u64> {
        self.readable_streams@
    }

    /// The read responses, oldest first.
    pub closed spec fn responses(&self) -> Seq<(u64, StreamReaderResponse)> {
        self.read_responses@
    }

    pub closed spec fn wf(&self) -> bool {
        unique_streams(self.read_responses@)
    }

    /// No readable stream and no response.
    pub fn new() -> (r: Self)
        ensures
            r.wf(),
            r.readable() == Set::<u64>::empty(),
            r.responses() == Seq::<(u64, StreamReaderResponse)>::empty(),
    {
        ConnectionStreams { readable_streams: HashSet::new(), read_responses: Vec::new() }
    }

    /// No stream of a well-formed set of streams has two read responses.
    pub proof fn lemma_responses_unique(&self)
        requires
            self.wf(),
        ensures
            unique_streams(self.responses()),
    {
    }

    /// Whether `stream_id` has data to read.
    pub fn is_readable(&self, stream_id: u64) -> (r: bool)
        ensures
            r == self.readable().contains(stream_id),
    {
        self.readable_streams.contains(&stream_id)
    }

    /// The position of `stream_id`'s response, if it has one.
    fn response_index(&self, stream_id: u64) -> (r: Option<usize>)
        ensures
            match r {
                Some(k) => k < self.responses().len() && self.responses()[k as int].0 == stream_id,
                None => forall|k: int| 0 <= k < self.responses().len() ==> #[trigger] self.responses()[k].0 != stream_id,
            },
    {
        let mut k: usize = 0;
        while k < self.read_responses.len()
            invariant
                k <= self.read_responses@.len(),
                forall|j: int| 0 <= j < k ==> #[trigger] self.read_responses@[j].0 != stream_id,
            decreases self.read_responses@.len() - k,
        {
            if self.read_responses[k].0 == stream_id {
                return Some(k);
            }
            k = k + 1;
        }
        None
    }

    /// Starts reading `stream_id`: possible when it is readable; its read
    /// response then starts as an incomplete read, unless it already has
    /// one. Returns whether the stream can be read.
    pub fn open_reader(&mut self, stream_id: u64) -> (r: bool)
        requires
            old(self).wf(),
        ensures
            final(self).wf(),
            r == old(self).readable().contains(stream_id),
            final(self).readable() == old(self).readable(),
            (r && forall|k: int| 0 <= k < old(self).responses().len() ==> #[trigger] old(self).responses()[k].0 != stream_id)
                ==> final(self).responses() == old(self).responses().push((stream_id, StreamReaderResponse::IncompleteRead)),
            !(r && forall|k: int| 0 <= k < old(self).responses().len() ==> #[trigger] old(self).responses()[k].0 != stream_id)
                ==> final(self).responses() == old(self).responses(),
    {
        if !self.readable_streams.contains(&stream_id) {
            return false;
        }
        match self.response_index(stream_id) {
            Some(_) => {},
            None => {
                self.read_responses.push((stream_id, StreamReaderResponse::IncompleteRead));
                assert forall|i: int, j: int| 0 <= i < j < self.read_responses@.len() implies
                    #[trigger] self.read_responses@[i].0 != #[trigger] self.read_responses@[j].0 by {
                    if j < old(self).read_responses@.len() {
                        assert(self.read_responses@[i] == old(self).read_responses@[i]);
                        assert(self.read_responses@[j] == old(self).read_responses@[j]);
                    } else {
                        assert(self.read_responses@[i] == old(self).read_responses@[i]);
                    }
                }
            },
        }
        true
    }

    /// Records what the current read of `stream_id` ended with.
    pub fn set_response(&mut self, stream_id: u64, response: StreamReaderResponse)
        requires
            old(self).wf(),
            exists|k: int| 0 <= k < old(self).responses().len() && #[trigger] old(self).responses()[k].0 == stream_id,
        ensures
            final(self).wf(),
            final(self).readable() == old(self).readable(),
            final(self).responses().len() == old(self).responses().len(),
            forall|k: int| 0 <= k < old(self).responses().len() ==> #[trigger] final(self).responses()[k] == (
                if old(self).responses()[k].0 == stream_id { (stream_id, response) } else { old(self).responses()[k] }),
    {
        match self.response_index(stream_id) {
            Some(k) => {
                self.read_responses.set(k, (stream_id, response));
                proof {
                    assert forall|j: int| 0 <= j < old(self).responses().len() implies #[trigger] self.responses()[j] == (
                        if old(self).responses()[j].0 == stream_id { (stream_id, response) } else { old(self).responses()[j] }) by {
                        if j != k as int && old(self).responses()[j].0 == stream_id {
                            if j < k as int {
                                assert(old(self).read_responses@[j].0 != old(self).read_responses@[k as int].0);
                            } else {
                                assert(old(self).read_responses@[k as int].0 != old(self).read_responses@[j].0);
                            }
                        }
                    }
                    assert forall|i: int, j: int| 0 <= i < j < self.read_responses@.len() implies
                        #[trigger] self.read_responses@[i].0 != #[trigger] self.read_responses@[j].0 by {
                        assert(old(self).read_responses@[i].0 != old(self).read_responses@[j].0);
                    }
                }
            },
            None => {},
        }
    }

    /// Takes the read responses: each stream whose read ended (blocked,
    /// finished or reset) stops being readable, and each finished or reset
    /// stream gives a closing call, in the order the reads began.
    pub fn take_responses(&mut self) -> (r: Vec<ConnectionCall>)
        requires
            old(self).wf(),
        ensures
            final(self).wf(),
            r@ == closing_calls(old(self).responses()),
            final(self).readable() == old(self).readable().difference(settled(old(self).responses())),
            final(self).responses() == Seq::<(u64, StreamReaderResponse)>::empty(),
    {
        let mut responses: Vec<(u64, StreamReaderResponse)> = Vec::new();
        std::mem::swap(&mut responses, &mut self.read_responses);
        let ghost all = responses@;
        let mut calls: Vec<ConnectionCall> = Vec::new();
        let mut i: usize = 0;
        proof {
            assert(all.take(0) =~= Seq::<(u64, StreamReaderResponse)>::empty());
            assert(self.readable_streams@ =~= old(self).readable().difference(settled(all.take(0))));
        }
        while i < responses.len()
            invariant
                all == responses@,
                all == old(self).responses(),
                i <= all.len(),
                self.read_responses@ == Seq::<(u64, StreamReaderResponse)>::empty(),
                calls@ == closing_calls(all.take(i as int)),
                self.readable_streams@ == old(self).readable().difference(settled(all.take(i as int))),
            decreases all.len() - i,
        {
            let (stream_id, response) = responses[i];
            proof {
                assert(all.take(i + 1).drop_last() =~= all.take(i as int));
                assert(all.take(i + 1).last() == all[i as int]);
            }
            match response {
                StreamReaderResponse::IncompleteRead => {},
                StreamReaderResponse::Blocked => {
                    self.readable_streams.remove(&stream_id);
                },
                StreamReaderResponse::Finished => {
                    calls.push(ConnectionCall::ReceiveStreamClosed { stream_id, reset_error: None });
                    self.readable_streams.remove(&stream_id);
                },
                StreamReaderResponse::Reset(code) => {
                    calls.push(ConnectionCall::ReceiveStreamClosed { stream_id, reset_error: Some(code) });
                    self.readable_streams.remove(&stream_id);
                },
            }
            proof {
                let before = settled(all.take(i as int));
                let after = settled(all.take(i + 1));
                assert forall|id: u64| after.contains(id) == (before.contains(id) || (id == stream_id && !(response is IncompleteRead))) by {
                    if after.contains(id) {
                        let k = choose|k: int| 0 <= k < all.take(i + 1).len() && #[trigger] all.take(i + 1)[k].0 == id
                            && !(all.take(i + 1)[k].1 is IncompleteRead);
                        if k < i {
                            assert(all.take(i as int)[k] == all.take(i + 1)[k]);
                        }
                    }
                    if before.contains(id) {
                        let k = choose|k: int| 0 <= k < all.take(i as int).len() && #[trigger] all.take(i as int)[k].0 == id
                            && !(all.take(i as int)[k].1 is IncompleteRead);
                        assert(all.take(i + 1)[k] == all.take(i as int)[k]);
                    }
                    if id == stream_id && !(response is IncompleteRead) {
                        assert(all.take(i + 1)[i as int] == all[i as int]);
                    }
                }
                assert(self.readable_streams@ =~= old(self).readable().difference(after));
                assert(calls@ =~= closing_calls(all.take(i + 1)));
            }
            i = i + 1;
        }
        proof {
            assert(all.take(all.len() as int) =~= all);
        }
        calls
    }

    /// Handles an application event of the connection: the calls that the
    /// application hears of, and the streams that became readable.
    pub fn handle_app_event(&mut self, event: AppEvent) -> (r: Option<ConnectionCall>)
        requires
            old(self).wf(),
        ensures
            final(self).wf(),
            final(self).responses() == old(self).responses(),
            r == (match event {
                AppEvent::Connected => Some(ConnectionCall::NewConnection),
                AppEvent::ConnectionLost => Some(ConnectionCall::Disconnected),
                _ => None::<ConnectionCall>,
            }),
            final(self).readable() == (match event {
                AppEvent::StreamReadable(id) => old(self).readable().insert(id),
                _ => old(self).readable(),
            }),
    {
        match event {
            AppEvent::Connected => Some(ConnectionCall::NewConnection),
            AppEvent::ConnectionLost => Some(ConnectionCall::Disconnected),
            AppEvent::StreamReadable(id) => {
                self.readable_streams.insert(id);
                None
            },
            _ => None,
        }
    }

    /// The peer opened stream `stream_id`: it is readable, and the
    /// application hears of it.
    pub fn accept_stream(&mut self, stream_id: u64, bi_directional: bool) -> (r: ConnectionCall)
        requires
            old(self).wf(),
        ensures
            final(self).wf(),
            final(self).responses() == old(self).responses(),
            final(self).readable() == old(self).readable().insert(stream_id),
            r == (ConnectionCall::NewStream { stream_id, bi_directional }),
    {
        self.readable_streams.insert(stream_id);
        ConnectionCall::NewStream { stream_id, bi_directional }
    }
}

/// What the next chunk of a stream read was.
#[derive(Clone, Copy, Debug, PartialEq, Eq, Structural)]
pub enum ChunkOutcome {
    /// a chunk of this many bytes
    Data(usize),
    /// the stream is finished
    End,
    /// the peer reset the stream with an error code
    Reset(u64),
    /// no more data for now
    Blocked,
}

/// Takes one chunk of a read that may still take `max_bytes` bytes: a chunk
/// lowers the budget by its length; the end of the read gives the response
/// that the read ended with.
pub fn read_chunk(max_bytes: usize, outcome: ChunkOutcome) -> (r: (usize, Option<StreamReaderResponse>))
    requires
        outcome matches ChunkOutcome::Data(n) ==> n <= max_bytes,
    ensures
        r == (match outcome {
            ChunkOutcome::Data(n) => ((max_bytes - n) as usize, None::<StreamReaderResponse>),
            ChunkOutcome::End => (max_bytes, Some(StreamReaderResponse::Finished)),
            ChunkOutcome::Reset(code) => (max_bytes, Some(StreamReaderResponse::Reset(code))),
            ChunkOutcome::Blocked => (max_bytes, Some(StreamReaderResponse::Blocked)),
        }),
{
    match outcome {
        ChunkOutcome::Data(n) => (max_bytes - n, None),
        ChunkOutcome::End => (max_bytes, Some(StreamReaderResponse::Finished)),
        ChunkOutcome::Reset(code) => (max_bytes, Some(StreamReaderResponse::Reset(code))),
        ChunkOutcome::Blocked => (max_bytes, Some(StreamReaderResponse::Blocked)),
    }
}

/// Buffers reused by every endpoint while datagrams are received and sent.
pub struct EndpointBuffers {
    pub send_buffer: Vec<u8>,
    pub recv_buffer: Vec<u8>,
}

impl EndpointBuffers {
    /// Empty buffers.
    pub fn new() -> (r: Self)
        ensures
            r.send_buffer@ == Seq::<u8>::empty(),
            r.recv_buffer@ == Seq::<u8>::empty(),
    {
        EndpointBuffers { send_buffer: Vec::new(), recv_buffer: Vec::new() }
    }

    /// Makes the receive buffer `len` bytes long, new bytes being zero.
    pub fn prepare_recv(&mut self, len: usize)
        ensures
            final(self).recv_buffer@.len() == len,
            forall|k: int| 0 <= k < len && k < old(self).recv_buffer@.len() ==> #[trigger] final(self).recv_buffer@[k] == old(self).recv_buffer@[k],
            forall|k: int| old(self).recv_buffer@.len() <= k < len ==> #[trigger] final(self).recv_buffer@[k] == 0,
            final(self).send_buffer@ == old(self).send_buffer@,
    {
        if self.recv_buffer.len() > len {
            self.recv_buffer.truncate(len);
        } else {
            while self.recv_buffer.len() < len
                invariant
                    old(self).recv_buffer@.len() <= self.recv_buffer@.len() <= len,
                    forall|k: int| 0 <= k < old(self).recv_buffer@.len() ==> #[trigger] self.recv_buffer@[k] == old(self).recv_buffer@[k],
                    forall|k: int| old(self).recv_buffer@.len() <= k < self.recv_buffer@.len() ==> #[trigger] self.recv_buffer@[k] == 0,
                    self.send_buffer@ == old(self).send_buffer@,
                decreases len - self.recv_buffer@.len(),
            {
                self.recv_buffer.push(0);
            }
        }
    }

    /// Empties both buffers.
    pub fn clear(&mut self)
        ensures
            final(self).send_buffer@ == Seq::<u8>::empty(),
            final(self).recv_buffer@ == Seq::<u8>::empty(),
    {
        self.recv_buffer.clear();
        self.send_buffer.clear();
    }
}

/// The size of the receive buffer: room for a batch of `batch_size`
/// receives of `max_gso_segments` datagrams each, every datagram being at
/// most the endpoint's maximum UDP payload, and at most 64 KiB. `None` when
/// it does not fit in memory.
pub fn recv_buffer_len(max_udp_payload: u64, max_gso_segments: usize, batch_size: usize) -> (r: Option<usize>)
    ensures
        ({
            let per_datagram = if max_udp_payload < 65536 { max_udp_payload as int } else { 65536 };
            match r {
                Some(n) => n == per_datagram * max_gso_segments * batch_size,
                None => per_datagram * max_gso_segments * batch_size > usize::MAX,
            }
        }),
{
    let per_datagram: usize = if max_udp_payload < 65536 { max_udp_payload as usize } else { 65536 };
    match per_datagram.checked_mul(max_gso_segments) {
        Some(segment_bytes) => {
            let r = segment_bytes.checked_mul(batch_size);
            proof {
                if r is None {
                    assert(per_datagram * max_gso_segments * batch_size > usize::MAX);
                }
            }
            r
        },
        None => {
            proof {
                assert(per_datagram * max_gso_segments > usize::MAX);
                if batch_size > 0 {
                    assert(per_datagram * max_gso_segments * batch_size >= per_datagram * max_gso_segments) by (nonlinear_arith)
                        requires
                            batch_size >= 1,
                            per_datagram * max_gso_segments >= 0,
                    ;
                }
            }
            if batch_size == 0 {
                Some(0)
            } else {
                None
            }
        },
    }
}

/// The pieces of a received datagram of `len` bytes, as (start, end) byte
/// ranges: consecutive pieces of `stride` bytes, the last one shorter when
/// `len` is not a multiple of `stride`.
pub fn stride_ranges(len: usize, stride: usize) -> (r: Vec<(usize, usize)>)
    requires
        stride > 0,
    ensures
        r@.len() == (if len % stride == 0 { (len / stride) as int } else { len / stride + 1 }),
        forall|k: int| 0 <= k < r@.len() ==> #[trigger] r@[k].0 == k * stride,
        forall|k: int| 0 <= k < r@.len() ==> #[trigger] r@[k].1 == (if (k + 1) * stride < len { (k + 1) * stride } else { len as int }),
{
    let mut r: Vec<(usize, usize)> = Vec::new();
    let mut start: usize = 0;
    assert(r@.len() * stride == 0) by (nonlinear_arith)
        requires
            r@.len() == 0,
    ;
    while start < len
        invariant
            stride > 0,
            start <= len,
            start == (if r@.len() * stride < len { r@.len() * stride } else { len as int }),
            forall|k: int| 0 <= k < r@.len() ==> #[trigger] r@[k].0 == k * stride,
            forall|k: int| 0 <= k < r@.len() ==> #[trigger] r@[k].1 == (if (k + 1) * stride < len { (k + 1) * stride } else { len as int }),
            start < len || r@.len() == (if len % stride == 0 { (len / stride) as int } else { len / stride + 1 }),
        decreases len - start,
    {
        let remaining = len - start;
        let piece = if stride < remaining { stride } else { remaining };
        let end = start + piece;
        proof {
            assert((r@.len() + 1) * stride == r@.len() * stride + stride) by (nonlinear_arith);
        }
        r.push((start, end));
        start = end;
        proof {
            if start >= len {
                lemma_piece_count(len, stride, (r@.len() - 1) as nat);
            }
        }
    }
    r
}

/// The last piece of `len` bytes cut in pieces of `stride` bytes, the one
/// that starts at `count * stride`, makes the number of pieces `count + 1`.
proof fn lemma_piece_count(len: usize, stride: usize, count: nat)
    requires
        stride > 0,
        count * stride < len,
        len <= count * stride + stride,
    ensures
        count + 1 == (if len % stride == 0 { (len / stride) as int } else { len / stride + 1 }),
{
    assert(count * stride < len <= (count + 1) * stride) by (nonlinear_arith)
        requires
            count * stride < len,
            len <= count * stride + stride,
    ;
    let q = len / stride;
    let m = len % stride;
    assert(len == q * stride + m && 0 <= m < stride) by (nonlinear_arith)
        requires
            stride > 0,
            q == len / stride,
            m == len % stride,
    ;
    if m == 0 {
        assert(q == count + 1) by (nonlinear_arith)
            requires
                count * stride < q * stride,
                q * stride <= (count + 1) * stride,
                stride > 0,
        ;
    } else {
        assert(q == count) by (nonlinear_arith)
            requires
                count * stride < q * stride + m,
                q * stride + m <= (count + 1) * stride,
                0 < m < stride,
                stride > 0,
        ;
    }
}

/// What the endpoint made of a received datagram.
#[derive(Clone, Copy, Debug, PartialEq, Eq, Structural)]
pub enum DatagramEventKind {
    /// a peer asks to connect
    NewConnection,
    /// an event for one of the endpoint's connections
    ConnectionEvent(u64),
    /// a response to send back
    Response,
}

/// What to do with what the endpoint made of a received datagram.
#[derive(Clone, Copy, Debug, PartialEq, Eq, Structural)]
pub enum DatagramStep {
    /// the endpoint does not accept connections: drop the request
    IgnoreIncoming,
    /// ask the application whether to accept the connection
    AskHandler,
    /// hand the event to the connection
    ForwardToConnection(u64),
    /// the event is for no known connection: drop it
    UnknownConnection,
    /// send the response
    SendResponse,
}

/// What to do with a datagram event: `listening` says whether the endpoint
/// accepts connections, `known` whether the connection of a connection
/// event exists.
pub fn datagram_step(kind: DatagramEventKind, listening: bool, known: bool) -> (r: DatagramStep)
    ensures
        r == (match kind {
            DatagramEventKind::NewConnection => if listening { DatagramStep::AskHandler } else { DatagramStep::IgnoreIncoming },
            DatagramEventKind::ConnectionEvent(id) => if known { DatagramStep::ForwardToConnection(id) } else { DatagramStep::UnknownConnection },
            DatagramEventKind::Response => DatagramStep::SendResponse,
        }),
{
    match kind {
        DatagramEventKind::NewConnection => {
            if listening {
                DatagramStep::AskHandler
            } else {
                DatagramStep::IgnoreIncoming
            }
        },
        DatagramEventKind::ConnectionEvent(id) => {
            if known {
                DatagramStep::ForwardToConnection(id)
            } else {
                DatagramStep::UnknownConnection
            }
        },
        DatagramEventKind::Response => DatagramStep::SendResponse,
    }
}

/// Whether a connection's timer is handled now: when its deadline is not
/// before `now`, both counted in nanoseconds from one start.
pub fn timeout_due(deadline: u64, now: u64) -> (r: bool)
    ensures
        r == (deadline >= now),
{
    deadline >= now
}

/// What accepting an incoming connection came to.
#[derive(Clone, Copy, Debug, PartialEq, Eq, Structural)]
pub enum IncomingStep {
    /// the connection was accepted: add it to the endpoint
    AddConnection(u64),
    /// the connection failed: send the response the endpoint made, if any
    Respond,
    /// the connection failed without a response: nothing to send
    Done,
}

/// What to do once the application decided on an incoming connection:
/// `accepted` is its decision, `outcome` what accepting gave (the new
/// connection's handle, or whether the failure carries a response); a
/// refused connection is answered.
pub fn incoming_step(accepted: bool, outcome: Result<u64, bool>) -> (r: IncomingStep)
    ensures
        !accepted ==> r == IncomingStep::Respond,
        accepted ==> r == (match outcome {
            Ok(handle) => IncomingStep::AddConnection(handle),
            Err(true) => IncomingStep::Respond,
            Err(false) => IncomingStep::Done,
        }),
{
    if !accepted {
        return IncomingStep::Respond;
    }
    match outcome {
        Ok(handle) => IncomingStep::AddConnection(handle),
        Err(true) => IncomingStep::Respond,
        Err(false) => IncomingStep::Done,
    }
}

/// The stream events of a stream that the peer opened: a receive stream,
/// and for a bidirectional stream also a send stream.
pub fn accepted_stream_events(stream_id: u64, bi_directional: bool) -> (r: Vec<StreamEvent<u64>>)
    ensures
        bi_directional ==> r@ == seq![
            StreamEvent { stream_id, peer_generated: true, event_type: StreamEventType::NewRecvStream },
            StreamEvent { stream_id, peer_generated: true, event_type: StreamEventType::NewSendStream },
        ],
        !bi_directional ==> r@ == seq![StreamEvent { stream_id, peer_generated: true, event_type: StreamEventType::NewRecvStream }],
{
    let mut r: Vec<StreamEvent<u64>> = Vec::new();
    r.push(StreamEvent { stream_id, peer_generated: true, event_type: StreamEventType::NewRecvStream });
    if bi_directional {
        r.push(StreamEvent { stream_id, peer_generated: true, event_type: StreamEventType::NewSendStream });
    }
    assert(r@ =~= (if bi_directional {
        seq![
            StreamEvent { stream_id, peer_generated: true, event_type: StreamEventType::NewRecvStream },
            StreamEvent { stream_id, peer_generated: true, event_type: StreamEventType::NewSendStream },
        ]
    } else {
        seq![StreamEvent { stream_id, peer_generated: true, event_type: StreamEventType::NewRecvStream }]
    }));
    r
}

/// What a read of a QUIC receive stream gave.
pub enum RecvOutcome {
    /// the stream cannot be read: it was closed
    ClosedStream,
    /// a chunk of data
    Chunk(Vec<u8>),
    /// the peer finished the stream: no more data will come
    Finished,
    /// no more data for now
    Blocked,
    /// the peer reset the stream with this error code
    Reset(u64),
}

/// The result of a read of QUIC receive stream `stream_id`, and the stream
/// event it gives: a finished stream is reported closed (and reads as
/// blocked).
pub fn quinn_recv_result(stream_id: u64, outcome: RecvOutcome) -> (r: (Result<Vec<u8>, QuinnReadError>, Option<StreamEvent<u64>>))
    ensures
        match outcome {
            RecvOutcome::Chunk(bytes) => r.0 matches Ok(b) && b@ == bytes@ && r.1 is None,
            RecvOutcome::Finished => r.0 == Err::<Vec<u8>, QuinnReadError>(QuinnReadError::Blocked)
                && r.1 == Some(StreamEvent { stream_id, peer_generated: true, event_type: StreamEventType::ClosedRecvStream }),
            RecvOutcome::Blocked => r.0 == Err::<Vec<u8>, QuinnReadError>(QuinnReadError::Blocked) && r.1 is None,
            _ => r.0 == Err::<Vec<u8>, QuinnReadError>(QuinnReadError::NoStream) && r.1 is None,
        },
{
    match outcome {
        RecvOutcome::ClosedStream => (Err(QuinnReadError::NoStream), None),
        RecvOutcome::Chunk(bytes) => (Ok(bytes), None),
        RecvOutcome::Finished => (
            Err(QuinnReadError::Blocked),
            Some(StreamEvent { stream_id, peer_generated: true, event_type: StreamEventType::ClosedRecvStream }),
        ),
        RecvOutcome::Blocked => (Err(QuinnReadError::Blocked), None),
        RecvOutcome::Reset(_) => (Err(QuinnReadError::NoStream), None),
    }
}

} // verus!

verus! {

#[verifier::external_type_specification]
#[verifier::external_body]
pub struct ExQuinnEndpoint(quinn_proto::Endpoint);

#[verifier::external_type_specification]
#[verifier::external_body]
pub struct ExRecvMeta(quinn_udp::RecvMeta);

#[verifier::external_type_specification]
#[verifier::external_body]
pub struct ExDatagramEvent(quinn_proto::DatagramEvent);

/// Reads `RecvMeta::stride`: the length of each datagram in a received
/// buffer, the last one being possibly shorter.
///
/// Trusted: only the field is read; nothing is stated of its value.
#[verifier::external_body]
fn meta_stride(meta: &quinn_udp::RecvMeta) -> (r: usize) {
    meta.stride
}

/// Calls `Endpoint::handle` on one datagram, with the sender's address, the
/// local address and the ECN codepoint that `meta` holds, and names the
/// kind of event it gave.
///
/// Trusted: the kind is the event's variant (a connection event carries its
/// connection handle's index). What the endpoint gives depends on its state,
/// its random number generator and the time, so nothing else is stated; a
/// response is written into `response`.
#[verifier::external_body]
fn endpoint_handle(
    endpoint: &mut quinn_proto::Endpoint,
    now: std::time::Instant,
    meta: &quinn_udp::RecvMeta,
    datagram: &[u8],
    response: &mut Vec<u8>,
) -> (r: Option<(DatagramEventKind, quinn_proto::DatagramEvent)>) {
    let ecn = match meta.ecn {
        Some(quinn_udp::EcnCodepoint::Ect0) => Some(quinn_proto::EcnCodepoint::Ect0),
        Some(quinn_udp::EcnCodepoint::Ect1) => Some(quinn_proto::EcnCodepoint::Ect1),
        Some(quinn_udp::EcnCodepoint::Ce) => Some(quinn_proto::EcnCodepoint::Ce),
        None => None,
    };
    let event = endpoint.handle(now, meta.addr, meta.dst_ip, ecn, datagram.into(), response)?;
    let kind = match &event {
        quinn_proto::DatagramEvent::NewConnection(_) => DatagramEventKind::NewConnection,
        quinn_proto::DatagramEvent::ConnectionEvent(handle, _) => DatagramEventKind::ConnectionEvent(handle.0 as u64),
        quinn_proto::DatagramEvent::Response(_) => DatagramEventKind::Response,
    };
    Some((kind, event))
}

/// The length of each datagram in the received buffer `meta` describes
/// (the last one possibly shorter).
pub fn datagram_stride(meta: &quinn_udp::RecvMeta) -> (r: usize) {
    meta_stride(meta)
}

/// Hands one datagram to the endpoint, with the sender's address, the
/// local address and the ECN codepoint of `meta`, and gives the event it
/// made of it, with its kind; a response goes into `response`.
pub fn handle_datagram(
    endpoint: &mut quinn_proto::Endpoint,
    now: std::time::Instant,
    meta: &quinn_udp::RecvMeta,
    datagram: &[u8],
    response: &mut Vec<u8>,
) -> (r: Option<(DatagramEventKind, quinn_proto::DatagramEvent)>) {
    endpoint_handle(endpoint, now, meta, datagram, response)
}

/// The `k`-th datagram of a buffer of bytes `data` cut at `stride`.
pub open spec fn stride_piece(data: Seq<u8>, stride: int, k: int) -> Seq<u8> {
    data.subrange(k * stride, if (k + 1) * stride < data.len() { (k + 1) * stride } else { data.len() as int })
}

/// How many datagrams a buffer of `len` bytes cut at `stride` holds.
pub open spec fn stride_count(len: int, stride: int) -> int {
    if len % stride == 0 { len / stride } else { len / stride + 1 }
}

/// One call of `handle_datagram` handed the endpoint the bytes `piece`,
/// with `now` and `meta`, and it gave `out`.
pub open spec fn piece_handled(
    now: std::time::Instant,
    meta: &quinn_udp::RecvMeta,
    piece: Seq<u8>,
    out: Option<(DatagramEventKind, quinn_proto::DatagramEvent)>,
) -> bool {
    exists|m: &mut quinn_proto::Endpoint, d: &[u8], resp: &mut Vec<u8>|
        d@ == piece && #[trigger] call_ensures(handle_datagram, (m, now, meta, d, resp), out)
}

/// `r` holds, in order and with its index, the event of each datagram whose
/// call `outs` says gave one.
pub open spec fn events_of_pieces(outs: Seq<Option<(DatagramEventKind, quinn_proto::DatagramEvent)>>, r: Seq<HandledDatagram>) -> bool {
    &&& forall|i: int| 0 <= i < r.len() ==> (#[trigger] r[i]).index < outs.len()
        && outs[r[i].index as int] == Some((r[i].kind, r[i].event))
    &&& forall|k: int| 0 <= k < outs.len() && (#[trigger] outs[k]) is Some ==> exists|i: int| 0 <= i < r.len() && #[trigger] r[i].index == k
}

/// What the endpoint made of one datagram of a received buffer, and what
/// to do with it.
pub struct HandledDatagram {
    /// which of the buffer's datagrams it was
    pub index: usize,
    pub kind: DatagramEventKind,
    pub step: DatagramStep,
    pub event: quinn_proto::DatagramEvent,
    /// the response the endpoint wrote for this datagram, if any
    pub response: Vec<u8>,
}

/// Whether `id` is one of `ids`.
pub fn contains_id(ids: &Vec<u64>, id: u64) -> (r: bool)
    ensures
        r == ids@.contains(id),
{
    let mut i: usize = 0;
    while i < ids.len()
        invariant
            i <= ids@.len(),
            forall|j: int| 0 <= j < i ==> ids@[j] != id,
        decreases ids@.len() - i,
    {
        if ids[i] == id {
            assert(ids@[i as int] == id);
            return true;
        }
        i = i + 1;
    }
    false
}

/// The step for the event of kind `kind`, with the known connections `known`.
pub open spec fn step_for(kind: DatagramEventKind, listening: bool, known: Seq<u64>) -> DatagramStep {
    match kind {
        DatagramEventKind::NewConnection => if listening { DatagramStep::AskHandler } else { DatagramStep::IgnoreIncoming },
        DatagramEventKind::ConnectionEvent(id) => if known.contains(id) { DatagramStep::ForwardToConnection(id) } else { DatagramStep::UnknownConnection },
        DatagramEventKind::Response => DatagramStep::SendResponse,
    }
}

/// Hands a received buffer of `len` bytes to the endpoint, one datagram of
/// the buffer's stride after the other (the last one possibly shorter), in
/// order, and gives, for each datagram the endpoint made an event of, what
/// to do with it: `listening` says whether the endpoint accepts connections,
/// `known` lists the connections it has. A buffer with no stride gives
/// nothing.
pub fn receive_datagram(
    endpoint: &mut quinn_proto::Endpoint,
    now: std::time::Instant,
    meta: &quinn_udp::RecvMeta,
    data: &[u8],
    listening: bool,
    known: &Vec<u64>,
) -> (r: Vec<HandledDatagram>)
    ensures
        forall|i: int| 0 <= i < r@.len() ==> (#[trigger] r@[i]).step == step_for(r@[i].kind, listening, known@),
        forall|i: int, j: int| 0 <= i < j < r@.len() ==> (#[trigger] r@[i]).index < (#[trigger] r@[j]).index,
        forall|i: int| 0 <= i < r@.len() ==> (#[trigger] r@[i]).index < data@.len(),
        exists|stride: usize| #[trigger] call_ensures(datagram_stride, (meta,), stride) && (stride == 0 ==> r@.len() == 0)
            && (stride > 0 ==> exists|outs: Seq<Option<(DatagramEventKind, quinn_proto::DatagramEvent)>>|
                outs.len() == stride_count(data@.len() as int, stride as int) && #[trigger] events_of_pieces(outs, r@)
                && forall|k: int| 0 <= k < outs.len() ==> piece_handled(now, meta, stride_piece(data@, stride as int, k), #[trigger] outs[k])),
{
    let mut out: Vec<HandledDatagram> = Vec::new();
    let stride = datagram_stride(meta);
    if stride == 0 {
        return out;
    }
    let ghost mut outs: Seq<Option<(DatagramEventKind, quinn_proto::DatagramEvent)>> = Seq::empty();
    let ranges = stride_ranges(data.len(), stride);
    let mut k: usize = 0;
    while k < ranges.len()
        invariant
            stride > 0,
            k <= ranges@.len(),
            ranges@.len() == (if data.len() % stride == 0 { (data.len() / stride) as int } else { data.len() / stride + 1 }),
            forall|m: int| 0 <= m < ranges@.len() ==> #[trigger] ranges@[m].0 == m * stride,
            forall|m: int| 0 <= m < ranges@.len() ==> #[trigger] ranges@[m].1 == (if (m + 1) * stride < data@.len() { (m + 1) * stride } else { data@.len() as int }),
            forall|i: int| 0 <= i < out@.len() ==> (#[trigger] out@[i]).step == step_for(out@[i].kind, listening, known@),
            forall|i: int, j: int| 0 <= i < j < out@.len() ==> (#[trigger] out@[i]).index < (#[trigger] out@[j]).index,
            forall|i: int| 0 <= i < out@.len() ==> (#[trigger] out@[i]).index < k,
            k <= data@.len(),
            call_ensures(datagram_stride, (meta,), stride),
            outs.len() == k,
            events_of_pieces(outs, out@),
            forall|j: int| 0 <= j < outs.len() ==> piece_handled(now, meta, stride_piece(data@, stride as int, j), #[trigger] outs[j]),
        decreases ranges@.len() - k,
    {
        let (start, end) = ranges[k];
        proof {
            assert(ranges@[k as int].0 == k * stride);
            assert(k * stride < data@.len()) by (nonlinear_arith)
                requires
                    k < ranges@.len(),
                    stride > 0,
                    ranges@.len() == (if data.len() % stride == 0 { (data.len() / stride) as int } else { data.len() / stride + 1 }),
            ;
            assert(k * stride >= k) by (nonlinear_arith)
                requires
                    stride > 0,
            ;
            assert((k + 1) * stride == k * stride + stride) by (nonlinear_arith);
            assert(ranges@[k as int].1 == (if (k + 1) * stride < data@.len() { (k + 1) * stride } else { data@.len() as int }));
            assert(start <= end <= data@.len());
        }
        let piece = vstd::slice::slice_subrange(data, start, end);
        let mut response: Vec<u8> = Vec::new();
        let handled = handle_datagram(endpoint, now, meta, piece, &mut response);
        let ghost o = handled;
        let ghost outs0 = outs;
        proof {
            assert(piece@ == stride_piece(data@, stride as int, k as int));
            assert(piece_handled(now, meta, stride_piece(data@, stride as int, k as int), o));
            outs = outs.push(o);
            assert forall|j: int| 0 <= j < outs.len() implies piece_handled(now, meta, stride_piece(data@, stride as int, j), #[trigger] outs[j]) by {
                if j < outs0.len() {
                    assert(outs[j] == outs0[j]);
                }
            }
        }
        match handled {
            Some((kind, event)) => {
                let step = match kind {
                    DatagramEventKind::ConnectionEvent(id) => datagram_step(kind, listening, contains_id(known, id)),
                    _ => datagram_step(kind, listening, false),
                };
                let ghost before = out@;
                out.push(HandledDatagram { index: k, kind, step, event, response });
                proof {
                    assert forall|i: int| 0 <= i < out@.len() implies (#[trigger] out@[i]).step == step_for(out@[i].kind, listening, known@) by {
                        if i < before.len() {
                            assert(out@[i] == before[i]);
                        }
                    }
                    assert forall|i: int, j: int| 0 <= i < j < out@.len() implies (#[trigger] out@[i]).index < (#[trigger] out@[j]).index by {
                        if j < before.len() {
                            assert(out@[i] == before[i]);
                            assert(out@[j] == before[j]);
                        } else {
                            assert(out@[i] == before[i]);
                        }
                    }
                    assert forall|i: int| 0 <= i < out@.len() implies (#[trigger] out@[i]).index < k + 1 by {
                        if i < before.len() {
                            assert(out@[i] == before[i]);
                        }
                    }
                    assert(out@[before.len() as int].index == k);
                    assert forall|i: int| 0 <= i < out@.len() implies (#[trigger] out@[i]).index < outs.len()
                        && outs[out@[i].index as int] == Some((out@[i].kind, out@[i].event)) by {
                        if i < before.len() {
                            assert(out@[i] == before[i]);
                            assert(outs[out@[i].index as int] == outs0[out@[i].index as int]);
                        }
                    }
                    assert forall|j: int| 0 <= j < outs.len() && (#[trigger] outs[j]) is Some implies exists|i: int| 0 <= i < out@.len() && #[trigger] out@[i].index == j by {
                        if j < outs0.len() {
                            assert(outs[j] == outs0[j]);
                            let i = choose|i: int| 0 <= i < before.len() && #[trigger] before[i].index == j;
                            assert(out@[i] == before[i]);
                        } else {
                            assert(out@[before.len() as int].index == j);
                        }
                    }
                }
            },
            None => {
                proof {
                    assert forall|i: int| 0 <= i < out@.len() implies (#[trigger] out@[i]).index < outs.len()
                        && outs[out@[i].index as int] == Some((out@[i].kind, out@[i].event)) by {
                        assert(outs[out@[i].index as int] == outs0[out@[i].index as int]);
                    }
                    assert forall|j: int| 0 <= j < outs.len() && (#[trigger] outs[j]) is Some implies exists|i: int| 0 <= i < out@.len() && #[trigger] out@[i].index == j by {
                        assert(outs[j] == outs0[j]);
                    }
                }
            },
        }
        k = k + 1;
    }
    out
}

/// A buffer cut at `stride` into `stride_count` pieces: the pieces start
/// at 0, one after the other, and the last one ends at the buffer's end, so
/// that every byte is in exactly one piece.
proof fn lemma_stride_count_covers(len: int, stride: int)
    requires
        0 <= len,
        0 < stride,
    ensures
        stride_count(len, stride) * stride >= len,
        stride_count(len, stride) == 0 || (stride_count(len, stride) - 1) * stride < len,
{
    let q = len / stride;
    let m = len % stride;
    assert(len == q * stride + m && 0 <= m < stride) by {
        vstd::arithmetic::div_mod::lemma_fundamental_div_mod(len, stride);
    }
    if m == 0 {
        assert(stride_count(len, stride) == q);
        assert(q * stride >= len);
        assert(q == 0 || (q - 1) * stride < len) by (nonlinear_arith)
            requires len == q * stride + m, 0 <= m < stride, m == 0, 0 < stride;
    } else {
        assert(stride_count(len, stride) == q + 1);
        assert((q + 1) * stride >= len) by (nonlinear_arith)
            requires len == q * stride + m, 0 <= m < stride;
        assert(q * stride < len);
    }
}

/// Every datagram of a received buffer reaches the endpoint: for each `k`
/// whose piece starts inside the buffer (`k * stride` below its length),
/// the endpoint is handed the bytes from `k * stride` up to the next
/// stride or the buffer's end, so that every byte is in one piece; what
/// the endpoint makes of a piece is given back under the piece's index,
/// and nothing is given back for an index past the buffer.
pub proof fn law_every_datagram_reaches_the_endpoint(
    now: std::time::Instant,
    meta: &quinn_udp::RecvMeta,
    data: &[u8],
    listening: bool,
    known: &Vec<u64>,
)
    ensures
        forall|e: &mut quinn_proto::Endpoint, r: Vec<HandledDatagram>| #[trigger] call_ensures(
            receive_datagram,
            (e, now, meta, data, listening, known),
            r,
        ) ==> exists|stride: usize| #[trigger] call_ensures(datagram_stride, (meta,), stride) && (stride == 0 ==> r@.len() == 0)
            && (stride > 0 ==> (forall|i: int| 0 <= i < r@.len() ==> (#[trigger] r@[i]).index * stride < data@.len())
                && forall|k: int| 0 <= k && #[trigger] (k * stride) < data@.len() ==> exists|m: &mut quinn_proto::Endpoint, d: &[u8], resp: &mut Vec<u8>, out: Option<(DatagramEventKind, quinn_proto::DatagramEvent)>|
                    #[trigger] call_ensures(handle_datagram, (m, now, meta, d, resp), out)
                    && d@ == data@.subrange(k * stride, if (k + 1) * stride < data@.len() { (k + 1) * stride } else { data@.len() as int })
                    && (out matches Some((kind, event)) ==> exists|i: int| 0 <= i < r@.len() && (#[trigger] r@[i]).index == k
                        && r@[i].kind == kind && r@[i].event == event)),
{
    assert forall|e: &mut quinn_proto::Endpoint, r: Vec<HandledDatagram>| #[trigger] call_ensures(
        receive_datagram,
        (e, now, meta, data, listening, known),
        r,
    ) implies exists|stride: usize| #[trigger] call_ensures(datagram_stride, (meta,), stride) && (stride == 0 ==> r@.len() == 0)
        && (stride > 0 ==> (forall|i: int| 0 <= i < r@.len() ==> (#[trigger] r@[i]).index * stride < data@.len())
            && forall|k: int| 0 <= k && #[trigger] (k * stride) < data@.len() ==> exists|m: &mut quinn_proto::Endpoint, d: &[u8], resp: &mut Vec<u8>, out: Option<(DatagramEventKind, quinn_proto::DatagramEvent)>|
                #[trigger] call_ensures(handle_datagram, (m, now, meta, d, resp), out)
                && d@ == data@.subrange(k * stride, if (k + 1) * stride < data@.len() { (k + 1) * stride } else { data@.len() as int })
                && (out matches Some((kind, event)) ==> exists|i: int| 0 <= i < r@.len() && (#[trigger] r@[i]).index == k
                    && r@[i].kind == kind && r@[i].event == event)) by {
        let stride = choose|stride: usize| #[trigger] call_ensures(datagram_stride, (meta,), stride) && (stride == 0 ==> r@.len() == 0)
            && (stride > 0 ==> exists|outs: Seq<Option<(DatagramEventKind, quinn_proto::DatagramEvent)>>|
                outs.len() == stride_count(data@.len() as int, stride as int) && #[trigger] events_of_pieces(outs, r@)
                && forall|k: int| 0 <= k < outs.len() ==> piece_handled(now, meta, stride_piece(data@, stride as int, k), #[trigger] outs[k]));
        if stride > 0 {
            let outs = choose|outs: Seq<Option<(DatagramEventKind, quinn_proto::DatagramEvent)>>|
                outs.len() == stride_count(data@.len() as int, stride as int) && #[trigger] events_of_pieces(outs, r@)
                && forall|k: int| 0 <= k < outs.len() ==> piece_handled(now, meta, stride_piece(data@, stride as int, k), #[trigger] outs[k]);
            let count = outs.len() as int;
            lemma_stride_count_covers(data@.len() as int, stride as int);
            assert forall|k: int| 0 <= k < count <==> 0 <= k && #[trigger] (k * stride) < data@.len() by {
                if 0 <= k < count {
                    assert(k * stride <= (count - 1) * stride) by (nonlinear_arith)
                        requires k <= count - 1, 0 < stride;
                }
                if 0 <= k && k * stride < data@.len() && k >= count {
                    assert(k * stride >= count * stride) by (nonlinear_arith)
                        requires k >= count, 0 < stride;
                }
            }
            assert forall|i: int| 0 <= i < r@.len() implies (#[trigger] r@[i]).index * stride < data@.len() by {
                assert(r@[i].index < count);
                assert((r@[i].index as int) * stride < data@.len());
            }
            assert forall|k: int| 0 <= k && #[trigger] (k * stride) < data@.len() implies exists|m: &mut quinn_proto::Endpoint, d: &[u8], resp: &mut Vec<u8>, out: Option<(DatagramEventKind, quinn_proto::DatagramEvent)>|
                #[trigger] call_ensures(handle_datagram, (m, now, meta, d, resp), out)
                && d@ == data@.subrange(k * stride, if (k + 1) * stride < data@.len() { (k + 1) * stride } else { data@.len() as int })
                && (out matches Some((kind, event)) ==> exists|i: int| 0 <= i < r@.len() && (#[trigger] r@[i]).index == k
                    && r@[i].kind == kind && r@[i].event == event) by {
                assert(piece_handled(now, meta, stride_piece(data@, stride as int, k), outs[k]));
                if outs[k] is Some {
                    let i = choose|i: int| 0 <= i < r@.len() && #[trigger] r@[i].index == k;
                    assert(outs[r@[i].index as int] == Some((r@[i].kind, r@[i].event)));
                }
            }
        }
    }
}

} // verus!
