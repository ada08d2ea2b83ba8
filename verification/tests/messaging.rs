use std::cell::RefCell;
use std::collections::{HashMap, VecDeque};
use std::rc::Rc;

use nevy::connections::{BevyConnectionMut, ConnectionMut, DescriptionValue, StreamDescription};
use nevy::deserialize::{ConnectionMessageStreams, ReadMessageError, ReadMessageState, ReceivedMessages, ReceivedSerializedMessages, is_message_stream};
use nevy::headers::{HeaderStreamEvent, HeaderStreamEventType};
use nevy::interface::{Dir, RecvStreamMut, SendStreamMut, StreamEvent};
use nevy::protocol::{ProtocolBuilder, assign_message_ids};
use nevy::serialize::{MessageId, MessageStreamState, encode_message};
use nevy::streams::{BevyStreamId, MismatchedStreamType, MismatchedType, StreamKind};
use nevy::transports::{QuinnReadError, QuinnSendError};

/// An in-memory QUIC connection: what was written to each stream, what
/// each stream has to read, and how many more bytes writes take.
struct State {
    next_id: u64,
    written: HashMap<u64, Vec<u8>>,
    incoming: HashMap<u64, VecDeque<u8>>,
    write_limit: usize,
    read_limit: usize,
    failing_reads: bool,
}

#[derive(Clone)]
struct Mock(Rc<RefCell<State>>);

fn mock(write_limit: usize) -> Mock {
    Mock(Rc::new(RefCell::new(State {
        next_id: 0,
        written: HashMap::new(),
        incoming: HashMap::new(),
        write_limit,
        read_limit: usize::MAX,
        failing_reads: false,
    })))
}

struct MockSend(Rc<RefCell<State>>, u64);
struct MockRecv(Rc<RefCell<State>>, u64);

impl SendStreamMut for MockSend {
    type SendError = QuinnSendError;
    type CloseDescription = Option<u64>;

    fn send(&mut self, data: &[u8]) -> Result<usize, QuinnSendError> {
        let mut state = self.0.borrow_mut();
        let n = data.len().min(state.write_limit);
        if n == 0 && !data.is_empty() {
            return Err(QuinnSendError::Blocked);
        }
        if state.write_limit != usize::MAX {
            state.write_limit -= n;
        }
        state.written.entry(self.1).or_default().extend_from_slice(&data[..n]);
        Ok(n)
    }

    fn close(&mut self, _description: Option<u64>) -> Result<(), ()> {
        Ok(())
    }

    fn is_open(&self) -> bool {
        true
    }
}

impl RecvStreamMut for MockRecv {
    type ReadError = QuinnReadError;
    type CloseDescription = u64;

    fn recv(&mut self, limit: usize) -> Result<Vec<u8>, QuinnReadError> {
        let mut state = self.0.borrow_mut();
        if state.failing_reads {
            return Err(QuinnReadError::NoStream);
        }
        let read_limit = state.read_limit;
        let queue = state.incoming.entry(self.1).or_default();
        if queue.is_empty() {
            return Err(QuinnReadError::Blocked);
        }
        let n = queue.len().min(limit).min(read_limit);
        Ok(queue.drain(..n).collect())
    }

    fn close(&mut self, _description: u64) -> Result<(), ()> {
        Ok(())
    }

    fn is_open(&self) -> bool {
        true
    }
}

impl ConnectionMut for Mock {
    type OpenDescription = Dir;
    type SendError = QuinnSendError;
    type ReadError = QuinnReadError;
    type SendMut<'s> = MockSend where Self: 's;
    type RecvMut<'s> = MockRecv where Self: 's;


    fn open_stream(&mut self, _description: Dir) -> Option<u64> {
        let mut state = self.0.borrow_mut();
        let id = state.next_id;
        state.next_id += 1;
        Some(id)
    }

    fn send_stream<'s>(&'s mut self, stream_id: u64) -> Option<MockSend> {
        Some(MockSend(self.0.clone(), stream_id))
    }

    fn recv_stream<'s>(&'s mut self, stream_id: u64) -> Option<MockRecv> {
        Some(MockRecv(self.0.clone(), stream_id))
    }

    fn poll_stream_events(&mut self) -> Option<StreamEvent<u64>> {
        None
    }

    fn disconnect(&mut self) {}
}

fn uni() -> StreamDescription {
    StreamDescription::new(DescriptionValue::Direction(Dir::Uni))
}

#[test]
fn frame_is_id_length_and_payload_big_endian() {
    let frame = encode_message(MessageId { message_id: 0x0102 }, b"abc");
    assert_eq!(frame, vec![0x01, 0x02, 0x00, 0x03, b'a', b'b', b'c']);
    let empty = encode_message(MessageId { message_id: 0xffff }, b"");
    assert_eq!(empty, vec![0xff, 0xff, 0x00, 0x00]);
}

#[test]
fn frame_length_is_written_modulo_65536() {
    let payload = vec![7u8; 65537];
    let frame = encode_message(MessageId { message_id: 1 }, &payload);
    assert_eq!(&frame[..4], &[0x00, 0x01, 0x00, 0x01]);
    assert_eq!(frame.len(), 4 + 65537);
}

#[test]
fn message_stream_sends_header_then_frames() {
    let state = mock(usize::MAX);
    let mut connection = BevyConnectionMut::new(state.clone(), StreamKind::Quic);
    let mut stream = MessageStreamState::new(&mut connection, uni(), 7).unwrap().unwrap();
    assert_eq!(stream.stream_id(), BevyStreamId::new(StreamKind::Quic, 0));
    assert!(stream.ready());
    assert!(matches!(stream.send(&mut connection, MessageId { message_id: 5 }, b"hi"), Ok(true)));
    assert!(stream.ready());
    assert!(matches!(stream.send(&mut connection, MessageId { message_id: 6 }, b""), Ok(true)));
    let written = state.0.borrow().written.get(&0).cloned().unwrap();
    assert_eq!(written, vec![0, 7, 0, 5, 0, 2, b'h', b'i', 0, 6, 0, 0]);
    assert_eq!(stream.end(), BevyStreamId::new(StreamKind::Quic, 0));
}

#[test]
fn message_stream_refuses_a_message_while_the_last_one_is_queued() {
    let state = mock(5);
    let mut connection = BevyConnectionMut::new(state.clone(), StreamKind::Quic);
    let mut stream = MessageStreamState::new(&mut connection, uni(), 1).unwrap().unwrap();
    // the stream takes five bytes: the header, then three bytes of the frame
    assert!(matches!(stream.send(&mut connection, MessageId { message_id: 2 }, b"abcdef"), Ok(true)));
    assert!(!stream.ready());
    assert_eq!(state.0.borrow().written.get(&0).cloned().unwrap(), vec![0, 1, 0, 2, 0]);
    assert!(matches!(stream.send(&mut connection, MessageId { message_id: 3 }, b"x"), Ok(false)));
    assert!(matches!(stream.flush(&mut connection), Ok(false)));
    state.0.borrow_mut().write_limit = 100;
    assert!(matches!(stream.flush(&mut connection), Ok(true)));
    assert!(stream.ready());
    let written = state.0.borrow().written.get(&0).cloned().unwrap();
    assert_eq!(written, vec![0, 1, 0, 2, 0, 6, b'a', b'b', b'c', b'd', b'e', b'f']);
}

#[test]
fn message_stream_needs_a_description_of_the_connections_transport() {
    let mut connection = BevyConnectionMut::new(mock(usize::MAX), StreamKind::Quic);
    let r = MessageStreamState::new(&mut connection, StreamDescription::new(DescriptionValue::Unit), 1);
    assert_eq!(r.err(), Some(MismatchedType { expected: "Dir" }));
}

#[test]
fn stream_ids_of_another_transport_are_refused() {
    let mut quic = BevyConnectionMut::new(mock(usize::MAX), StreamKind::Quic);
    let browser_stream = BevyStreamId::new(StreamKind::Browser, 0);
    assert_eq!(quic.send_stream(browser_stream).err(), Some(MismatchedStreamType { expected: "QuinnStreamId" }));
    assert_eq!(quic.recv_stream(browser_stream).err(), Some(MismatchedStreamType { expected: "QuinnStreamId" }));
    assert!(quic.send_stream(BevyStreamId::new(StreamKind::Quic, 0)).unwrap().is_some());
}

fn read_all(state: &mut ReadMessageState, stream: &mut MockRecv) -> Vec<(u16, Vec<u8>)> {
    let mut out = Vec::new();
    while let Ok(Some(message)) = state.read(stream) {
        out.push(message);
    }
    out
}

#[test]
fn reader_returns_the_messages_of_the_frames() {
    let m = mock(usize::MAX);
    let mut bytes = encode_message(MessageId { message_id: 3 }, b"one");
    bytes.extend(encode_message(MessageId { message_id: 4 }, b""));
    bytes.extend(encode_message(MessageId { message_id: 5 }, b"three"));
    m.0.borrow_mut().incoming.insert(9, bytes.into_iter().collect());
    m.0.borrow_mut().read_limit = 2;
    let mut stream = MockRecv(m.0.clone(), 9);
    let mut state = ReadMessageState::new();
    let messages = read_all(&mut state, &mut stream);
    assert_eq!(messages, vec![(3, b"one".to_vec()), (4, Vec::new()), (5, b"three".to_vec())]);
}

#[test]
fn reader_keeps_a_partial_frame_until_the_rest_arrives() {
    let m = mock(usize::MAX);
    m.0.borrow_mut().incoming.insert(1, vec![0u8, 9, 0, 2, b'x'].into_iter().collect());
    let mut stream = MockRecv(m.0.clone(), 1);
    let mut state = ReadMessageState::new();
    assert_eq!(state.read(&mut stream), Ok(None));
    assert_eq!(state.to_read(), 1);
    m.0.borrow_mut().incoming.get_mut(&1).unwrap().push_back(b'y');
    assert_eq!(state.read(&mut stream), Ok(Some((9, b"xy".to_vec()))));
    assert_eq!(state.to_read(), 4);
}

#[test]
fn reader_reports_a_failed_stream() {
    let m = mock(usize::MAX);
    m.0.borrow_mut().failing_reads = true;
    let mut stream = MockRecv(m.0.clone(), 1);
    let mut state = ReadMessageState::new();
    assert_eq!(state.read(&mut stream), Err(ReadMessageError::FatalHeaderRead));
    m.0.borrow_mut().failing_reads = false;
    m.0.borrow_mut().incoming.insert(1, vec![0u8, 9, 0, 2, b'x'].into_iter().collect());
    assert_eq!(state.read(&mut stream), Ok(None));
    m.0.borrow_mut().failing_reads = true;
    assert_eq!(state.read(&mut stream), Err(ReadMessageError::FatalBodyRead));
}

#[test]
fn received_messages_come_out_in_order_per_id() {
    let mut received = ReceivedSerializedMessages::new();
    received.push_message(2, b"a".to_vec());
    received.push_message(0, b"b".to_vec());
    received.push_message(2, b"c".to_vec());
    assert_eq!(received.poll_message_received(1), None);
    assert_eq!(received.poll_message_received(2), Some(b"a".to_vec()));
    assert_eq!(received.poll_message_received(0), Some(b"b".to_vec()));
    assert_eq!(received.poll_message_received(2), Some(b"c".to_vec()));
    assert_eq!(received.poll_message_received(2), None);
    assert_eq!(received.poll_message_received(60000), None);
}

#[test]
fn deserialized_messages_pop_and_drain_oldest_first() {
    let mut messages: ReceivedMessages<u32> = ReceivedMessages::new();
    assert_eq!(messages.pop(), None);
    messages.push(1);
    messages.push(2);
    messages.push(3);
    assert_eq!(messages.pop(), Some(1));
    assert_eq!(messages.drain(), vec![2, 3]);
    assert_eq!(messages.pop(), None);
}

#[test]
fn protocol_gives_both_sides_the_same_ids() {
    let mut builder = ProtocolBuilder::new();
    builder.add_message("Chat");
    builder.add_message("Move");
    builder.add_message("Quit");
    let (send, recv) = builder.build_symmetric("Update");
    let send_ids = send.message_ids();
    let recv_ids = recv.message_ids();
    assert_eq!(send_ids, recv_ids);
    assert_eq!(send_ids, vec![("Chat", MessageId { message_id: 0 }), ("Move", MessageId { message_id: 1 }), ("Quit", MessageId { message_id: 2 })]);
    assert_eq!(recv.schedule(), "Update");
}

#[test]
fn message_ids_follow_the_order_of_registration() {
    let ids = assign_message_ids(&vec!["a", "b"]);
    assert_eq!(ids, vec![("a", MessageId { message_id: 0 }), ("b", MessageId { message_id: 1 })]);
}

#[test]
fn only_streams_with_the_message_header_carry_messages() {
    let id = BevyStreamId::new(StreamKind::Quic, 4);
    let event = HeaderStreamEvent { stream_id: id, peer_generated: true, event_type: HeaderStreamEventType::NewRecvStream(12) };
    assert!(is_message_stream(&event, 12));
    assert!(!is_message_stream(&event, 13));
    let send = HeaderStreamEvent { stream_id: id, peer_generated: true, event_type: HeaderStreamEventType::NewSendStream };
    assert!(!is_message_stream(&send, 12));
    let mut streams = ConnectionMessageStreams::new();
    assert!(!streams.receive_stream(&send, 12));
    assert!(streams.receive_stream(&event, 12));
    assert_eq!(streams.len(), 1);
    assert_eq!(streams.stream_id_at(0), id);
}

#[test]
fn message_streams_queue_what_they_read() {
    let m = mock(usize::MAX);
    let mut bytes = encode_message(MessageId { message_id: 1 }, b"x");
    bytes.extend(encode_message(MessageId { message_id: 0 }, b"yz"));
    m.0.borrow_mut().incoming.insert(4, bytes.into_iter().collect());
    let mut connection = BevyConnectionMut::new(m.clone(), StreamKind::Quic);
    let mut streams = ConnectionMessageStreams::new();
    let event = HeaderStreamEvent { stream_id: BevyStreamId::new(StreamKind::Quic, 4), peer_generated: true, event_type: HeaderStreamEventType::NewRecvStream(12) };
    assert!(streams.receive_stream(&event, 12));
    let mut received = ReceivedSerializedMessages::new();
    assert_eq!(streams.read_messages(&mut connection, &mut received, usize::MAX), Ok(()));
    assert_eq!(received.poll_message_received(1), Some(b"x".to_vec()));
    assert_eq!(received.poll_message_received(0), Some(b"yz".to_vec()));
    assert_eq!(streams.len(), 1);
}

#[test]
fn interleaved_receives_and_takes_keep_each_ids_order() {
    let mut received = ReceivedSerializedMessages::new();
    received.push_message(1, b"x1".to_vec());
    received.push_message(3, b"y1".to_vec());
    assert_eq!(received.poll_message_received(1), Some(b"x1".to_vec()));
    received.push_message(1, b"x2".to_vec());
    received.push_message(3, b"y2".to_vec());
    received.push_message(1, b"x3".to_vec());
    assert_eq!(received.poll_message_received(3), Some(b"y1".to_vec()));
    assert_eq!(received.poll_message_received(1), Some(b"x2".to_vec()));
    assert_eq!(received.poll_message_received(1), Some(b"x3".to_vec()));
    assert_eq!(received.poll_message_received(3), Some(b"y2".to_vec()));
    assert_eq!(received.poll_message_received(1), None);
}

#[test]
fn reader_reads_one_frame_of_a_byte_stream_then_waits() {
    let m = mock(usize::MAX);
    m.0.borrow_mut().incoming.insert(2, vec![0x00u8, 0x01, 0x00, 0x02, 0x09, 0x08].into_iter().collect());
    let mut stream = MockRecv(m.0.clone(), 2);
    let mut state = ReadMessageState::new();
    assert_eq!(state.read(&mut stream), Ok(Some((1, vec![9u8, 8u8]))));
    assert_eq!(state.to_read(), 4);
    assert_eq!(state.read(&mut stream), Ok(None));
    assert_eq!(state.to_read(), 4);
}

#[test]
fn reader_gives_the_same_messages_whatever_the_chunk_size() {
    let mut bytes = encode_message(MessageId { message_id: 7 }, b"abcdef");
    bytes.extend(encode_message(MessageId { message_id: 8 }, b"g"));
    for limit in 1..=bytes.len() {
        let m = mock(usize::MAX);
        m.0.borrow_mut().incoming.insert(4, bytes.iter().copied().collect());
        m.0.borrow_mut().read_limit = limit;
        let mut stream = MockRecv(m.0.clone(), 4);
        let mut state = ReadMessageState::new();
        let messages = read_all(&mut state, &mut stream);
        assert_eq!(messages, vec![(7, b"abcdef".to_vec()), (8, b"g".to_vec())]);
    }
}
