use nevy::interface::{StreamEvent, StreamEventType};
use nevy::quic::{AppEvent, ChunkOutcome, ConnectionCall, ConnectionStreams, DatagramEventKind, DatagramStep, EndpointBuffers, IncomingStep, RecvOutcome, StreamReaderResponse, WriteError, accepted_stream_events, contains_id, datagram_step, incoming_step, quinn_recv_result, read_chunk, recv_buffer_len, stride_ranges, timeout_due};
use nevy::interface::Side;
use nevy::quinn::{receivable, sendable};
use nevy::transports::{QuinnReadError, QuinnSendError, WriteOutcome, quinn_send_result, write_result};

#[test]
fn readers_open_only_on_readable_streams() {
    let mut streams = ConnectionStreams::new();
    assert!(!streams.open_reader(4));
    assert_eq!(streams.accept_stream(4, true), ConnectionCall::NewStream { stream_id: 4, bi_directional: true });
    assert!(streams.is_readable(4));
    assert!(streams.open_reader(4));
    assert!(streams.open_reader(4));
    // nothing was read to the end yet: the stream stays readable
    assert_eq!(streams.take_responses(), Vec::new());
    assert!(streams.is_readable(4));
}

#[test]
fn finished_and_reset_streams_are_reported_closed() {
    let mut streams = ConnectionStreams::new();
    assert_eq!(streams.handle_app_event(AppEvent::StreamReadable(1)), None);
    streams.accept_stream(2, false);
    streams.accept_stream(3, false);
    streams.accept_stream(5, false);
    for id in [1, 2, 3, 5] {
        assert!(streams.open_reader(id));
    }
    streams.set_response(1, StreamReaderResponse::Finished);
    streams.set_response(2, StreamReaderResponse::Reset(42));
    streams.set_response(3, StreamReaderResponse::Blocked);
    let calls = streams.take_responses();
    assert_eq!(calls, vec![
        ConnectionCall::ReceiveStreamClosed { stream_id: 1, reset_error: None },
        ConnectionCall::ReceiveStreamClosed { stream_id: 2, reset_error: Some(42) },
    ]);
    assert!(!streams.is_readable(1));
    assert!(!streams.is_readable(2));
    assert!(!streams.is_readable(3));
    assert!(streams.is_readable(5));
    assert_eq!(streams.take_responses(), Vec::new());
}

#[test]
fn connection_events_reach_the_application() {
    let mut streams = ConnectionStreams::new();
    assert_eq!(streams.handle_app_event(AppEvent::Connected), Some(ConnectionCall::NewConnection));
    assert_eq!(streams.handle_app_event(AppEvent::ConnectionLost), Some(ConnectionCall::Disconnected));
    assert_eq!(streams.handle_app_event(AppEvent::StreamWritable(3)), None);
    assert_eq!(streams.handle_app_event(AppEvent::DatagramReceived), None);
    assert!(!streams.is_readable(3));
}

#[test]
fn chunks_use_up_the_read_budget() {
    assert_eq!(read_chunk(10, ChunkOutcome::Data(4)), (6, None));
    assert_eq!(read_chunk(10, ChunkOutcome::End), (10, Some(StreamReaderResponse::Finished)));
    assert_eq!(read_chunk(10, ChunkOutcome::Reset(9)), (10, Some(StreamReaderResponse::Reset(9))));
    assert_eq!(read_chunk(0, ChunkOutcome::Blocked), (0, Some(StreamReaderResponse::Blocked)));
}

#[test]
fn datagrams_are_cut_into_strides() {
    assert_eq!(stride_ranges(10, 4), vec![(0, 4), (4, 8), (8, 10)]);
    assert_eq!(stride_ranges(8, 4), vec![(0, 4), (4, 8)]);
    assert_eq!(stride_ranges(3, 1500), vec![(0, 3)]);
    assert_eq!(stride_ranges(0, 4), Vec::new());
}

#[test]
fn receive_buffer_holds_a_batch_of_datagrams() {
    assert_eq!(recv_buffer_len(1452, 1, 32), Some(1452 * 32));
    assert_eq!(recv_buffer_len(100_000, 2, 1), Some(65536 * 2));
    assert_eq!(recv_buffer_len(65536, usize::MAX, 2), None);
    assert_eq!(recv_buffer_len(10, 0, 5), Some(0));
}

#[test]
fn endpoint_buffers_resize_and_clear() {
    let mut buffers = EndpointBuffers::new();
    buffers.send_buffer.push(1);
    buffers.prepare_recv(5);
    assert_eq!(buffers.recv_buffer, vec![0; 5]);
    buffers.recv_buffer[0] = 9;
    buffers.prepare_recv(3);
    assert_eq!(buffers.recv_buffer, vec![9, 0, 0]);
    assert_eq!(buffers.send_buffer, vec![1]);
    buffers.clear();
    assert!(buffers.recv_buffer.is_empty() && buffers.send_buffer.is_empty());
}

#[test]
fn datagram_events_are_dispatched() {
    assert_eq!(datagram_step(DatagramEventKind::NewConnection, false, false), DatagramStep::IgnoreIncoming);
    assert_eq!(datagram_step(DatagramEventKind::NewConnection, true, false), DatagramStep::AskHandler);
    assert_eq!(datagram_step(DatagramEventKind::ConnectionEvent(7), true, true), DatagramStep::ForwardToConnection(7));
    assert_eq!(datagram_step(DatagramEventKind::ConnectionEvent(7), true, false), DatagramStep::UnknownConnection);
    assert_eq!(datagram_step(DatagramEventKind::Response, false, false), DatagramStep::SendResponse);
}

#[test]
fn incoming_connections_are_added_or_answered() {
    assert_eq!(incoming_step(false, Ok(3)), IncomingStep::Respond);
    assert_eq!(incoming_step(true, Ok(3)), IncomingStep::AddConnection(3));
    assert_eq!(incoming_step(true, Err(true)), IncomingStep::Respond);
    assert_eq!(incoming_step(true, Err(false)), IncomingStep::Done);
}

#[test]
fn peer_streams_become_stream_events() {
    let recv = StreamEvent { stream_id: 4u64, peer_generated: true, event_type: StreamEventType::NewRecvStream };
    let send = StreamEvent { stream_id: 4u64, peer_generated: true, event_type: StreamEventType::NewSendStream };
    assert_eq!(accepted_stream_events(4, false), vec![recv]);
    assert_eq!(accepted_stream_events(4, true), vec![recv, send]);
}

#[test]
fn quic_reads_and_writes_map_to_stream_errors() {
    assert_eq!(quinn_recv_result(3, RecvOutcome::Chunk(vec![1, 2])), (Ok(vec![1, 2]), None));
    assert_eq!(quinn_recv_result(3, RecvOutcome::Finished), (Err(QuinnReadError::Blocked), Some(StreamEvent { stream_id: 3, peer_generated: true, event_type: StreamEventType::ClosedRecvStream })));
    assert_eq!(quinn_recv_result(3, RecvOutcome::Blocked), (Err(QuinnReadError::Blocked), None));
    assert_eq!(quinn_recv_result(3, RecvOutcome::Reset(7)), (Err(QuinnReadError::NoStream), None));
    assert_eq!(quinn_recv_result(3, RecvOutcome::ClosedStream), (Err(QuinnReadError::NoStream), None));
    assert_eq!(quinn_send_result(WriteOutcome::Written(5)), Ok(5));
    assert_eq!(quinn_send_result(WriteOutcome::Blocked), Err(QuinnSendError::Blocked));
    assert_eq!(quinn_send_result(WriteOutcome::Stopped(2)), Err(QuinnSendError::NoStream));
    assert_eq!(write_result(WriteOutcome::ClosedStream), Err(WriteError::StreamDoesntExist));
    assert_eq!(write_result(WriteOutcome::Blocked), Err(WriteError::Blocked));
    assert_eq!(write_result(WriteOutcome::Written(0)), Ok(0));
}

#[test]
fn timers_are_handled_when_their_deadline_is_not_before_now() {
    assert!(timeout_due(10, 5));
    assert!(timeout_due(7, 7));
    assert!(!timeout_due(3, 9));
}

#[test]
fn stream_directions_follow_the_id_bits() {
    // id 0: client-opened, bidirectional; 2: client-opened, unidirectional;
    // 3: server-opened, unidirectional.
    assert!(sendable(Side::Client, 0) && receivable(Side::Client, 0));
    assert!(sendable(Side::Client, 2) && !receivable(Side::Client, 2));
    assert!(!sendable(Side::Server, 2) && receivable(Side::Server, 2));
    assert!(sendable(Side::Server, 3) && !receivable(Side::Server, 3));
    assert!(!sendable(Side::Client, 3) && receivable(Side::Client, 3));
    assert!(!sendable(Side::Client, 0x4000_0000_0000_0000) && !receivable(Side::Client, 0x4000_0000_0000_0000));
}

#[test]
fn known_connections_are_found_by_id() {
    let known = vec![3u64, 9, 12];
    assert!(contains_id(&known, 9));
    assert!(contains_id(&known, 12));
    assert!(!contains_id(&known, 4));
    assert!(!contains_id(&Vec::new(), 0));
}
