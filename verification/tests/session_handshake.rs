use std::cell::RefCell;
use std::collections::{HashMap, VecDeque};
use std::rc::Rc;

use nevy::handshake::{NewStreamAction, ReadStep, WebTransportEndpoint, stream_header_accepted, step_of};
use nevy::interface::{Dir, Side, StreamConnection, StreamEvent, StreamEventType};
use nevy::session::{QuinnStreamId, ReadResult, WebTransportConnection, WebTransportStreamId, connect_read_result, read_available, settings_read_result};
use nevy::wire::{ConnectDecode, SettingsDecode};

/// Two ends of an in-memory QUIC connection: every stream direction is a
/// byte queue, and opening a stream tells the other end.
struct Net {
    next_id: u64,
    queues: HashMap<(u64, bool), VecDeque<u8>>,
    events: [Vec<StreamEvent<QuinnStreamId>>; 2],
}

struct Peer {
    net: Rc<RefCell<Net>>,
    is_client: bool,
    disconnected: bool,
    /// at most this many bytes are taken per write
    write_limit: usize,
}

fn pair(write_limit: usize) -> (Peer, Peer) {
    let net = Rc::new(RefCell::new(Net { next_id: 0, queues: HashMap::new(), events: [Vec::new(), Vec::new()] }));
    (
        Peer { net: net.clone(), is_client: true, disconnected: false, write_limit },
        Peer { net, is_client: false, disconnected: false, write_limit },
    )
}

impl Peer {
    fn other(&self) -> usize {
        if self.is_client { 1 } else { 0 }
    }

    fn take_events(&mut self) -> Vec<StreamEvent<QuinnStreamId>> {
        let me = if self.is_client { 0 } else { 1 };
        std::mem::take(&mut self.net.borrow_mut().events[me])
    }
}

impl StreamConnection for Peer {
    type SendError = ();
    type ReadError = ();

    fn open_stream(&mut self, dir: Dir) -> Option<u64> {
        let other = self.other();
        let mut net = self.net.borrow_mut();
        let id = net.next_id;
        net.next_id += 1;
        net.events[other].push(StreamEvent { stream_id: QuinnStreamId(id), peer_generated: true, event_type: StreamEventType::NewRecvStream });
        if dir == Dir::Bi {
            net.events[other].push(StreamEvent { stream_id: QuinnStreamId(id), peer_generated: true, event_type: StreamEventType::NewSendStream });
        }
        Some(id)
    }

    fn send(&mut self, stream_id: u64, data: &[u8]) -> Result<usize, ()> {
        let n = data.len().min(self.write_limit);
        let mut net = self.net.borrow_mut();
        net.queues.entry((stream_id, self.is_client)).or_default().extend(&data[..n]);
        Ok(n)
    }

    fn recv(&mut self, stream_id: u64, limit: usize) -> Result<Vec<u8>, ()> {
        let mut net = self.net.borrow_mut();
        let queue = net.queues.entry((stream_id, !self.is_client)).or_default();
        let n = queue.len().min(limit);
        Ok(queue.drain(..n).collect())
    }

    fn disconnect(&mut self) {
        self.disconnected = true;
    }
}

fn step(session: &mut WebTransportConnection, peer: &mut Peer) -> bool {
    for event in peer.take_events() {
        session.handle_quic_stream_event(event);
    }
    let incoming = match session.handshake_recv_stream() {
        Some(stream) => peer.recv(stream, 4096).unwrap(),
        None => Vec::new(),
    };
    session.advance(peer, &incoming)
}

fn run_handshake(write_limit: usize) -> (WebTransportConnection, WebTransportConnection, Peer, Peer, usize) {
    let (mut client_peer, mut server_peer) = pair(write_limit);
    let mut client = WebTransportConnection::new();
    let mut server = WebTransportConnection::new();
    client.connected(Side::Client, &mut client_peer);
    server.connected(Side::Server, &mut server_peer);
    let mut connected_calls = 0;
    for _ in 0..200 {
        if step(&mut client, &mut client_peer) {
            connected_calls += 1;
        }
        if step(&mut server, &mut server_peer) {
            connected_calls += 1;
        }
        if client.is_connected() && server.is_connected() {
            break;
        }
    }
    (client, server, client_peer, server_peer, connected_calls)
}

#[test]
fn client_and_server_complete_the_handshake() {
    let (client, server, client_peer, server_peer, connected_calls) = run_handshake(usize::MAX);
    assert!(client.is_connected());
    assert!(server.is_connected());
    assert_eq!(connected_calls, 2);
    assert!(!client_peer.disconnected);
    assert!(!server_peer.disconnected);
}

#[test]
fn handshake_completes_over_a_stream_that_takes_a_few_bytes_at_a_time() {
    let (client, server, _, _, connected_calls) = run_handshake(3);
    assert!(client.is_connected());
    assert!(server.is_connected());
    assert_eq!(connected_calls, 2);
}

#[test]
fn connected_session_stays_connected() {
    let (mut client, _, mut client_peer, _, _) = run_handshake(usize::MAX);
    for _ in 0..3 {
        assert!(!client.advance(&mut client_peer, &[1, 2, 3]));
        assert!(client.is_connected());
    }
}

#[test]
fn server_fails_on_settings_without_webtransport() {
    let (_, mut server_peer) = pair(usize::MAX);
    let mut server = WebTransportConnection::new();
    server.connected(Side::Server, &mut server_peer);
    server.handle_quic_stream_event(StreamEvent { stream_id: QuinnStreamId(2), peer_generated: true, event_type: StreamEventType::NewRecvStream });
    assert_eq!(server.handshake_recv_stream(), Some(2));
    // control stream type, SETTINGS frame with no settings
    assert!(!server.advance(&mut server_peer, &[0x00, 0x04, 0x00]));
    assert!(!server.is_connected());
    assert!(server_peer.disconnected);
    assert_eq!(server.handshake_recv_stream(), None);
}

#[test]
fn server_waits_for_the_rest_of_the_settings() {
    let (_, mut server_peer) = pair(usize::MAX);
    let mut server = WebTransportConnection::new();
    server.connected(Side::Server, &mut server_peer);
    server.handle_quic_stream_event(StreamEvent { stream_id: QuinnStreamId(2), peer_generated: true, event_type: StreamEventType::NewRecvStream });
    assert!(!server.advance(&mut server_peer, &[0x00, 0x04]));
    assert!(!server_peer.disconnected);
    assert_eq!(server.handshake_recv_stream(), Some(2));
}

#[test]
fn streams_carry_the_webtransport_header() {
    let (mut client, mut server, mut client_peer, mut server_peer, _) = run_handshake(usize::MAX);
    let stream = client.open_stream(&mut client_peer, Dir::Uni).unwrap();
    assert_eq!(client.poll_event(), Some(StreamEvent { stream_id: stream, peer_generated: false, event_type: StreamEventType::NewSendStream }));
    assert_eq!(client.send(&mut client_peer, stream, b"hello"), Some(Ok(5)));

    for event in server_peer.take_events() {
        server.handle_quic_stream_event(event);
    }
    let mut reported = false;
    while let Some(event) = server.poll_event() {
        if event.stream_id == stream {
            assert_eq!(event, StreamEvent { stream_id: stream, peer_generated: true, event_type: StreamEventType::NewRecvStream });
            reported = true;
        }
    }
    assert!(reported);
    let mut received = Vec::new();
    for _ in 0..10 {
        if let Some(Ok(bytes)) = server.recv(&mut server_peer, stream, 100) {
            received.extend(bytes);
        }
    }
    assert_eq!(received, b"hello".to_vec());
}

#[test]
fn stream_ids_wrap_quic_stream_ids() {
    let id = WebTransportStreamId(QuinnStreamId(7));
    assert_eq!(id.0 .0, 7);
}

#[test]
fn settings_and_connect_judgements() {
    assert_eq!(settings_read_result(SettingsDecode::Decoded(1)), ReadResult::Success);
    assert_eq!(settings_read_result(SettingsDecode::Decoded(0)), ReadResult::Fail);
    assert_eq!(settings_read_result(SettingsDecode::Decoded(2)), ReadResult::Fail);
    assert_eq!(settings_read_result(SettingsDecode::Incomplete), ReadResult::Wait);
    assert_eq!(settings_read_result(SettingsDecode::Invalid), ReadResult::Fail);
    assert_eq!(connect_read_result(ConnectDecode::Decoded), ReadResult::Success);
    assert_eq!(connect_read_result(ConnectDecode::Incomplete), ReadResult::Wait);
    assert_eq!(connect_read_result(ConnectDecode::Invalid), ReadResult::Fail);
}

/// Drives the endpoint-level handshake of one connection one step: what
/// its reading state reads is judged, and the connection advances.
fn endpoint_round(endpoint: &mut WebTransportEndpoint, id: u64, peer: &mut Peer) -> bool {
    let mut read = ReadResult::Wait;
    if let Some(stream) = endpoint.reading_stream(id) {
        let chunk = peer.recv(stream, 4096).unwrap();
        if !chunk.is_empty() {
            if let ReadStep::Done(r) = endpoint.absorb_chunk(id, &chunk) {
                read = r;
            }
        }
    }
    endpoint.advance_connection(id, peer, read);
    endpoint.is_initializing(id)
}

#[test]
fn endpoint_client_sends_webtransport_settings_first() {
    let (mut client_peer, mut server_peer) = pair(usize::MAX);
    let mut endpoint = WebTransportEndpoint::new();
    endpoint.new_connection(1, Side::Client);
    assert!(endpoint.is_initializing(1));
    endpoint_round(&mut endpoint, 1, &mut client_peer);
    endpoint_round(&mut endpoint, 1, &mut client_peer);
    let events = server_peer.take_events();
    assert!(!events.is_empty());
    let settings_stream = events[0].stream_id.0;
    let bytes = server_peer.recv(settings_stream, 4096).unwrap();
    assert_eq!(bytes.len(), 31);
    assert_eq!(&bytes[..3], &[0u8, 4, 28]);
}

#[test]
fn endpoint_server_fails_on_a_bidirectional_settings_stream() {
    let mut endpoint = WebTransportEndpoint::new();
    endpoint.new_connection(5, Side::Server);
    assert_eq!(endpoint.new_stream(5, 3, true), NewStreamAction::Forward);
    assert!(endpoint.is_initializing(5));
    assert_eq!(endpoint.new_stream(5, 4, false), NewStreamAction::DisconnectPeer);
    assert!(!endpoint.is_initializing(5));
}

#[test]
fn endpoint_forgets_disconnected_connections() {
    let mut endpoint = WebTransportEndpoint::new();
    endpoint.new_connection(9, Side::Client);
    assert!(!endpoint.disconnected(9));
    assert!(!endpoint.is_initializing(9));
    assert!(endpoint.disconnected(9));
}

#[test]
fn read_steps_follow_the_judgement() {
    assert_eq!(step_of(ReadResult::Wait), ReadStep::Continue);
    assert_eq!(step_of(ReadResult::Success), ReadStep::Done(ReadResult::Success));
    assert_eq!(step_of(ReadResult::Fail), ReadStep::Done(ReadResult::Fail));
}

#[test]
fn stream_header_must_start_with_a_whole_frame_type() {
    assert!(stream_header_accepted(Some(&[0x40, 0x41, 0x00])));
    assert!(stream_header_accepted(Some(&[0x00])));
    assert!(stream_header_accepted(None));
    assert!(!stream_header_accepted(Some(&[])));
    assert!(!stream_header_accepted(Some(&[0x40])));
}

#[test]
fn send_writes_no_data_while_the_header_is_pending() {
    let (mut client, mut server, mut client_peer, mut server_peer, _) = run_handshake(usize::MAX);
    let stream = client.open_stream(&mut client_peer, Dir::Uni).unwrap();
    client_peer.write_limit = 0;
    assert_eq!(client.send(&mut client_peer, stream, b"hello"), Some(Ok(0)));
    assert_eq!(server_peer.recv(stream.0 .0, 4096), Ok(Vec::new()));
    client_peer.write_limit = usize::MAX;
    assert_eq!(client.send(&mut client_peer, stream, b"hello"), Some(Ok(5)));
    for event in server_peer.take_events() {
        server.handle_quic_stream_event(event);
    }
    let mut received = Vec::new();
    for _ in 0..10 {
        if let Some(Ok(bytes)) = server.recv(&mut server_peer, stream, 100) {
            received.extend(bytes);
        }
    }
    assert_eq!(received, b"hello".to_vec());
}

#[test]
fn read_available_takes_everything_the_stream_holds() {
    let (mut client_peer, mut server_peer) = pair(2);
    assert_eq!(client_peer.send(3, b"abc"), Ok(2));
    assert_eq!(client_peer.send(3, b"c"), Ok(1));
    assert_eq!(read_available(&mut server_peer, 3, 10), b"abc".to_vec());
    assert_eq!(read_available(&mut server_peer, 3, 10), Vec::<u8>::new());
    assert_eq!(client_peer.send(3, b"de"), Ok(2));
    assert_eq!(read_available(&mut server_peer, 3, 0), Vec::<u8>::new());
    assert_eq!(read_available(&mut server_peer, 3, 1), b"de".to_vec());
}

#[test]
fn read_handshake_waits_without_a_stream_to_read() {
    let (mut client_peer, _server_peer) = pair(usize::MAX);
    let mut endpoint = WebTransportEndpoint::new();
    assert_eq!(endpoint.read_handshake(4, &mut client_peer, 10), ReadResult::Wait);
    endpoint.new_connection(4, Side::Client);
    assert_eq!(endpoint.reading_stream(4), None);
    assert_eq!(endpoint.read_handshake(4, &mut client_peer, 10), ReadResult::Wait);
}
