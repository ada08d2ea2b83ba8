use std::cell::RefCell;
use std::collections::{HashMap, VecDeque};
use std::rc::Rc;

use nevy::connections::{BevyConnectionMut, CloneableDescription, CloneableStreamDescription, ConnectionMut, Description, DescriptionValue, StreamDescription};
use nevy::endpoint::{BevyEndpoint, Connected, Disconnected};
use nevy::headers::{ConnectionStreamHeaders, HeaderId, HeaderStreamEvent, HeaderStreamEventType, HeaderStreamId, InitializeStreamError, UninitializedStream, be16_bytes, be16_from_bytes};
use nevy::interface::{Dir, ErrorFatality, RecvStreamMut, SendStreamMut, StreamEvent, StreamEventType};
use nevy::plugins::{BevyEndpointPlugin, EndpointPlugin, HeaderPlugin, StreamHeaderPlugin, StreamPlugin, WebTransportEndpointPlugin};
use nevy::streams::{BevyStreamEvent, BevyStreamId, ClosedRecvStream, MismatchedStreamType, MismatchedType, NewSendStream, RoutedStreamEvent, StreamKind, route_stream_event, update_streams};
use nevy::transports::{QuinnReadError, QuinnSendError, SendBufferFull, WebTransportReadError, WebTransportSendError, WasmEndpoint};

struct State {
    next_id: u64,
    written: HashMap<u64, Vec<u8>>,
    incoming: HashMap<u64, VecDeque<u8>>,
    events: VecDeque<StreamEvent<u64>>,
    closed: Vec<u64>,
    write_limit: usize,
}

#[derive(Clone)]
struct Mock(Rc<RefCell<State>>);

fn mock() -> Mock {
    Mock(Rc::new(RefCell::new(State {
        next_id: 10,
        written: HashMap::new(),
        incoming: HashMap::new(),
        events: VecDeque::new(),
        closed: Vec::new(),
        write_limit: usize::MAX,
    })))
}

struct MockSend(Rc<RefCell<State>>, u64);
struct MockRecv(Rc<RefCell<State>>, u64);

impl SendStreamMut for MockSend {
    type SendError = QuinnSendError;
    type CloseDescription = Option<u64>;

    fn send(&mut self, data: &[u8]) -> Result<usize, QuinnSendError> {
        let mut state = self.0.borrow_mut();
        let n = data.len().min(state.write_limit);
        if state.write_limit != usize::MAX {
            state.write_limit -= n;
        }
        state.written.entry(self.1).or_default().extend_from_slice(&data[..n]);
        Ok(n)
    }

    fn close(&mut self, _description: Option<u64>) -> Result<(), ()> {
        self.0.borrow_mut().closed.push(self.1);
        Ok(())
    }

    fn is_open(&self) -> bool {
        !self.0.borrow().closed.contains(&self.1)
    }
}

impl RecvStreamMut for MockRecv {
    type ReadError = QuinnReadError;
    type CloseDescription = u64;

    fn recv(&mut self, limit: usize) -> Result<Vec<u8>, QuinnReadError> {
        let mut state = self.0.borrow_mut();
        let queue = state.incoming.entry(self.1).or_default();
        let n = queue.len().min(limit);
        Ok(queue.drain(..n).collect())
    }

    fn close(&mut self, _description: u64) -> Result<(), ()> {
        Ok(())
    }

    fn is_open(&self) -> bool {
        true
    }
}

impl ConnectionMut for Mock {
    type OpenDescription = Dir;
    type SendError = QuinnSendError;
    type ReadError = QuinnReadError;
    type SendMut<'s> = MockSend where Self: 's;
    type RecvMut<'s> = MockRecv where Self: 's;


    fn open_stream(&mut self, _description: Dir) -> Option<u64> {
        let mut state = self.0.borrow_mut();
        let id = state.next_id;
        state.next_id += 1;
        Some(id)
    }

    fn send_stream<'s>(&'s mut self, stream_id: u64) -> Option<MockSend> {
        if self.0.borrow().closed.contains(&stream_id) {
            return None;
        }
        Some(MockSend(self.0.clone(), stream_id))
    }

    fn recv_stream<'s>(&'s mut self, stream_id: u64) -> Option<MockRecv> {
        if self.0.borrow().closed.contains(&stream_id) {
            return None;
        }
        Some(MockRecv(self.0.clone(), stream_id))
    }

    fn poll_stream_events(&mut self) -> Option<StreamEvent<u64>> {
        self.0.borrow_mut().events.pop_front()
    }

    fn disconnect(&mut self) {}
}

fn wt(id: u64) -> BevyStreamId {
    BevyStreamId::new(StreamKind::WebTransport, id)
}

#[test]
fn header_bytes_are_big_endian() {
    assert_eq!(be16_bytes(0x1234), vec![0x12, 0x34]);
    assert_eq!(be16_bytes(0), vec![0, 0]);
    assert_eq!(be16_from_bytes(0x12, 0x34), 0x1234);
    assert_eq!(be16_from_bytes(0xff, 0xff), u16::MAX);
}

#[test]
fn header_plugins_hand_out_ids_in_order() {
    let plugin = HeaderPlugin::default();
    let (first, next) = plugin.build(None);
    assert_eq!(first.get(), 0);
    let (second, next) = plugin.build(Some(next));
    assert_eq!(second.get(), 1);
    let (third, next) = plugin.build(Some(next));
    assert_eq!(third.get(), 2);
    assert_eq!(next, 3);
    assert_eq!(HeaderId::new(9).get(), 9);
}

#[test]
fn uninitialized_stream_sends_its_header_then_is_ready() {
    let state = mock();
    state.0.borrow_mut().write_limit = 1;
    let mut connection = BevyConnectionMut::new(state.clone(), StreamKind::WebTransport);
    let description = StreamDescription::new(DescriptionValue::Direction(Dir::Bi));
    let stream = UninitializedStream::new(&mut connection, description, 0x0102).unwrap().unwrap();
    assert_eq!(stream.stream_id(), wt(10));
    let stream = match stream.poll_ready(&mut connection) {
        Ok(Err(stream)) => stream,
        _ => panic!("the stream takes one byte"),
    };
    state.0.borrow_mut().write_limit = 10;
    match stream.poll_ready(&mut connection) {
        Ok(Ok(id)) => assert_eq!(id, wt(10)),
        _ => panic!("the header is complete"),
    }
    assert_eq!(state.0.borrow().written.get(&10).cloned().unwrap(), vec![0x01, 0x02]);
}

#[test]
fn uninitialized_stream_reports_a_closed_stream() {
    let state = mock();
    let mut connection = BevyConnectionMut::new(state.clone(), StreamKind::WebTransport);
    let description = StreamDescription::new(DescriptionValue::Direction(Dir::Uni));
    let stream = UninitializedStream::new(&mut connection, description, 1).unwrap().unwrap();
    state.0.borrow_mut().closed.push(10);
    assert!(matches!(stream.poll_ready(&mut connection), Err(InitializeStreamError::StreamClosedPrematurly)));
}

#[test]
fn uninitialized_stream_needs_a_matching_description() {
    let mut connection = BevyConnectionMut::new(mock(), StreamKind::WebTransport);
    let description = StreamDescription::new(DescriptionValue::Code(3));
    assert_eq!(UninitializedStream::new(&mut connection, description, 1).err(), Some(MismatchedType { expected: "Dir" }));
}

#[test]
fn header_stream_can_be_ended_before_its_header_is_sent() {
    let state = mock();
    state.0.borrow_mut().write_limit = 0;
    let mut connection = BevyConnectionMut::new(state.clone(), StreamKind::WebTransport);
    let description = StreamDescription::new(DescriptionValue::Direction(Dir::Uni));
    let mut stream = HeaderStreamId::new(&mut connection, description, 5).unwrap().unwrap();
    assert!(matches!(stream.poll_ready(&mut connection), Ok(None)));
    assert_eq!(stream.end(), wt(10));
}

#[test]
fn new_receive_streams_wait_for_their_header() {
    let state = mock();
    {
        let mut s = state.0.borrow_mut();
        s.events.push_back(StreamEvent { stream_id: 1, peer_generated: true, event_type: StreamEventType::NewRecvStream });
        s.events.push_back(StreamEvent { stream_id: 2, peer_generated: false, event_type: StreamEventType::NewSendStream });
        s.events.push_back(StreamEvent { stream_id: 3, peer_generated: true, event_type: StreamEventType::NewRecvStream });
        s.incoming.insert(1, vec![0x00].into_iter().collect());
        s.incoming.insert(3, vec![0xab, 0xcd, 0xee].into_iter().collect());
    }
    let mut connection = BevyConnectionMut::new(state.clone(), StreamKind::WebTransport);
    let mut headers = ConnectionStreamHeaders::new();
    let events = headers.poll_stream_events(&mut connection, usize::MAX);
    assert_eq!(events, vec![HeaderStreamEvent { stream_id: wt(2), peer_generated: false, event_type: HeaderStreamEventType::NewSendStream }]);
    assert_eq!(headers.len(), 2);
    let complete = headers.read_headers(&mut connection);
    assert_eq!(complete, vec![HeaderStreamEvent { stream_id: wt(3), peer_generated: true, event_type: HeaderStreamEventType::NewRecvStream(0xabcd) }]);
    assert_eq!(headers.len(), 1);
    assert_eq!(headers.stream_id_at(0), wt(1));
    // the byte after the header stays on the stream
    assert_eq!(state.0.borrow().incoming.get(&3).unwrap().len(), 1);
    state.0.borrow_mut().incoming.get_mut(&1).unwrap().push_back(0x07);
    let complete = headers.read_headers(&mut connection);
    assert_eq!(complete, vec![HeaderStreamEvent { stream_id: wt(1), peer_generated: true, event_type: HeaderStreamEventType::NewRecvStream(7) }]);
    assert_eq!(headers.len(), 0);
}

#[test]
fn closed_streams_leave_the_pending_headers() {
    let state = mock();
    let mut connection = BevyConnectionMut::new(state.clone(), StreamKind::WebTransport);
    let mut headers = ConnectionStreamHeaders::new();
    assert_eq!(headers.handle_stream_event(BevyStreamEvent { stream_id: wt(4), peer_generated: true, event_type: StreamEventType::NewRecvStream }), None);
    state.0.borrow_mut().closed.push(4);
    assert_eq!(headers.read_headers(&mut connection), Vec::new());
    assert_eq!(headers.len(), 0);
    let closed = headers.handle_stream_event(BevyStreamEvent { stream_id: wt(4), peer_generated: true, event_type: StreamEventType::ClosedRecvStream });
    assert_eq!(closed, Some(HeaderStreamEvent { stream_id: wt(4), peer_generated: true, event_type: HeaderStreamEventType::ClosedRecvStream }));
}

#[test]
fn descriptions_open_only_their_transports_streams() {
    let mut connection = BevyConnectionMut::new(mock(), StreamKind::WebTransport);
    let wrong = StreamDescription::new(DescriptionValue::Text("reason".to_string()));
    assert_eq!(connection.open_stream(wrong).err(), Some(MismatchedStreamType { expected: "Dir" }));
    let cloneable = CloneableStreamDescription::new(DescriptionValue::Direction(Dir::Bi));
    assert_eq!(connection.open_stream(cloneable.to_description()).unwrap(), Some(wt(10)));
    assert_eq!(connection.open_stream(cloneable.clone().to_description()).unwrap(), Some(wt(11)));
}

#[test]
fn close_descriptions_are_checked_against_the_stream() {
    let state = mock();
    let mut connection = BevyConnectionMut::new(state.clone(), StreamKind::WebTransport);
    let mut stream = connection.send_stream(wt(10)).unwrap().unwrap();
    assert!(stream.is_open());
    assert_eq!(stream.close(Description::new(DescriptionValue::Code(1))), Err(MismatchedType { expected: "Option<u64>" }));
    assert!(stream.is_open());
    let reset = CloneableDescription::new(DescriptionValue::OptionalCode(Some(3)));
    assert_eq!(stream.close(reset.to_description()), Ok(Ok(())));
    assert!(!stream.is_open());
    let mut recv = connection.recv_stream(wt(12)).unwrap().unwrap();
    assert_eq!(recv.close(Description::new(DescriptionValue::Unit)), Err(MismatchedType { expected: "u64" }));
    assert_eq!(recv.close(Description::new(DescriptionValue::Code(0))), Ok(Ok(())));
}

#[test]
fn description_values_downcast_to_their_own_type_only() {
    assert_eq!(Description::new(DescriptionValue::Unit).downcast::<()>(), Ok(()));
    assert_eq!(Description::new(DescriptionValue::Code(5)).downcast::<u64>(), Ok(5));
    assert_eq!(Description::new(DescriptionValue::Text("x".to_string())).downcast::<String>(), Ok("x".to_string()));
    assert_eq!(Description::new(DescriptionValue::OptionalCode(None)).downcast::<Option<u64>>(), Ok(None));
    assert_eq!(Description::new(DescriptionValue::Code(5)).downcast::<String>(), Err(MismatchedType { expected: "String" }));
    assert_eq!(StreamDescription::new(DescriptionValue::Unit).downcast::<Dir>(), Err(MismatchedStreamType { expected: "Dir" }));
}

#[test]
fn stream_events_carry_the_transport() {
    let state = mock();
    state.0.borrow_mut().events.push_back(StreamEvent { stream_id: 8, peer_generated: true, event_type: StreamEventType::ClosedSendStream });
    let mut connection = BevyConnectionMut::new(state, StreamKind::WebTransport);
    assert_eq!(connection.poll_stream_events(), Some(BevyStreamEvent { stream_id: wt(8), peer_generated: true, event_type: StreamEventType::ClosedSendStream }));
    assert_eq!(connection.poll_stream_events(), None);
    assert_eq!(StreamKind::Browser.id_name(), "WasmStreamId");
    assert_eq!(wt(3).kind(), StreamKind::WebTransport);
    assert_eq!(wt(3).id(), 3);
}

#[test]
fn stream_events_are_routed_by_kind() {
    let event = StreamEvent { stream_id: 5u64, peer_generated: false, event_type: StreamEventType::NewSendStream };
    assert_eq!(route_stream_event(1, 2, event), RoutedStreamEvent::NewSendStream(NewSendStream { endpoint_entity: 1, connection_entity: 2, stream_id: 5, peer_generated: false }));
    let state = mock();
    state.0.borrow_mut().events.push_back(StreamEvent { stream_id: 6, peer_generated: true, event_type: StreamEventType::ClosedRecvStream });
    let mut connection = state.clone();
    let routed = update_streams(1, 2, &mut connection, usize::MAX);
    assert_eq!(routed, vec![RoutedStreamEvent::ClosedRecvStream(ClosedRecvStream { endpoint_entity: 1, connection_entity: 2, stream_id: 6, peer_generated: true })]);
    assert!(state.0.borrow().events.is_empty());
}

#[test]
fn endpoint_names_each_connection_by_its_entity() {
    let mut endpoint = BevyEndpoint::new();
    assert!(endpoint.connection_request());
    assert_eq!(endpoint.connection_entity(3), None);
    assert_eq!(endpoint.connected(100, 3, 200), Connected { endpoint_entity: 100, connection_entity: 200 });
    assert_eq!(endpoint.connected(100, 3, 201), Connected { endpoint_entity: 100, connection_entity: 200 });
    assert_eq!(endpoint.connection_entity(3), Some(200));
    assert_eq!(endpoint.disconnected(100, 3), Some(Disconnected { endpoint_entity: 100, connection_entity: 200 }));
    assert_eq!(endpoint.disconnected(100, 3), None);
    assert_eq!(endpoint.connection_entity(3), None);
}

#[test]
fn plugins_run_in_pre_update_unless_told_otherwise() {
    assert_eq!(EndpointPlugin::default().schedule(), "PreUpdate");
    assert_eq!(StreamHeaderPlugin::default().schedule(), "PreUpdate");
    assert_eq!(StreamPlugin::default().schedule(), "PreUpdate");
    assert_eq!(BevyEndpointPlugin::default().schedule(), "PreUpdate");
    assert_eq!(WebTransportEndpointPlugin::default().schedule(), "PreUpdate");
    assert_eq!(EndpointPlugin::new("Last").schedule(), "Last");
    assert_eq!(WebTransportEndpointPlugin::new("Update").schedule(), "Update");
}

#[test]
fn transport_errors_know_whether_they_are_fatal() {
    assert!(!QuinnSendError::Blocked.is_fatal());
    assert!(QuinnSendError::NoStream.is_fatal());
    assert!(!QuinnReadError::Blocked.is_fatal());
    assert!(QuinnReadError::NoStream.is_fatal());
    assert!(!WebTransportSendError::Blocked.is_fatal());
    assert!(WebTransportSendError::NoStream.is_fatal());
    assert!(!WebTransportReadError::Blocked.is_fatal());
    assert!(!WebTransportReadError::Finished.is_fatal());
    assert!(WebTransportReadError::NoStream.is_fatal());
    assert!(SendBufferFull.is_fatal());
    assert!(!WasmEndpoint.accepts_incoming());
}
