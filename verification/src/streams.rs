//! Transport-independent stream ids and stream events, as the application
//! sees them.
use vstd::prelude::*;
use crate::interface::{StreamEvent, StreamEventType, chained, lemma_chained_push};
use crate::headers::polled_events;
use crate::connections::ConnectionMut;

verus! {

/// The transports whose stream ids can be carried by a [`BevyStreamId`].
#[derive(Clone, Copy, Debug, PartialEq, Eq, Structural)]
pub enum StreamKind {
    /// plain QUIC streams
    Quic,
    /// WebTransport streams over QUIC
    WebTransport,
    /// WebTransport streams of a browser
    Browser,
}

impl StreamKind {
    /// The name of the transport's stream id type.
    pub open spec fn spec_id_name(self) -> &'static str {
        match self {
            StreamKind::Quic => "QuinnStreamId",
            StreamKind::WebTransport => "WebTransportStreamId",
            StreamKind::Browser => "WasmStreamId",
        }
    }

    /// The name of the transport's stream id type.
    pub fn id_name(&self) -> (r: &'static str)
        ensures
            r == self.spec_id_name(),
    {
        match self {
            StreamKind::Quic => "QuinnStreamId",
            StreamKind::WebTransport => "WebTransportStreamId",
            StreamKind::Browser => "WasmStreamId",
        }
    }
}

/// A stream id of some transport, with the transport it belongs to.
#[derive(Clone, Copy, Debug, PartialEq, Eq, Structural)]
pub struct BevyStreamId {
    pub kind: StreamKind,
    pub id: u64,
}

impl BevyStreamId {
    /// The id `id` of a stream of the transport `kind`.
    pub fn new(kind: StreamKind, id: u64) -> (r: Self)
        ensures
            r.kind == kind,
            r.id == id,
    {
        BevyStreamId { kind, id }
    }

    /// The transport this id belongs to.
    pub fn kind(&self) -> (r: StreamKind)
        ensures
            r == self.kind,
    {
        self.kind
    }

    /// The transport's own id.
    pub fn id(&self) -> (r: u64)
        ensures
            r == self.id,
    {
        self.id
    }
}

/// The name of a type that a value did not have.
#[derive(Clone, Copy, Debug, PartialEq, Eq)]
pub struct MismatchedType {
    pub expected: &'static str,
}

/// The name of a stream type that a value did not have.
#[derive(Clone, Copy, Debug, PartialEq, Eq)]
pub struct MismatchedStreamType {
    pub expected: &'static str,
}

/// A stream event with a transport-independent stream id.
#[derive(Clone, Copy, Debug, PartialEq, Eq)]
pub struct BevyStreamEvent {
    pub stream_id: BevyStreamId,
    pub peer_generated: bool,
    pub event_type: StreamEventType,
}

impl BevyStreamEvent {
    /// The event `event` of a stream of the transport `kind`.
    pub fn from_event(kind: StreamKind, event: StreamEvent<u64>) -> (r: Self)
        ensures
            r.stream_id.kind == kind,
            r.stream_id.id == event.stream_id,
            r.peer_generated == event.peer_generated,
            r.event_type == event.event_type,
    {
        BevyStreamEvent {
            stream_id: BevyStreamId::new(kind, event.stream_id),
            peer_generated: event.peer_generated,
            event_type: event.event_type,
        }
    }
}

/// A send stream was opened on a connection of an endpoint.
#[derive(Clone, Copy, Debug, PartialEq, Eq, Structural)]
pub struct NewSendStream<S> {
    pub endpoint_entity: u64,
    pub connection_entity: u64,
    pub stream_id: S,
    pub peer_generated: bool,
}

/// A receive stream was opened on a connection of an endpoint.
#[derive(Clone, Copy, Debug, PartialEq, Eq, Structural)]
pub struct NewRecvStream<S> {
    pub endpoint_entity: u64,
    pub connection_entity: u64,
    pub stream_id: S,
    pub peer_generated: bool,
}

/// A send stream of a connection of an endpoint was closed.
#[derive(Clone, Copy, Debug, PartialEq, Eq, Structural)]
pub struct ClosedSendStream<S> {
    pub endpoint_entity: u64,
    pub connection_entity: u64,
    pub stream_id: S,
    pub peer_generated: bool,
}

/// A receive stream of a connection of an endpoint was closed.
#[derive(Clone, Copy, Debug, PartialEq, Eq, Structural)]
pub struct ClosedRecvStream<S> {
    pub endpoint_entity: u64,
    pub connection_entity: u64,
    pub stream_id: S,
    pub peer_generated: bool,
}

/// A stream event of a connection, as the event of its kind.
#[derive(Clone, Copy, Debug, PartialEq, Eq, Structural)]
pub enum RoutedStreamEvent<S> {
    NewSendStream(NewSendStream<S>),
    ClosedSendStream(ClosedSendStream<S>),
    NewRecvStream(NewRecvStream<S>),
    ClosedRecvStream(ClosedRecvStream<S>),
}

/// The event of `event`'s kind, for the connection `connection_entity`
/// of the endpoint `endpoint_entity`.
pub open spec fn routed<S>(endpoint_entity: u64, connection_entity: u64, event: StreamEvent<S>) -> RoutedStreamEvent<S> {
    match event.event_type {
        StreamEventType::NewSendStream => RoutedStreamEvent::NewSendStream(NewSendStream {
            endpoint_entity, connection_entity, stream_id: event.stream_id, peer_generated: event.peer_generated }),
        StreamEventType::ClosedSendStream => RoutedStreamEvent::ClosedSendStream(ClosedSendStream {
            endpoint_entity, connection_entity, stream_id: event.stream_id, peer_generated: event.peer_generated }),
        StreamEventType::NewRecvStream => RoutedStreamEvent::NewRecvStream(NewRecvStream {
            endpoint_entity, connection_entity, stream_id: event.stream_id, peer_generated: event.peer_generated }),
        StreamEventType::ClosedRecvStream => RoutedStreamEvent::ClosedRecvStream(ClosedRecvStream {
            endpoint_entity, connection_entity, stream_id: event.stream_id, peer_generated: event.peer_generated }),
    }
}

/// Routing keeps what a stream event says: the stream, who caused it and
/// the endpoint and connection it happened on, in the event of its kind.
pub proof fn law_routing_keeps_the_event<S>(endpoint_entity: u64, connection_entity: u64, event: StreamEvent<S>)
    ensures
        match routed(endpoint_entity, connection_entity, event) {
            RoutedStreamEvent::NewSendStream(e) => event.event_type == StreamEventType::NewSendStream
                && e == (NewSendStream { endpoint_entity, connection_entity, stream_id: event.stream_id, peer_generated: event.peer_generated }),
            RoutedStreamEvent::ClosedSendStream(e) => event.event_type == StreamEventType::ClosedSendStream
                && e == (ClosedSendStream { endpoint_entity, connection_entity, stream_id: event.stream_id, peer_generated: event.peer_generated }),
            RoutedStreamEvent::NewRecvStream(e) => event.event_type == StreamEventType::NewRecvStream
                && e == (NewRecvStream { endpoint_entity, connection_entity, stream_id: event.stream_id, peer_generated: event.peer_generated }),
            RoutedStreamEvent::ClosedRecvStream(e) => event.event_type == StreamEventType::ClosedRecvStream
                && e == (ClosedRecvStream { endpoint_entity, connection_entity, stream_id: event.stream_id, peer_generated: event.peer_generated }),
        },
{
}

/// `routed_event` is the event of some stream event of the connection
/// `connection_entity` of the endpoint `endpoint_entity`.
pub open spec fn is_routed(endpoint_entity: u64, connection_entity: u64, routed_event: RoutedStreamEvent<u64>) -> bool {
    exists|event: StreamEvent<u64>| routed(endpoint_entity, connection_entity, event) == routed_event
}

/// `events` are the events of `polled`, in order, each an event that a
/// poll of a connection of type `C` can give.
pub open spec fn routed_polls<C: ConnectionMut>(
    endpoint_entity: u64,
    connection_entity: u64,
    polled: Seq<StreamEvent<u64>>,
    events: Seq<RoutedStreamEvent<u64>>,
) -> bool {
    polled.len() == events.len() && forall|i: int| 0 <= i < polled.len() ==>
        poll_can_give::<C>(#[trigger] polled[i]) && events[i] == routed(endpoint_entity, connection_entity, polled[i])
}

/// `event` is an event that a poll of a connection of type `C` can give.
pub open spec fn poll_can_give<C: ConnectionMut>(event: StreamEvent<u64>) -> bool {
    exists|m: &mut C| #[trigger] call_ensures(C::poll_stream_events, (m,), Some(event))
}

/// The event of `event`'s kind, for the connection `connection_entity`
/// of the endpoint `endpoint_entity`.
pub fn route_stream_event<S>(endpoint_entity: u64, connection_entity: u64, event: StreamEvent<S>) -> (r: RoutedStreamEvent<S>)
    ensures
        r == routed(endpoint_entity, connection_entity, event),
{
    let StreamEvent { stream_id, peer_generated, event_type } = event;
    match event_type {
        StreamEventType::NewSendStream => RoutedStreamEvent::NewSendStream(NewSendStream {
            endpoint_entity, connection_entity, stream_id, peer_generated }),
        StreamEventType::ClosedSendStream => RoutedStreamEvent::ClosedSendStream(ClosedSendStream {
            endpoint_entity, connection_entity, stream_id, peer_generated }),
        StreamEventType::NewRecvStream => RoutedStreamEvent::NewRecvStream(NewRecvStream {
            endpoint_entity, connection_entity, stream_id, peer_generated }),
        StreamEventType::ClosedRecvStream => RoutedStreamEvent::ClosedRecvStream(ClosedRecvStream {
            endpoint_entity, connection_entity, stream_id, peer_generated }),
    }
}

/// Takes the stream events waiting on `connection`, the connection
/// `connection_entity` of the endpoint `endpoint_entity`, at most
/// `max_events` of them, and gives each as the event of its kind, in order.
/// When it gives fewer than `max_events`, the connection's last poll found
/// no event.
pub fn update_streams<C: ConnectionMut>(endpoint_entity: u64, connection_entity: u64, connection: &mut C, max_events: usize) -> (r: Vec<RoutedStreamEvent<u64>>)
    ensures
        r@.len() <= max_events,
        forall|i: int| 0 <= i < r@.len() ==> is_routed(endpoint_entity, connection_entity, #[trigger] r@[i]),
        r@.len() < max_events ==> exists|m: &mut C|
            mut_ref_future(m) == *final(connection) && #[trigger] call_ensures(C::poll_stream_events, (m,), None::<StreamEvent<u64>>),
        exists|polled: Seq<StreamEvent<u64>>| #[trigger] routed_polls::<C>(endpoint_entity, connection_entity, polled, r@),
        exists|t: Seq<(C, C, (), Option<StreamEvent<u64>>)>|
            #[trigger] chained(t, *old(connection), *final(connection))
            && (forall|i: int| 0 <= i < t.len() ==> #[trigger] C::poll_step(&t[i].0, &t[i].1, t[i].3))
            && r@ == polled_events(t).map_values(|e: StreamEvent<u64>| routed(endpoint_entity, connection_entity, e))
            && t.len() <= max_events
            && (forall|i: int| 0 <= i < t.len() - 1 ==> (#[trigger] t[i].3) is Some)
            && (t.len() == max_events || (t.len() > 0 && t.last().3 is None)),
{
    let mut events: Vec<RoutedStreamEvent<u64>> = Vec::new();
    let ghost mut polled: Seq<StreamEvent<u64>> = Seq::empty();
    let ghost mut t: Seq<(C, C, (), Option<StreamEvent<u64>>)> = Seq::empty();
    assert(polled_events(t) =~= polled);
    while events.len() < max_events
        invariant_except_break
            polled.len() == events@.len(),
            forall|i: int| 0 <= i < polled.len() ==> poll_can_give::<C>(#[trigger] polled[i])
                && events@[i] == routed(endpoint_entity, connection_entity, polled[i]),
            events@.len() <= max_events,
            forall|i: int| 0 <= i < events@.len() ==> is_routed(endpoint_entity, connection_entity, #[trigger] events@[i]),
            chained(t, *old(connection), *connection),
            forall|i: int| 0 <= i < t.len() ==> #[trigger] C::poll_step(&t[i].0, &t[i].1, t[i].3),
            polled_events(t) == polled,
            t.len() == events@.len(),
            forall|i: int| 0 <= i < t.len() ==> (#[trigger] t[i].3) is Some,
        ensures
            polled.len() == events@.len(),
            forall|i: int| 0 <= i < polled.len() ==> poll_can_give::<C>(#[trigger] polled[i])
                && events@[i] == routed(endpoint_entity, connection_entity, polled[i]),
            events@.len() <= max_events,
            forall|i: int| 0 <= i < events@.len() ==> is_routed(endpoint_entity, connection_entity, #[trigger] events@[i]),
            events@.len() < max_events ==> exists|m: &mut C|
                mut_ref_future(m) == *connection && #[trigger] call_ensures(C::poll_stream_events, (m,), None::<StreamEvent<u64>>),
            chained(t, *old(connection), *connection),
            forall|i: int| 0 <= i < t.len() ==> #[trigger] C::poll_step(&t[i].0, &t[i].1, t[i].3),
            polled_events(t) == polled,
            t.len() <= max_events,
            forall|i: int| 0 <= i < t.len() - 1 ==> (#[trigger] t[i].3) is Some,
            t.len() == max_events || (t.len() > 0 && t.last().3 is None),
        decreases max_events - events@.len(),
    {
        let ghost c0 = *connection;
        let got = connection.poll_stream_events();
        let ghost step = (c0, *connection, (), got);
        let ghost t0 = t;
        proof {
            lemma_chained_push(t, *old(connection), step);
            t = t.push(step);
            assert(t.drop_last() =~= t0);
            assert forall|i: int| 0 <= i < t.len() implies #[trigger] C::poll_step(&t[i].0, &t[i].1, t[i].3) by {
                if i < t0.len() {
                    assert(t[i] == t0[i]);
                }
            }
            assert forall|i: int| 0 <= i < t.len() - 1 implies (#[trigger] t[i].3) is Some by {
                assert(t[i] == t0[i]);
            }
        }
        match got {
            Some(event) => {
                let ghost before = events@;
                let ghost before_polled = polled;
                proof {
                    assert(poll_can_give::<C>(event));
                    polled = polled.push(event);
                    assert(polled_events(t) =~= polled);
                    assert forall|i: int| 0 <= i < t.len() implies (#[trigger] t[i].3) is Some by {
                        if i < t0.len() {
                            assert(t[i] == t0[i]);
                        }
                    }
                }
                events.push(route_stream_event(endpoint_entity, connection_entity, event));
                proof {
                    assert forall|i: int| 0 <= i < polled.len() implies poll_can_give::<C>(#[trigger] polled[i])
                        && events@[i] == routed(endpoint_entity, connection_entity, polled[i]) by {
                        if i < before_polled.len() {
                            assert(polled[i] == before_polled[i]);
                        }
                    }
                    assert forall|i: int| 0 <= i < events@.len() implies is_routed(endpoint_entity, connection_entity, #[trigger] events@[i]) by {
                        if i < before.len() {
                            assert(events@[i] == before[i]);
                        } else {
                            assert(events@[i] == routed(endpoint_entity, connection_entity, event));
                        }
                    }
                }
            },
            None => {
                assert(polled_events(t) =~= polled);
                break;
            },
        }
    }
    assert(routed_polls::<C>(endpoint_entity, connection_entity, polled, events@));
    assert(events@ =~= polled_events(t).map_values(|e: StreamEvent<u64>| routed(endpoint_entity, connection_entity, e)));
    events
}

} // verus!
