//! The connections of an endpoint, each represented by an entity, and the
//! events fired when they connect and disconnect.
use vstd::prelude::*;
use std::collections::HashMap;

verus! {

/// Marks the entity of a connection.
pub struct BevyConnection;

/// A connection of an endpoint succeeded.
#[derive(Clone, Copy, Debug, PartialEq, Eq, Structural)]
pub struct Connected {
    pub endpoint_entity: u64,
    pub connection_entity: u64,
}

/// A connection of an endpoint ended, or a connection attempt failed.
#[derive(Clone, Copy, Debug, PartialEq, Eq, Structural)]
pub struct Disconnected {
    pub endpoint_entity: u64,
    pub connection_entity: u64,
}

/// The connections of an endpoint: the entity of each connection, by
/// connection id; and whether incoming connections are accepted.
pub struct BevyEndpoint {
    connections: HashMap<u64, u64>,
    accept_incoming: bool,
}

/// The connections after connection `id` connected with the entity
/// `entity`: a connection keeps the entity it had.
pub open spec fn after_connected(connections: Map<u64, u64>, id: u64, entity: u64) -> Map<u64, u64> {
    if connections.contains_key(id) {
        connections
    } else {
        connections.insert(id, entity)
    }
}

impl View for BevyEndpoint {
    type V = Map<u64, u64>;

    closed spec fn view(&self) -> Map<u64, u64> {
        self.connections@
    }
}

impl BevyEndpoint {
    pub closed spec fn spec_accept_incoming(&self) -> bool {
        self.accept_incoming
    }

    /// An endpoint with no connection, accepting incoming connections.
    pub fn new() -> (r: Self)
        ensures
            r@ == Map::<u64, u64>::empty(),
            r.spec_accept_incoming(),
    {
        BevyEndpoint { connections: HashMap::new(), accept_incoming: true }
    }

    /// Whether an incoming connection request is accepted.
    pub fn connection_request(&self) -> (r: bool)
        ensures
            r == self.spec_accept_incoming(),
    {
        self.accept_incoming
    }

    /// The entity of connection `id`, if it has one.
    pub fn connection_entity(&self, id: u64) -> (r: Option<u64>)
        ensures
            r == (if self@.contains_key(id) { Some(self@[id]) } else { None::<u64> }),
    {
        match self.connections.get(&id) {
            Some(entity) => Some(*entity),
            None => None,
        }
    }

    /// Connection `id` of the endpoint `endpoint_entity` connected. It
    /// keeps its entity if it has one, else it is given `entity`; the
    /// event names the connection's entity.
    pub fn connected(&mut self, endpoint_entity: u64, id: u64, entity: u64) -> (r: Connected)
        ensures
            final(self)@ == after_connected(old(self)@, id, entity),
            final(self).spec_accept_incoming() == old(self).spec_accept_incoming(),
            r == (Connected { endpoint_entity, connection_entity: final(self)@[id] }),
    {
        let connection_entity = match self.connections.get(&id) {
            Some(existing) => *existing,
            None => {
                self.connections.insert(id, entity);
                entity
            },
        };
        Connected { endpoint_entity, connection_entity }
    }

    /// Connection `id` of the endpoint `endpoint_entity` disconnected: it
    /// is forgotten, and if it had an entity, the event names it.
    pub fn disconnected(&mut self, endpoint_entity: u64, id: u64) -> (r: Option<Disconnected>)
        ensures
            final(self)@ == old(self)@.remove(id),
            final(self).spec_accept_incoming() == old(self).spec_accept_incoming(),
            r == (if old(self)@.contains_key(id) {
                Some(Disconnected { endpoint_entity, connection_entity: old(self)@[id] })
            } else {
                None::<Disconnected>
            }),
    {
        match self.connections.remove(&id) {
            Some(connection_entity) => Some(Disconnected { endpoint_entity, connection_entity }),
            None => None,
        }
    }
}

/// What a connection's connect event names is what its disconnect event
/// names, and the connection is then forgotten: a connection that was not
/// known leaves the endpoint as it was.
pub proof fn law_connect_then_disconnect(connections: Map<u64, u64>, id: u64, entity: u64)
    requires
        !connections.contains_key(id),
    ensures
        after_connected(connections, id, entity).contains_key(id),
        after_connected(connections, id, entity)[id] == entity,
        after_connected(connections, id, entity).remove(id) == connections,
{
    assert(connections.insert(id, entity).remove(id) =~= connections);
}

/// Connecting twice keeps the first entity.
pub proof fn law_connected_keeps_entity(connections: Map<u64, u64>, id: u64, first: u64, second: u64)
    ensures
        after_connected(after_connected(connections, id, first), id, second) == after_connected(connections, id, first),
{
}

} // verus!
