//! Message registration: each message type gets the message id of its
//! position in the order the types were added, on both the sending and the
//! receiving side.
use vstd::prelude::*;
use crate::serialize::MessageId;

verus! {

/// The id of the message type registered at `index`: the index modulo 65536.
pub open spec fn message_id_at(index: int) -> u16 {
    (index % 65536) as u16
}

/// The message ids of the registered message types, in order.
pub fn assign_message_ids(messages: &Vec<&'static str>) -> (r: Vec<(&'static str, MessageId)>)
    ensures
        r@.len() == messages@.len(),
        forall|i: int| 0 <= i < r@.len() ==> #[trigger] r@[i] == (messages@[i], MessageId { message_id: message_id_at(i) }),
{
    let mut r: Vec<(&'static str, MessageId)> = Vec::new();
    let mut i: usize = 0;
    while i < messages.len()
        invariant
            i <= messages@.len(),
            r@.len() == i,
            forall|j: int| 0 <= j < i ==> #[trigger] r@[j] == (messages@[j], MessageId { message_id: message_id_at(j) }),
        decreases messages@.len() - i,
    {
        r.push((messages[i], MessageId { message_id: (i % 65536) as u16 }));
        i = i + 1;
    }
    r
}

/// Assigns message ids for sending, in the order message types are added.
pub struct MessageSerializationPlugin {
    messages: Vec<&'static str>,
}

impl MessageSerializationPlugin {
    /// The names of the added message types, in order.
    pub closed spec fn registered(&self) -> Seq<&'static str> {
        self.messages@
    }

    /// No message type added yet.
    pub fn new() -> (r: Self)
        ensures
            r.registered() == Seq::<&'static str>::empty(),
    {
        MessageSerializationPlugin { messages: Vec::new() }
    }

    /// Adds the message type named `name`; it gets the next message id.
    pub fn add_message(&mut self, name: &'static str)
        ensures
            final(self).registered() == old(self).registered().push(name),
    {
        self.messages.push(name);
    }

    /// Each added message type with its message id.
    pub fn message_ids(&self) -> (r: Vec<(&'static str, MessageId)>)
        ensures
            r@.len() == self.registered().len(),
            forall|i: int| 0 <= i < r@.len() ==> #[trigger] r@[i] == (self.registered()[i], MessageId { message_id: message_id_at(i) }),
    {
        assign_message_ids(&self.messages)
    }
}

/// Assigns message ids for receiving, in the order message types are added,
/// and runs message reading in a schedule.
pub struct MessageDeserializationPlugin {
    schedule: &'static str,
    messages: Vec<&'static str>,
}

impl MessageDeserializationPlugin {
    /// The names of the added message types, in order.
    pub closed spec fn registered(&self) -> Seq<&'static str> {
        self.messages@
    }

    pub closed spec fn spec_schedule(&self) -> &'static str {
        self.schedule
    }

    /// No message type added yet; messages are read in `schedule`.
    pub fn new(schedule: &'static str) -> (r: Self)
        ensures
            r.registered() == Seq::<&'static str>::empty(),
            r.spec_schedule() == schedule,
    {
        MessageDeserializationPlugin { schedule, messages: Vec::new() }
    }

    /// The schedule messages are read in.
    pub fn schedule(&self) -> (r: &'static str)
        ensures
            r == self.spec_schedule(),
    {
        self.schedule
    }

    /// Adds the message type named `name`; it gets the next message id.
    pub fn add_message(&mut self, name: &'static str)
        ensures
            final(self).registered() == old(self).registered().push(name),
            final(self).spec_schedule() == old(self).spec_schedule(),
    {
        self.messages.push(name);
    }

    /// Each added message type with its message id.
    pub fn message_ids(&self) -> (r: Vec<(&'static str, MessageId)>)
        ensures
            r@.len() == self.registered().len(),
            forall|i: int| 0 <= i < r@.len() ==> #[trigger] r@[i] == (self.registered()[i], MessageId { message_id: message_id_at(i) }),
    {
        assign_message_ids(&self.messages)
    }
}

/// The message types of a protocol, from which matching sending and
/// receiving plugins are built.
pub struct ProtocolBuilder {
    messages: Vec<&'static str>,
}

impl ProtocolBuilder {
    /// The names of the added message types, in order.
    pub closed spec fn registered(&self) -> Seq<&'static str> {
        self.messages@
    }

    /// No message type added yet.
    pub fn new() -> (r: Self)
        ensures
            r.registered() == Seq::<&'static str>::empty(),
    {
        ProtocolBuilder { messages: Vec::new() }
    }

    /// Adds the message type named `name`.
    pub fn add_message(&mut self, name: &'static str)
        ensures
            final(self).registered() == old(self).registered().push(name),
    {
        self.messages.push(name);
    }

    /// The sending plugin with the protocol's message types, in order.
    pub fn build_serialization(&self) -> (r: MessageSerializationPlugin)
        ensures
            r.registered() == self.registered(),
    {
        let mut plugin = MessageSerializationPlugin::new();
        let mut i: usize = 0;
        while i < self.messages.len()
            invariant
                i <= self.messages@.len(),
                plugin.registered() == self.messages@.subrange(0, i as int),
            decreases self.messages@.len() - i,
        {
            plugin.add_message(self.messages[i]);
            i = i + 1;
            assert(plugin.registered() =~= self.messages@.subrange(0, i as int));
        }
        assert(self.messages@.subrange(0, i as int) =~= self.messages@);
        plugin
    }

    /// The receiving plugin with the protocol's message types, in order,
    /// reading messages in `schedule`.
    pub fn build_deserialization(&self, schedule: &'static str) -> (r: MessageDeserializationPlugin)
        ensures
            r.registered() == self.registered(),
            r.spec_schedule() == schedule,
    {
        let mut plugin = MessageDeserializationPlugin::new(schedule);
        let mut i: usize = 0;
        while i < self.messages.len()
            invariant
                i <= self.messages@.len(),
                plugin.registered() == self.messages@.subrange(0, i as int),
                plugin.spec_schedule() == schedule,
            decreases self.messages@.len() - i,
        {
            plugin.add_message(self.messages[i]);
            i = i + 1;
            assert(plugin.registered() =~= self.messages@.subrange(0, i as int));
        }
        assert(self.messages@.subrange(0, i as int) =~= self.messages@);
        plugin
    }

    /// Both plugins of the protocol.
    pub fn build_symmetric(&self, schedule: &'static str) -> (r: (MessageSerializationPlugin, MessageDeserializationPlugin))
        ensures
            r.0.registered() == self.registered(),
            r.1.registered() == self.registered(),
            r.1.spec_schedule() == schedule,
    {
        (self.build_serialization(), self.build_deserialization(schedule))
    }
}

/// The sending and receiving plugins built from one protocol give every
/// message type the same message id.
pub proof fn law_symmetric_message_ids(builder: ProtocolBuilder, schedule: &'static str, send: MessageSerializationPlugin, recv: MessageDeserializationPlugin, i: int)
    requires
        send.registered() == builder.registered(),
        recv.registered() == builder.registered(),
        0 <= i < builder.registered().len(),
    ensures
        send.registered()[i] == recv.registered()[i],
        send.registered().len() == recv.registered().len(),
{
}

} // verus!
