//! Transport-independent access to connections and streams: descriptions
//! and stream ids carry their transport's type with them, and are checked
//! against the connection they are used on.
use vstd::prelude::*;
use crate::interface::{Dir, SendStreamMut, RecvStreamMut, StreamEvent, ErrorFatality};
use crate::streams::{BevyStreamId, BevyStreamEvent, MismatchedType, MismatchedStreamType, StreamKind};

verus! {

/// The value of a description, whatever transport it is meant for.
#[derive(Clone, Debug)]
pub enum DescriptionValue {
    Unit,
    Direction(Dir),
    Code(u64),
    OptionalCode(Option<u64>),
    Text(String),
}

/// A type whose values can be carried by a description.
pub trait Described: Sized {
    /// The value carried by `value`, if it holds one of this type.
    spec fn spec_from_value(value: DescriptionValue) -> Option<Self>;

    /// The name of this type.
    spec fn spec_value_name() -> &'static str;

    fn from_value(value: DescriptionValue) -> (r: Option<Self>)
        ensures
            r == Self::spec_from_value(value),
    ;

    fn value_name() -> (r: &'static str)
        ensures
            r == Self::spec_value_name(),
    ;
}

impl Described for () {
    open spec fn spec_from_value(value: DescriptionValue) -> Option<()> {
        match value {
            DescriptionValue::Unit => Some(()),
            _ => None,
        }
    }

    open spec fn spec_value_name() -> &'static str {
        "()"
    }

    fn from_value(value: DescriptionValue) -> (r: Option<()>) {
        match value {
            DescriptionValue::Unit => Some(()),
            _ => None,
        }
    }

    fn value_name() -> (r: &'static str) {
        "()"
    }
}

impl Described for Dir {
    open spec fn spec_from_value(value: DescriptionValue) -> Option<Dir> {
        match value {
            DescriptionValue::Direction(dir) => Some(dir),
            _ => None,
        }
    }

    open spec fn spec_value_name() -> &'static str {
        "Dir"
    }

    fn from_value(value: DescriptionValue) -> (r: Option<Dir>) {
        match value {
            DescriptionValue::Direction(dir) => Some(dir),
            _ => None,
        }
    }

    fn value_name() -> (r: &'static str) {
        "Dir"
    }
}

impl Described for u64 {
    open spec fn spec_from_value(value: DescriptionValue) -> Option<u64> {
        match value {
            DescriptionValue::Code(code) => Some(code),
            _ => None,
        }
    }

    open spec fn spec_value_name() -> &'static str {
        "u64"
    }

    fn from_value(value: DescriptionValue) -> (r: Option<u64>) {
        match value {
            DescriptionValue::Code(code) => Some(code),
            _ => None,
        }
    }

    fn value_name() -> (r: &'static str) {
        "u64"
    }
}

impl Described for Option<u64> {
    open spec fn spec_from_value(value: DescriptionValue) -> Option<Option<u64>> {
        match value {
            DescriptionValue::OptionalCode(code) => Some(code),
            _ => None,
        }
    }

    open spec fn spec_value_name() -> &'static str {
        "Option<u64>"
    }

    fn from_value(value: DescriptionValue) -> (r: Option<Option<u64>>) {
        match value {
            DescriptionValue::OptionalCode(code) => Some(code),
            _ => None,
        }
    }

    fn value_name() -> (r: &'static str) {
        "Option<u64>"
    }
}

impl Described for String {
    open spec fn spec_from_value(value: DescriptionValue) -> Option<String> {
        match value {
            DescriptionValue::Text(text) => Some(text),
            _ => None,
        }
    }

    open spec fn spec_value_name() -> &'static str {
        "String"
    }

    fn from_value(value: DescriptionValue) -> (r: Option<String>) {
        match value {
            DescriptionValue::Text(text) => Some(text),
            _ => None,
        }
    }

    fn value_name() -> (r: &'static str) {
        "String"
    }
}

impl DescriptionValue {
    /// A copy of the value.
    pub fn copy_value(&self) -> (r: DescriptionValue)
        ensures
            r == *self,
    {
        match self {
            DescriptionValue::Unit => DescriptionValue::Unit,
            DescriptionValue::Direction(dir) => DescriptionValue::Direction(*dir),
            DescriptionValue::Code(code) => DescriptionValue::Code(*code),
            DescriptionValue::OptionalCode(code) => DescriptionValue::OptionalCode(*code),
            DescriptionValue::Text(text) => DescriptionValue::Text(text.clone()),
        }
    }
}

/// A description for opening a stream, whatever the transport.
pub struct StreamDescription {
    pub value: DescriptionValue,
}

impl StreamDescription {
    pub fn new(value: DescriptionValue) -> (r: Self)
        ensures
            r.value == value,
    {
        StreamDescription { value }
    }

    /// The value as a `T`, or the name of `T` when it holds another type.
    pub fn downcast<T: Described>(self) -> (r: Result<T, MismatchedStreamType>)
        ensures
            match T::spec_from_value(self.value) {
                Some(v) => r == Ok::<T, MismatchedStreamType>(v),
                None => r == Err::<T, MismatchedStreamType>(MismatchedStreamType { expected: T::spec_value_name() }),
            },
    {
        match T::from_value(self.value) {
            Some(v) => Ok(v),
            None => Err(MismatchedStreamType { expected: T::value_name() }),
        }
    }
}

/// A description for opening streams that can be used any number of times.
#[derive(Clone)]
pub struct CloneableStreamDescription {
    pub value: DescriptionValue,
}

impl CloneableStreamDescription {
    pub fn new(value: DescriptionValue) -> (r: Self)
        ensures
            r.value == value,
    {
        CloneableStreamDescription { value }
    }

    /// A description for one use, with the same value.
    pub fn to_description(&self) -> (r: StreamDescription)
        ensures
            r.value == self.value,
    {
        StreamDescription { value: self.value.copy_value() }
    }
}

/// A description for an operation on a stream or an endpoint, whatever
/// the transport.
pub struct Description {
    pub value: DescriptionValue,
}

impl Description {
    pub fn new(value: DescriptionValue) -> (r: Self)
        ensures
            r.value == value,
    {
        Description { value }
    }

    /// The value as a `T`, or the name of `T` when it holds another type.
    pub fn downcast<T: Described>(self) -> (r: Result<T, MismatchedType>)
        ensures
            match T::spec_from_value(self.value) {
                Some(v) => r == Ok::<T, MismatchedType>(v),
                None => r == Err::<T, MismatchedType>(MismatchedType { expected: T::spec_value_name() }),
            },
    {
        match T::from_value(self.value) {
            Some(v) => Ok(v),
            None => Err(MismatchedType { expected: T::value_name() }),
        }
    }
}

/// A description that can be used any number of times.
#[derive(Clone)]
pub struct CloneableDescription {
    pub value: DescriptionValue,
}

impl CloneableDescription {
    pub fn new(value: DescriptionValue) -> (r: Self)
        ensures
            r.value == value,
    {
        CloneableDescription { value }
    }

    /// A description for one use, with the same value.
    pub fn to_description(&self) -> (r: Description)
        ensures
            r.value == self.value,
    {
        Description { value: self.value.copy_value() }
    }
}


/// A description made from a value gives that value back, as the type it
/// was made from, and as no other description type.
pub proof fn law_description_roundtrip(dir: Dir, code: u64, optional: Option<u64>, text: String)
    ensures
        <Dir as Described>::spec_from_value(DescriptionValue::Direction(dir)) == Some(dir),
        <u64 as Described>::spec_from_value(DescriptionValue::Code(code)) == Some(code),
        <Option<u64> as Described>::spec_from_value(DescriptionValue::OptionalCode(optional)) == Some(optional),
        <String as Described>::spec_from_value(DescriptionValue::Text(text)) == Some(text),
        <() as Described>::spec_from_value(DescriptionValue::Unit) == Some(()),
        <u64 as Described>::spec_from_value(DescriptionValue::Direction(dir)) is None,
        <Dir as Described>::spec_from_value(DescriptionValue::Code(code)) is None,
        <Option<u64> as Described>::spec_from_value(DescriptionValue::Code(code)) is None,
        <() as Described>::spec_from_value(DescriptionValue::Text(text)) is None,
{
}

/// Mutable access to a connection of one transport.
///
/// Stream ids are the transport's own, as integers.
pub trait ConnectionMut {
    type OpenDescription: Described;

    type SendError: ErrorFatality;

    type ReadError: ErrorFatality;

    type SendMut<'s>: SendStreamMut<SendError = Self::SendError> where Self: 's;

    type RecvMut<'s>: RecvStreamMut<ReadError = Self::ReadError> where Self: 's;

    fn open_stream(&mut self, description: Self::OpenDescription) -> Option<u64>;

    fn send_stream<'s>(&'s mut self, stream_id: u64) -> Option<Self::SendMut<'s>>;

    fn recv_stream<'s>(&'s mut self, stream_id: u64) -> Option<Self::RecvMut<'s>>;

    /// What one poll does: a poll of the connection `before` that gave `r`
    /// leaves the connection as `after`. Each connection type states this of
    /// its own polls; one that does not allows any outcome.
    open spec fn poll_step(before: &Self, after: &Self, r: Option<StreamEvent<u64>>) -> bool {
        true
    }

    /// Takes the next stream event, if one is waiting.
    fn poll_stream_events(&mut self) -> (r: Option<StreamEvent<u64>>)
        ensures
            Self::poll_step(&*old(self), &*final(self), r),
    ;

    fn disconnect(&mut self);
}

/// One poll of the connection `before` that gave `r` and left the
/// connection as `after`: the connection's own poll, with this
/// connection's transport.
pub open spec fn bevy_poll_step<C: ConnectionMut>(before: BevyConnectionMut<C>, after: BevyConnectionMut<C>, r: Option<BevyStreamEvent>) -> bool {
    &&& after.spec_kind() == before.spec_kind()
    &&& exists|polled: Option<StreamEvent<u64>>|
        #[trigger] C::poll_step(&before.connection(), &after.connection(), polled) && r == bevy_event_of(before.spec_kind(), polled)
}

/// The event `polled`, if any, with a stream id of the transport `kind`.
pub open spec fn bevy_event_of(kind: StreamKind, polled: Option<StreamEvent<u64>>) -> Option<BevyStreamEvent> {
    match polled {
        Some(event) => Some(
            BevyStreamEvent {
                stream_id: BevyStreamId { kind, id: event.stream_id },
                peer_generated: event.peer_generated,
                event_type: event.event_type,
            },
        ),
        None => None,
    }
}

/// Transport-independent mutable access to a connection, with the
/// transport its stream ids belong to.
pub struct BevyConnectionMut<C> {
    connection: C,
    kind: StreamKind,
}

impl<C: ConnectionMut> BevyConnectionMut<C> {
    /// The connection `connection`, whose stream ids are of the transport
    /// `kind`, handled through transport-independent values.
    pub fn new(connection: C, kind: StreamKind) -> (r: Self)
        ensures
            r.connection() == connection,
            r.spec_kind() == kind,
    {
        BevyConnectionMut { connection, kind }
    }

    pub closed spec fn connection(&self) -> C {
        self.connection
    }

    /// The transport the connection's stream ids belong to.
    pub closed spec fn spec_kind(&self) -> StreamKind {
        self.kind
    }

    /// The transport the connection's stream ids belong to.
    pub fn kind(&self) -> (r: StreamKind)
        ensures
            r == self.spec_kind(),
    {
        self.kind
    }

    /// Opens a stream described by `description`. Fails when the
    /// description is not for this connection's transport; otherwise gives
    /// the new stream's id, or `None` when the connection opened none.
    pub fn open_stream(&mut self, description: StreamDescription) -> (r: Result<Option<BevyStreamId>, MismatchedStreamType>)
        ensures
            (C::OpenDescription::spec_from_value(description.value) is None) ==> r == Err::<Option<BevyStreamId>, MismatchedStreamType>(
                MismatchedStreamType { expected: C::OpenDescription::spec_value_name() }),
            (C::OpenDescription::spec_from_value(description.value) is Some) ==> r is Ok,
            r matches Ok(Some(id)) ==> id.kind == old(self).spec_kind(),
            r is Err ==> final(self).connection() == old(self).connection(),
            final(self).spec_kind() == old(self).spec_kind(),
            C::OpenDescription::spec_from_value(description.value) matches Some(d) ==> exists|m: &mut C, opened: Option<u64>|
                mut_ref_current(m) == old(self).connection() && mut_ref_future(m) == final(self).connection()
                    && #[trigger] call_ensures(C::open_stream, (m, d), opened)
                    && r == Ok::<Option<BevyStreamId>, MismatchedStreamType>(match opened {
                        Some(id) => Some(BevyStreamId { kind: old(self).spec_kind(), id }),
                        None => None,
                    }),
    {
        let description = match description.downcast::<C::OpenDescription>() {
            Ok(description) => description,
            Err(e) => return Err(e),
        };
        match self.connection.open_stream(description) {
            Some(id) => Ok(Some(BevyStreamId::new(self.kind, id))),
            None => Ok(None),
        }
    }

    /// The send stream of `stream_id`. Fails when the id is not of this
    /// connection's transport; gives `None` when the connection has no
    /// such send stream.
    pub fn send_stream<'s>(&'s mut self, stream_id: BevyStreamId) -> (r: Result<Option<BevySendStream<C::SendMut<'s>>>, MismatchedStreamType>)
        ensures
            stream_id.kind != old(self).spec_kind() ==> r == Err::<Option<BevySendStream<C::SendMut<'s>>>, MismatchedStreamType>(
                MismatchedStreamType { expected: old(self).spec_kind().spec_id_name() }),
            stream_id.kind == old(self).spec_kind() ==> r is Ok,
            final(self).spec_kind() == old(self).spec_kind(),
            stream_id.kind != old(self).spec_kind() ==> final(self).connection() == old(self).connection(),
            stream_id.kind == old(self).spec_kind() ==> exists|m: &mut C, got: Option<C::SendMut<'s>>|
                mut_ref_current(m) == old(self).connection() && mut_ref_future(m) == final(self).connection()
                    && #[trigger] call_ensures(C::send_stream, (m, stream_id.id), got)
                    && match got {
                        Some(stream) => (r matches Ok(Some(b)) && b.stream() == stream),
                        None => r == Ok::<Option<BevySendStream<C::SendMut<'s>>>, MismatchedStreamType>(None),
                    },
    {
        let kind = self.kind;
        if stream_id.kind != kind {
            return Err(MismatchedStreamType { expected: kind.id_name() });
        }
        match self.connection.send_stream(stream_id.id) {
            Some(stream) => Ok(Some(BevySendStream::new(stream))),
            None => Ok(None),
        }
    }

    /// The receive stream of `stream_id`. Fails when the id is not of this
    /// connection's transport; gives `None` when the connection has no
    /// such receive stream.
    pub fn recv_stream<'s>(&'s mut self, stream_id: BevyStreamId) -> (r: Result<Option<BevyRecvStream<C::RecvMut<'s>>>, MismatchedStreamType>)
        ensures
            stream_id.kind != old(self).spec_kind() ==> r == Err::<Option<BevyRecvStream<C::RecvMut<'s>>>, MismatchedStreamType>(
                MismatchedStreamType { expected: old(self).spec_kind().spec_id_name() }),
            stream_id.kind == old(self).spec_kind() ==> r is Ok,
            final(self).spec_kind() == old(self).spec_kind(),
            stream_id.kind != old(self).spec_kind() ==> final(self).connection() == old(self).connection(),
            stream_id.kind == old(self).spec_kind() ==> exists|m: &mut C, got: Option<C::RecvMut<'s>>|
                mut_ref_current(m) == old(self).connection() && mut_ref_future(m) == final(self).connection()
                    && #[trigger] call_ensures(C::recv_stream, (m, stream_id.id), got)
                    && match got {
                        Some(stream) => (r matches Ok(Some(b)) && b.stream() == stream),
                        None => r == Ok::<Option<BevyRecvStream<C::RecvMut<'s>>>, MismatchedStreamType>(None),
                    },
    {
        let kind = self.kind;
        if stream_id.kind != kind {
            return Err(MismatchedStreamType { expected: kind.id_name() });
        }
        match self.connection.recv_stream(stream_id.id) {
            Some(stream) => Ok(Some(BevyRecvStream::new(stream))),
            None => Ok(None),
        }
    }

    /// The next stream event of the connection, with a transport-independent
    /// stream id: what the connection's own poll gave, with this
    /// connection's transport.
    pub fn poll_stream_events(&mut self) -> (r: Option<BevyStreamEvent>)
        ensures
            r matches Some(event) ==> event.stream_id.kind == old(self).spec_kind(),
            final(self).spec_kind() == old(self).spec_kind(),
            exists|m: &mut C, polled: Option<StreamEvent<u64>>|
                mut_ref_current(m) == old(self).connection() && mut_ref_future(m) == final(self).connection()
                    && #[trigger] call_ensures(C::poll_stream_events, (m,), polled)
                    && r == bevy_event_of(old(self).spec_kind(), polled),
            bevy_poll_step(*old(self), *final(self), r),
    {
        match self.connection.poll_stream_events() {
            Some(event) => Some(BevyStreamEvent::from_event(self.kind, event)),
            None => None,
        }
    }

    /// Disconnects the connection, through the connection's own
    /// `disconnect`.
    pub fn disconnect(&mut self)
        ensures
            final(self).spec_kind() == old(self).spec_kind(),
            exists|m: &mut C|
                mut_ref_current(m) == old(self).connection() && mut_ref_future(m) == final(self).connection()
                    && #[trigger] call_ensures(C::disconnect, (m,), ()),
    {
        self.connection.disconnect();
    }
}

/// Transport-independent access to a send stream.
pub struct BevySendStream<S> {
    stream: S,
}

impl<S: SendStreamMut> BevySendStream<S> {
    pub closed spec fn stream(&self) -> S {
        self.stream
    }

    pub fn new(stream: S) -> (r: Self)
        ensures
            r.stream() == stream,
    {
        BevySendStream { stream }
    }

    /// Writes a prefix of `data` with the stream's own `send`, and gives
    /// what that call gave.
    pub fn send(&mut self, data: &[u8]) -> (r: Result<usize, S::SendError>)
        ensures
            r matches Ok(n) ==> n <= data@.len(),
            exists|m: &mut S|
                mut_ref_current(m) == old(self).stream() && mut_ref_future(m) == final(self).stream()
                    && #[trigger] call_ensures(S::send, (m, data), r),
    {
        self.stream.send(data)
    }

    /// Closes the stream as `description` says. Fails, leaving the stream
    /// as it was, when the description is not for this transport's send
    /// streams; otherwise gives what closing gave.
    pub fn close(&mut self, description: Description) -> (r: Result<Result<(), ()>, MismatchedType>)
        ensures
            (S::CloseDescription::spec_from_value(description.value) is None) ==> r == Err::<Result<(), ()>, MismatchedType>(
                MismatchedType { expected: S::CloseDescription::spec_value_name() })
                && final(self).stream() == old(self).stream(),
            S::CloseDescription::spec_from_value(description.value) matches Some(d) ==> r matches Ok(c)
                && exists|m: &mut S|
                mut_ref_current(m) == old(self).stream() && mut_ref_future(m) == final(self).stream()
                    && #[trigger] call_ensures(S::close, (m, d), c),
    {
        match description.downcast::<S::CloseDescription>() {
            Ok(description) => Ok(self.stream.close(description)),
            Err(e) => Err(e),
        }
    }

    /// Whether the stream is open, as the stream itself reports it.
    pub fn is_open(&self) -> (r: bool)
        ensures
            call_ensures(S::is_open, (&self.stream(),), r),
    {
        self.stream.is_open()
    }
}

impl<S: SendStreamMut> SendStreamMut for BevySendStream<S> {
    type SendError = S::SendError;

    type CloseDescription = S::CloseDescription;

    /// A write does what a write of the stream it holds does.
    open spec fn send_step(before: &Self, after: &Self, data: Seq<u8>, r: Result<usize, S::SendError>) -> bool {
        S::send_step(&before.stream(), &after.stream(), data, r)
    }

    fn send(&mut self, data: &[u8]) -> (r: Result<usize, S::SendError>)
        ensures
            exists|m: &mut S|
                mut_ref_current(m) == old(self).stream() && mut_ref_future(m) == final(self).stream()
                    && #[trigger] call_ensures(S::send, (m, data), r),
    {
        self.stream.send(data)
    }

    fn close(&mut self, description: S::CloseDescription) -> Result<(), ()> {
        self.stream.close(description)
    }

    fn is_open(&self) -> (r: bool)
        ensures
            call_ensures(S::is_open, (&self.stream(),), r),
    {
        self.stream.is_open()
    }
}

/// Transport-independent access to a receive stream.
pub struct BevyRecvStream<S> {
    stream: S,
}

impl<S: RecvStreamMut> BevyRecvStream<S> {
    pub closed spec fn stream(&self) -> S {
        self.stream
    }

    pub fn new(stream: S) -> (r: Self)
        ensures
            r.stream() == stream,
    {
        BevyRecvStream { stream }
    }

    /// Reads at most `limit` bytes with the stream's own `recv`, and gives
    /// what that call gave.
    pub fn recv(&mut self, limit: usize) -> (r: Result<Vec<u8>, S::ReadError>)
        ensures
            r matches Ok(bytes) ==> bytes@.len() <= limit,
            exists|m: &mut S|
                mut_ref_current(m) == old(self).stream() && mut_ref_future(m) == final(self).stream()
                    && #[trigger] call_ensures(S::recv, (m, limit), r),
    {
        self.stream.recv(limit)
    }

    /// Closes the stream as `description` says. Fails, leaving the stream
    /// as it was, when the description is not for this transport's receive
    /// streams; otherwise gives what closing gave.
    pub fn close(&mut self, description: Description) -> (r: Result<Result<(), ()>, MismatchedType>)
        ensures
            (S::CloseDescription::spec_from_value(description.value) is None) ==> r == Err::<Result<(), ()>, MismatchedType>(
                MismatchedType { expected: S::CloseDescription::spec_value_name() })
                && final(self).stream() == old(self).stream(),
            S::CloseDescription::spec_from_value(description.value) matches Some(d) ==> r matches Ok(c)
                && exists|m: &mut S|
                mut_ref_current(m) == old(self).stream() && mut_ref_future(m) == final(self).stream()
                    && #[trigger] call_ensures(S::close, (m, d), c),
    {
        match description.downcast::<S::CloseDescription>() {
            Ok(description) => Ok(self.stream.close(description)),
            Err(e) => Err(e),
        }
    }

    /// Whether the stream is open, as the stream itself reports it.
    pub fn is_open(&self) -> (r: bool)
        ensures
            call_ensures(S::is_open, (&self.stream(),), r),
    {
        self.stream.is_open()
    }
}

impl<S: RecvStreamMut> RecvStreamMut for BevyRecvStream<S> {
    type ReadError = S::ReadError;

    type CloseDescription = S::CloseDescription;

    /// A read does what a read of the stream it holds does.
    open spec fn recv_step(before: &Self, after: &Self, limit: usize, r: Result<Vec<u8>, S::ReadError>) -> bool {
        S::recv_step(&before.stream(), &after.stream(), limit, r)
    }

    fn recv(&mut self, limit: usize) -> (r: Result<Vec<u8>, S::ReadError>)
        ensures
            exists|m: &mut S|
                mut_ref_current(m) == old(self).stream() && mut_ref_future(m) == final(self).stream()
                    && #[trigger] call_ensures(S::recv, (m, limit), r),
    {
        self.stream.recv(limit)
    }

    fn close(&mut self, description: S::CloseDescription) -> Result<(), ()> {
        self.stream.close(description)
    }

    fn is_open(&self) -> (r: bool)
        ensures
            call_ensures(S::is_open, (&self.stream(),), r),
    {
        self.stream.is_open()
    }
}

} // verus!
