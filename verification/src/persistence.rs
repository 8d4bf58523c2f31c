//! A stream-oriented variant of the store contract, for backends that address
//! events by a caller-supplied per-stream offset, together with the stub
//! capabilities (snapshots, projections) that sit beside an event store.

use vstd::prelude::*;

verus! {

/// An event with associated metadata that corresponds to how it was stored in
/// the event store.
pub struct PersistedEvent<Offset, Event> {
    /// The global offset of the event in the event store.
    pub global_offset: Offset,
    /// The offset within a single stream.
    pub stream_offset: Offset,
    /// The event that was stored by the client of the event store.
    pub event: Event,
}

/// A repository for storing historical event logs, keyed by stream.
pub trait EventStore {
    /// The unique identifier of a stream in the event store
    type StreamId;

    /// The type of the offsets into the event store and its streams
    type Offset;

    /// The event store's native serialized form
    type SerializedEvent;

    /// A lazily loaded stream of events in the event store's native form
    type EventStream;

    /// Persist the events to the event store
    fn persist_events(
        &self,
        stream_id: &Self::StreamId,
        stream_offset: Self::Offset,
        events: Vec<Self::SerializedEvent>,
    );

    /// Read the events back from the event store
    fn get_events(&self, stream_id: &Self::StreamId) -> Self::EventStream;
}

/// A store of aggregate snapshots, so that a reader need not replay a whole
/// history.
pub trait SnapshotStore {

}

/// A store of read-side projections derived from the event log.
pub trait ProjectionStore {

}

} // verus!
