//! An event-sourcing persistence core: a store that records immutable,
//! per-source sequences of domain events and replays them from an arbitrary
//! resumption point.
//!
//! This crate provides the store contract ([`EventStore`]), the persisted
//! record shape ([`PersistedEvent`]) and, in [`memory`], a verified in-memory
//! engine with a resumable catch-up cursor.

use vstd::prelude::*;

pub mod domain;
pub mod memory;
pub mod persistence;

verus! {

/// The sequence number of an event within a single source of events:
/// zero-based, contiguous, and independent of the global offset.
pub type SequenceNumber = usize;

/// The opaque, globally unique identifier of a single source of events.
/// This usually corresponds to an 'aggregate id' in DDD.
#[derive(Debug, Clone, Copy, PartialEq, Eq, Structural)]
pub struct SourceId {
    pub value: u128,
}

impl SourceId {
    /// Wrap a raw identifier value.
    pub fn new(value: u128) -> (s: SourceId)
        ensures
            s.value == value,
    {
        SourceId { value }
    }
}

/// An event with associated metadata that corresponds to how it was stored in
/// the event store.
#[derive(Debug, Clone, PartialEq)]
pub struct PersistedEvent<Offset, Event> {
    /// The global offset of the event in the event store
    pub offset: Offset,
    /// The unique identifier of a single source of events in the event store
    pub source_id: SourceId,
    /// The sequence number within a single source of events
    pub sequence_number: SequenceNumber,
    /// The event payload that was stored by the client of the event store
    pub payload: Event,
}

impl<Offset, Event> PersistedEvent<Offset, Event> {
    /// Take the event data by reference, copying the other fields
    pub fn as_ref(&self) -> (r: PersistedEvent<Offset, &Event>) where Offset: Copy
        ensures
            r.offset == self.offset,
            r.source_id == self.source_id,
            r.sequence_number == self.sequence_number,
            r.payload == self.payload,
    {
        PersistedEvent {
            offset: self.offset,
            source_id: self.source_id,
            sequence_number: self.sequence_number,
            payload: &self.payload,
        }
    }

    /// Apply a transformation to the event payload, copying the other fields
    pub fn map<NewEvent, F: FnOnce(Event) -> NewEvent>(self, f: F) -> (r: PersistedEvent<Offset, NewEvent>)
        requires
            call_requires(f, (self.payload,)),
        ensures
            r.offset == self.offset,
            r.source_id == self.source_id,
            r.sequence_number == self.sequence_number,
            call_ensures(f, (self.payload,), r.payload),
    {
        let PersistedEvent { offset, source_id, sequence_number, payload } = self;
        PersistedEvent {
            offset: offset,
            source_id: source_id,
            sequence_number: sequence_number,
            payload: f(payload),
        }
    }
}

/// The history that an append adds to a source: the batch of payloads paired
/// with the contiguous block of global offsets starting at `start`.
pub open spec fn numbered_from<Event>(start: int, payloads: Seq<Event>) -> Seq<(usize, Event)> {
    Seq::new(payloads.len(), |i: int| (((start + i) as usize), payloads[i]))
}

/// A repository for storing historical event logs.
///
/// An implementation assigns every stored event a global offset, monotonic
/// across the whole store, and keeps one append-only history per source.
pub trait EventStore: Sized {
    /// The type of the offsets into the event store. Relational DBs
    /// will probably use a monotonically increasing sequence number,
    /// where as distributed data sources may use timestamps.
    type Offset;

    /// The event store's native serialized form
    type Event;

    /// A lazily loaded source of events
    type EventsStream;

    /// The store's internal invariant.
    spec fn inv(&self) -> bool;

    /// How many global offsets the store has allocated so far.
    spec fn allocated(&self) -> nat;

    /// The recorded history of one source: its `(global offset, payload)`
    /// pairs in append order, empty if the source has no history.
    spec fn history(&self, source_id: SourceId) -> Seq<(usize, Self::Event)>;

    /// Append the events to the event store for the specified source id.
    ///
    /// The batch lands atomically: the payloads are paired, in order, with a
    /// contiguous block of freshly allocated global offsets and added to the
    /// end of the named source's history; no other source changes. An empty
    /// batch is a no-op: it allocates no offset and changes nothing.
    fn append_events(&mut self, source_id: SourceId, events: Vec<Self::Event>)
        requires
            old(self).inv(),
            old(self).allocated() + events@.len() <= usize::MAX,
        ensures
            final(self).inv(),
            final(self).allocated() == old(self).allocated() + events@.len(),
            final(self).history(source_id) == old(self).history(source_id)
                + numbered_from(old(self).allocated() as int, events@),
            (forall|other: SourceId| other != source_id
                ==> final(self).history(other) == old(self).history(other)),
            events@.len() == 0 ==> *final(self) == *old(self),
    ;

    /// Stream the events back from the event store for the specified source
    /// id, starting at the first event whose global offset is at least
    /// `offset`.
    fn events(&self, source_id: SourceId, offset: Self::Offset) -> Self::EventsStream;
}

} // verus!
