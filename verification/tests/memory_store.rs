use chronicle::EventStore;
use chronicle::PersistedEvent;
use chronicle::SourceId;
use chronicle::memory::MemoryEventStore;

#[test]
fn append_events_if_none_exist_for_the_source_id() {
    let mut event_store = MemoryEventStore::new();
    let source_id_1 = SourceId::new(1);

    event_store.append_events(source_id_1, vec!["A", "B", "C"]);

    assert_eq!(
        event_store.stored_events(source_id_1),
        Some(vec![(0, "A"), (1, "B"), (2, "C")])
    );
}

#[test]
fn append_events_for_an_existing_source_id() {
    let mut event_store = MemoryEventStore::new();
    let source_id_1 = SourceId::new(1);

    event_store.append_events(source_id_1, vec!["A", "B", "C"]);
    event_store.append_events(source_id_1, vec![]);
    event_store.append_events(source_id_1, vec!["D", "E"]);

    assert_eq!(
        event_store.stored_events(source_id_1),
        Some(vec![(0, "A"), (1, "B"), (2, "C"), (3, "D"), (4, "E")])
    );
}

#[test]
fn append_events_maintianing_the_offsets() {
    let mut event_store = MemoryEventStore::new();
    let source_id_1 = SourceId::new(1);
    let source_id_2 = SourceId::new(2);

    event_store.append_events(source_id_1, vec!["A", "B", "C"]);
    event_store.append_events(source_id_2, vec!["a", "b"]);
    event_store.append_events(source_id_1, vec!["D", "E"]);
    event_store.append_events(source_id_2, vec!["c", "d"]);

    assert_eq!(
        event_store.stored_events(source_id_1),
        Some(vec![(0, "A"), (1, "B"), (2, "C"), (5, "D"), (6, "E")])
    );
    assert_eq!(
        event_store.stored_events(source_id_2),
        Some(vec![(3, "a"), (4, "b"), (7, "c"), (8, "d")])
    );
}

#[test]
fn events_on_empty_store() {
    let event_store = MemoryEventStore::<()>::new();
    let source_id_1 = SourceId::new(1);

    let events = event_store.events(source_id_1, 0).collect(&event_store);

    assert_eq!(events, Vec::new());
}

#[test]
fn events_on_non_empty_store() {
    let mut event_store = MemoryEventStore::new();
    let source_id_1 = SourceId::new(1);

    event_store.append_events(source_id_1, vec!["A", "B", "C"]);

    let events = event_store.events(source_id_1, 0).collect(&event_store);

    assert_eq!(
        events,
        vec![
            PersistedEvent {
                offset: 0,
                source_id: source_id_1,
                sequence_number: 0,
                payload: "A",
            },
            PersistedEvent {
                offset: 1,
                source_id: source_id_1,
                sequence_number: 1,
                payload: "B",
            },
            PersistedEvent {
                offset: 2,
                source_id: source_id_1,
                sequence_number: 2,
                payload: "C",
            },
        ]
    );
}

#[test]
fn events_with_out_of_range_offset() {
    let mut event_store = MemoryEventStore::new();
    let source_id_1 = SourceId::new(1);

    event_store.append_events(source_id_1, vec!["A", "B", "C"]);

    let events = event_store.events(source_id_1, 100).collect(&event_store);

    assert_eq!(events, Vec::new());
}

#[test]
fn events_with_non_contiguous_global_id_sequence() {
    let mut event_store = MemoryEventStore::new();
    let source_id_1 = SourceId::new(1);
    let source_id_2 = SourceId::new(2);

    event_store.append_events(source_id_1, vec!["A"]);
    event_store.append_events(source_id_2, vec!["1", "2"]);
    event_store.append_events(source_id_1, vec!["B", "C"]);

    assert_eq!(
        event_store.events(source_id_1, 0).collect(&event_store),
        vec![
            PersistedEvent {
                offset: 0,
                source_id: source_id_1,
                sequence_number: 0,
                payload: "A",
            },
            PersistedEvent {
                offset: 3,
                source_id: source_id_1,
                sequence_number: 1,
                payload: "B",
            },
            PersistedEvent {
                offset: 4,
                source_id: source_id_1,
                sequence_number: 2,
                payload: "C",
            },
        ]
    );

    assert_eq!(
        event_store.events(source_id_2, 0).collect(&event_store),
        vec![
            PersistedEvent {
                offset: 1,
                source_id: source_id_2,
                sequence_number: 0,
                payload: "1",
            },
            PersistedEvent {
                offset: 2,
                source_id: source_id_2,
                sequence_number: 1,
                payload: "2",
            },
        ]
    );
}

#[test]
fn events_after_offset_id() {
    let mut event_store = MemoryEventStore::new();
    let source_id_1 = SourceId::new(1);
    let source_id_2 = SourceId::new(2);

    event_store.append_events(source_id_1, vec!["A", "B"]);
    event_store.append_events(source_id_2, vec!["1", "2", "3"]);
    event_store.append_events(source_id_1, vec!["C", "D"]);

    assert_eq!(
        event_store.events(source_id_1, 1).collect(&event_store),
        vec![
            PersistedEvent {
                offset: 1,
                source_id: source_id_1,
                sequence_number: 1,
                payload: "B",
            },
            PersistedEvent {
                offset: 5,
                source_id: source_id_1,
                sequence_number: 2,
                payload: "C",
            },
            PersistedEvent {
                offset: 6,
                source_id: source_id_1,
                sequence_number: 3,
                payload: "D",
            },
        ]
    );

    assert_eq!(
        event_store.events(source_id_1, 2).collect(&event_store),
        vec![
            PersistedEvent {
                offset: 5,
                source_id: source_id_1,
                sequence_number: 2,
                payload: "C",
            },
            PersistedEvent {
                offset: 6,
                source_id: source_id_1,
                sequence_number: 3,
                payload: "D",
            },
        ]
    );

    assert_eq!(
        event_store.events(source_id_1, 5).collect(&event_store),
        vec![
            PersistedEvent {
                offset: 5,
                source_id: source_id_1,
                sequence_number: 2,
                payload: "C",
            },
            PersistedEvent {
                offset: 6,
                source_id: source_id_1,
                sequence_number: 3,
                payload: "D",
            },
        ]
    );

    assert_eq!(
        event_store.events(source_id_1, 6).collect(&event_store),
        vec![
            PersistedEvent {
                offset: 6,
                source_id: source_id_1,
                sequence_number: 3,
                payload: "D",
            },
        ]
    );
}
