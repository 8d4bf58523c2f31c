use chronicle::PersistedEvent;
use chronicle::SourceId;

#[test]
fn persisted_event_map() {
    let event = PersistedEvent {
        offset: 123,
        source_id: SourceId::new(7),
        sequence_number: 354,
        payload: "hello",
    };

    let new_event = event.clone().map(String::from);

    assert_eq!(new_event.offset, event.offset);
    assert_eq!(new_event.source_id, event.source_id);
    assert_eq!(new_event.sequence_number, event.sequence_number);
    assert_eq!(new_event.payload, event.payload);
}

#[test]
fn persisted_event_as_ref() {
    let event = PersistedEvent {
        offset: 123,
        source_id: SourceId::new(7),
        sequence_number: 354,
        payload: "hello",
    };

    let new_event = event.as_ref();

    assert_eq!(new_event.offset, event.offset);
    assert_eq!(new_event.source_id, event.source_id);
    assert_eq!(new_event.sequence_number, event.sequence_number);
    assert_eq!(new_event.payload, &event.payload);
}

#[test]
fn source_id_keeps_its_value() {
    let source_id = SourceId::new(42);
    assert_eq!(source_id.value, 42);
    assert_eq!(source_id, SourceId::new(42));
    assert_ne!(source_id, SourceId::new(43));
}
