use chronicle::EventStore;
use chronicle::SourceId;
use chronicle::memory::MemoryEventStore;

#[test]
fn global_counter_counts_every_append() {
    let mut store = MemoryEventStore::new();
    let s1 = SourceId::new(1);
    let s2 = SourceId::new(2);

    assert_eq!(store.global_count(), 0);
    store.append_events(s1, vec!["A", "B", "C"]);
    assert_eq!(store.global_count(), 3);
    store.append_events(s2, vec!["1", "2"]);
    assert_eq!(store.global_count(), 5);
}

#[test]
fn empty_append_changes_nothing_on_existing_source() {
    let mut store = MemoryEventStore::new();
    let s1 = SourceId::new(9);

    store.append_events(s1, vec!["A"]);
    assert_eq!(store.global_count(), 1);

    store.append_events(s1, Vec::new());

    assert_eq!(store.global_count(), 1);
    assert_eq!(store.stored_events(s1), Some(vec![(0, "A")]));
    assert_eq!(store.events(s1, 0).collect(&store).len(), 1);
}

#[test]
fn empty_append_creates_no_source() {
    let mut store = MemoryEventStore::<&str>::new();
    let s1 = SourceId::new(3);

    store.append_events(s1, Vec::new());

    assert_eq!(store.global_count(), 0);
    assert_eq!(store.stored_events(s1), None);
    assert!(store.events(s1, 0).collect(&store).is_empty());
}

#[test]
fn full_read_sequence_numbers_are_contiguous() {
    let mut store = MemoryEventStore::new();
    let s1 = SourceId::new(1);
    let s2 = SourceId::new(2);

    store.append_events(s1, vec!["A"]);
    store.append_events(s2, vec!["x", "y"]);
    store.append_events(s1, vec!["B", "C"]);
    store.append_events(s2, vec!["z"]);

    let read_1 = store.events(s1, 0).collect(&store);
    let numbers_1: Vec<usize> = read_1.iter().map(|e| e.sequence_number).collect();
    assert_eq!(numbers_1, vec![0, 1, 2]);

    let read_2 = store.events(s2, 0).collect(&store);
    let numbers_2: Vec<usize> = read_2.iter().map(|e| e.sequence_number).collect();
    assert_eq!(numbers_2, vec![0, 1, 2]);
}

#[test]
fn read_offsets_strictly_increase() {
    let mut store = MemoryEventStore::new();
    let s1 = SourceId::new(1);
    let s2 = SourceId::new(2);

    store.append_events(s1, vec!["A", "B"]);
    store.append_events(s2, vec!["x"]);
    store.append_events(s1, vec!["C"]);

    let offsets: Vec<usize> = store
        .events(s1, 0)
        .collect(&store)
        .iter()
        .map(|e| e.offset)
        .collect();
    assert_eq!(offsets, vec![0, 1, 3]);
    assert!(offsets.windows(2).all(|pair| pair[0] < pair[1]));
}

#[test]
fn no_yielded_offset_below_the_resume_offset() {
    let mut store = MemoryEventStore::new();
    let s1 = SourceId::new(1);
    let s2 = SourceId::new(2);

    store.append_events(s1, vec!["A", "B"]);
    store.append_events(s2, vec!["x", "y"]);
    store.append_events(s1, vec!["C", "D"]);

    for resume in 0..8 {
        let read = store.events(s1, resume).collect(&store);
        assert!(read.iter().all(|e| e.offset >= resume));
    }
}

#[test]
fn poll_skips_entries_below_the_resume_offset() {
    let mut store = MemoryEventStore::new();
    let s1 = SourceId::new(1);

    store.append_events(s1, vec!["A", "B", "C"]);

    let mut cursor = store.events(s1, 2);
    let first = cursor.poll(&store).unwrap();
    assert_eq!(first.offset, 2);
    assert_eq!(first.sequence_number, 2);
    assert_eq!(first.payload, "C");
    assert!(cursor.poll(&store).is_none());
}

#[test]
fn exhausted_cursor_can_drain_later_appends() {
    let mut store = MemoryEventStore::new();
    let s1 = SourceId::new(1);

    store.append_events(s1, vec!["A"]);

    let mut cursor = store.events(s1, 0);
    assert_eq!(cursor.poll(&store).unwrap().payload, "A");
    assert!(cursor.poll(&store).is_none());

    store.append_events(s1, vec!["B"]);
    let resumed = cursor.poll(&store).unwrap();
    assert_eq!(resumed.payload, "B");
    assert_eq!(resumed.sequence_number, 1);
    assert!(cursor.poll(&store).is_none());
}

#[test]
fn reading_an_absent_source_is_not_an_error() {
    let mut store = MemoryEventStore::new();
    let s1 = SourceId::new(1);
    let s2 = SourceId::new(2);

    store.append_events(s1, vec!["A"]);

    assert!(store.events(s2, 0).collect(&store).is_empty());
    assert_eq!(store.stored_events(s2), None);
}
