use event_store::errors::StoreError;
use event_store::migrate::{Migration, MigrationKind};
use event_store::store::EventStore;

fn migrated_store() -> EventStore {
    let mut s = EventStore::new();
    let migs = vec![Migration {
        version: 1,
        description: "create event store tables".to_string(),
        sql: "create table events (stream_id text, sequence integer)".to_string(),
        kind: MigrationKind::Up,
    }];
    assert_eq!(s.migrate(&migs, 1), Ok(1));
    s
}

fn append_ok(s: &mut EventStore, stream: &str, expected: u64, kind: &str, payload: Vec<u8>) -> u64 {
    let id = stream.to_string();
    s.append(&id, expected, kind.to_string(), payload, 0)
        .expect("append should succeed")
}

#[test]
fn first_append_returns_sequence_one_and_rerun_conflicts() {
    let mut s = migrated_store();
    let id = "s1".to_string();
    let r1 = s.append(&id, 1, "created".to_string(), vec![], 10);
    assert_eq!(r1, Ok(1));
    let r2 = s.append(&id, 1, "created".to_string(), vec![], 11);
    assert_eq!(r2, Err(StoreError::ConcurrencyConflict));
}

#[test]
fn append_checks_expected_sequence() {
    let mut s = migrated_store();
    assert_eq!(append_ok(&mut s, "s1", 1, "a", vec![]), 1);
    let id = "s1".to_string();
    assert_eq!(
        s.append(&id, 3, "b".to_string(), vec![], 0),
        Err(StoreError::ConcurrencyConflict)
    );
    assert_eq!(
        s.append(&id, 0, "b".to_string(), vec![], 0),
        Err(StoreError::ConcurrencyConflict)
    );
    assert_eq!(append_ok(&mut s, "s1", 2, "b", vec![]), 2);
}

#[test]
fn append_to_missing_stream_needs_sequence_one() {
    let mut s = migrated_store();
    let id = "fresh".to_string();
    assert_eq!(
        s.append(&id, 2, "a".to_string(), vec![], 0),
        Err(StoreError::ConcurrencyConflict)
    );
    assert_eq!(s.append(&id, 1, "a".to_string(), vec![], 0), Ok(1));
}

#[test]
fn read_range_returns_appends_in_order() {
    let mut s = migrated_store();
    append_ok(&mut s, "s1", 1, "a", vec![1]);
    append_ok(&mut s, "s1", 2, "b", vec![2]);
    append_ok(&mut s, "s1", 3, "c", vec![3]);
    let id = "s1".to_string();
    let events = s.read_range(&id, 1, None).expect("stream exists");
    assert_eq!(events.len(), 3);
    for (k, e) in events.iter().enumerate() {
        assert_eq!(e.sequence, k as u64 + 1);
        assert_eq!(e.stream_id, "s1");
    }
    assert_eq!(events[0].event_type, "a");
    assert_eq!(events[1].event_type, "b");
    assert_eq!(events[2].event_type, "c");
    assert_eq!(events[0].payload, vec![1]);
    assert_eq!(events[2].payload, vec![3]);
}

#[test]
fn read_range_is_restartable() {
    let mut s = migrated_store();
    append_ok(&mut s, "s1", 1, "a", vec![]);
    append_ok(&mut s, "s1", 2, "b", vec![]);
    let id = "s1".to_string();
    let first = s.read_range(&id, 1, None).unwrap();
    let second = s.read_range(&id, 1, None).unwrap();
    assert_eq!(first.len(), 2);
    assert_eq!(second.len(), 2);
    assert_eq!(first[0].sequence, second[0].sequence);
    assert_eq!(first[1].event_type, second[1].event_type);
}

#[test]
fn read_range_honors_bounds() {
    let mut s = migrated_store();
    for k in 1..=4u64 {
        append_ok(&mut s, "s1", k, "e", vec![k as u8]);
    }
    let id = "s1".to_string();
    let mid = s.read_range(&id, 2, Some(3)).unwrap();
    assert_eq!(mid.len(), 2);
    assert_eq!(mid[0].sequence, 2);
    assert_eq!(mid[1].sequence, 3);
    let tail = s.read_range(&id, 3, Some(100)).unwrap();
    assert_eq!(tail.len(), 2);
    assert_eq!(tail[1].sequence, 4);
}

#[test]
fn read_range_empty_range_is_ok_on_existing_stream() {
    let mut s = migrated_store();
    append_ok(&mut s, "s1", 1, "a", vec![]);
    let id = "s1".to_string();
    let none = s.read_range(&id, 5, None).unwrap();
    assert!(none.is_empty());
}

#[test]
fn read_range_unknown_stream_is_not_found() {
    let s = migrated_store();
    let id = "ghostly".to_string();
    assert!(matches!(s.read_range(&id, 1, None), Err(StoreError::NotFound)));
}

#[test]
fn latest_sequence_tracks_appends() {
    let mut s = migrated_store();
    let id = "s1".to_string();
    assert_eq!(s.latest_sequence(&id), None);
    append_ok(&mut s, "s1", 1, "a", vec![]);
    assert_eq!(s.latest_sequence(&id), Some(1));
    append_ok(&mut s, "s1", 2, "b", vec![]);
    assert_eq!(s.latest_sequence(&id), Some(2));
}

#[test]
fn streams_are_independent() {
    let mut s = migrated_store();
    append_ok(&mut s, "s1", 1, "a", vec![]);
    append_ok(&mut s, "s2", 1, "x", vec![]);
    append_ok(&mut s, "s1", 2, "b", vec![]);
    let id1 = "s1".to_string();
    let id2 = "s2".to_string();
    assert_eq!(s.latest_sequence(&id1), Some(2));
    assert_eq!(s.latest_sequence(&id2), Some(1));
    let e2 = s.read_range(&id2, 1, None).unwrap();
    assert_eq!(e2.len(), 1);
    assert_eq!(e2[0].event_type, "x");
}

#[test]
fn save_snapshot_never_moves_backward() {
    let mut s = migrated_store();
    for k in 1..=3u64 {
        append_ok(&mut s, "s1", k, "e", vec![]);
    }
    let id = "s1".to_string();
    assert_eq!(s.save_snapshot(&id, 2, vec![7], 1), Ok(true));
    // same or lower sequence: a no-op
    assert_eq!(s.save_snapshot(&id, 2, vec![8], 1), Ok(false));
    assert_eq!(s.save_snapshot(&id, 1, vec![9], 1), Ok(false));
    assert_eq!(s.save_snapshot(&id, 3, vec![10], 1), Ok(true));
    let latest = s.latest_snapshot(&id).expect("snapshot saved");
    assert_eq!(latest.sequence, 3);
    assert_eq!(latest.state_blob, vec![10]);
}

#[test]
fn save_snapshot_rejects_sequences_outside_the_log() {
    let mut s = migrated_store();
    append_ok(&mut s, "s1", 1, "e", vec![]);
    let id = "s1".to_string();
    assert_eq!(s.save_snapshot(&id, 0, vec![], 1), Ok(false));
    assert_eq!(s.save_snapshot(&id, 5, vec![], 1), Ok(false));
    assert!(s.latest_snapshot(&id).is_none());
}

#[test]
fn save_snapshot_unknown_stream_is_not_found() {
    let mut s = migrated_store();
    let id = "ghostly".to_string();
    assert_eq!(
        s.save_snapshot(&id, 1, vec![], 1),
        Err(StoreError::NotFound)
    );
    assert!(s.latest_snapshot(&id).is_none());
}
