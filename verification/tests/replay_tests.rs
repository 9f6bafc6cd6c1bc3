use event_store::errors::StoreError;
use event_store::inventory::InventoryReducer;
use event_store::migrate::{Migration, MigrationKind};
use event_store::store::EventStore;

const SWORD: u8 = 1;
const SHIELD: u8 = 2;
const BOW: u8 = 3;

fn migrated_store() -> EventStore {
    let mut s = EventStore::new();
    let migs = vec![Migration {
        version: 1,
        description: "create event store tables".to_string(),
        sql: "create table events (stream_id text, sequence integer)".to_string(),
        kind: MigrationKind::Up,
    }];
    assert_eq!(s.migrate(&migs, 1), Ok(1));
    s
}

fn append_ok(s: &mut EventStore, stream: &str, expected: u64, kind: &str, payload: Vec<u8>) {
    let id = stream.to_string();
    let r = s.append(&id, expected, kind.to_string(), payload, 0);
    assert_eq!(r, Ok(expected));
}

#[test]
fn inventory_rebuild_folds_in_order() {
    let mut s = migrated_store();
    append_ok(&mut s, "game-42", 1, "create", vec![]);
    append_ok(&mut s, "game-42", 2, "add", vec![SWORD]);
    append_ok(&mut s, "game-42", 3, "add", vec![SHIELD]);
    append_ok(&mut s, "game-42", 4, "remove", vec![SWORD]);
    let id = "game-42".to_string();
    let reducer = InventoryReducer {};
    let state = s.rebuild(&id, &reducer, None).expect("replay succeeds");
    assert_eq!(state, vec![SHIELD]);
}

#[test]
fn snapshot_then_append_rebuilds_without_older_events() {
    let mut s = migrated_store();
    append_ok(&mut s, "game-42", 1, "create", vec![]);
    append_ok(&mut s, "game-42", 2, "add", vec![SWORD]);
    append_ok(&mut s, "game-42", 3, "add", vec![SHIELD]);
    append_ok(&mut s, "game-42", 4, "remove", vec![SWORD]);
    let id = "game-42".to_string();
    let reducer = InventoryReducer {};
    assert_eq!(s.snapshot_now(&id, &reducer), Ok(4));
    let snap = s.latest_snapshot(&id).expect("snapshot saved");
    assert_eq!(snap.sequence, 4);
    assert_eq!(snap.state_blob, vec![SHIELD]);
    assert_eq!(snap.schema_version, 1);
    append_ok(&mut s, "game-42", 5, "add", vec![BOW]);
    let state = s.rebuild(&id, &reducer, None).expect("replay succeeds");
    assert_eq!(state, vec![SHIELD, BOW]);
}

#[test]
fn rebuild_with_snapshot_matches_rebuild_from_scratch() {
    let steps: Vec<(&str, Vec<u8>)> = vec![
        ("create", vec![]),
        ("add", vec![SWORD]),
        ("add", vec![SHIELD]),
        ("remove", vec![SWORD]),
        ("add", vec![BOW]),
    ];
    let reducer = InventoryReducer {};
    let id = "game-42".to_string();

    // one store takes a snapshot partway, the other never does
    let mut with_snap = migrated_store();
    let mut without = migrated_store();
    for (k, (kind, payload)) in steps.iter().enumerate() {
        append_ok(&mut with_snap, "game-42", k as u64 + 1, kind, payload.clone());
        if k == 2 {
            assert_eq!(with_snap.snapshot_now(&id, &reducer), Ok(3));
        }
    }
    for (k, (kind, payload)) in steps.iter().enumerate() {
        append_ok(&mut without, "game-42", k as u64 + 1, kind, payload.clone());
    }
    let a = with_snap.rebuild(&id, &reducer, None).unwrap();
    let b = without.rebuild(&id, &reducer, None).unwrap();
    assert_eq!(a, b);
    // and so for every point-in-time target
    for t in 0..=5u64 {
        let a = with_snap.rebuild(&id, &reducer, Some(t)).unwrap();
        let b = without.rebuild(&id, &reducer, Some(t)).unwrap();
        assert_eq!(a, b, "diverged at target {}", t);
    }
}

#[test]
fn rebuild_honors_point_in_time_target() {
    let mut s = migrated_store();
    append_ok(&mut s, "g", 1, "create", vec![]);
    append_ok(&mut s, "g", 2, "add", vec![SWORD]);
    append_ok(&mut s, "g", 3, "add", vec![SHIELD]);
    let id = "g".to_string();
    let reducer = InventoryReducer {};
    assert_eq!(s.rebuild(&id, &reducer, Some(2)).unwrap(), vec![SWORD]);
    assert_eq!(s.rebuild(&id, &reducer, Some(0)).unwrap(), Vec::<u8>::new());
    // a target past the end folds to the end
    assert_eq!(
        s.rebuild(&id, &reducer, Some(99)).unwrap(),
        vec![SWORD, SHIELD]
    );
}

#[test]
fn adding_a_held_item_changes_nothing() {
    let mut s = migrated_store();
    append_ok(&mut s, "g", 1, "add", vec![SWORD]);
    append_ok(&mut s, "g", 2, "add", vec![SWORD]);
    let id = "g".to_string();
    let reducer = InventoryReducer {};
    assert_eq!(s.rebuild(&id, &reducer, None).unwrap(), vec![SWORD]);
}

#[test]
fn rebuild_unknown_stream_is_not_found() {
    let s = migrated_store();
    let id = "ghostly".to_string();
    let reducer = InventoryReducer {};
    assert!(matches!(
        s.rebuild(&id, &reducer, None),
        Err(StoreError::NotFound)
    ));
    let mut s = s;
    assert_eq!(s.snapshot_now(&id, &reducer), Err(StoreError::NotFound));
}

#[test]
fn rejected_event_surfaces_as_replay_error() {
    let mut s = migrated_store();
    append_ok(&mut s, "g", 1, "add", vec![SWORD]);
    append_ok(&mut s, "g", 2, "explode", vec![]);
    let id = "g".to_string();
    let reducer = InventoryReducer {};
    assert!(matches!(
        s.rebuild(&id, &reducer, None),
        Err(StoreError::Replay)
    ));
    // the log itself is untouched and still readable
    let events = s.read_range(&id, 1, None).unwrap();
    assert_eq!(events.len(), 2);
    assert_eq!(events[1].event_type, "explode");
    // a rebuild that stops before the bad event still succeeds
    assert_eq!(s.rebuild(&id, &reducer, Some(1)).unwrap(), vec![SWORD]);
}

#[test]
fn malformed_payload_surfaces_as_replay_error() {
    let mut s = migrated_store();
    append_ok(&mut s, "g", 1, "add", vec![SWORD, SHIELD]);
    let id = "g".to_string();
    let reducer = InventoryReducer {};
    assert!(matches!(
        s.rebuild(&id, &reducer, None),
        Err(StoreError::Replay)
    ));
    assert!(matches!(
        s.snapshot_now(&id, &reducer),
        Err(StoreError::Replay)
    ));
    assert!(s.latest_snapshot(&id).is_none());
}

#[test]
fn snapshot_now_twice_is_a_noop_second_time() {
    let mut s = migrated_store();
    append_ok(&mut s, "g", 1, "add", vec![SWORD]);
    let id = "g".to_string();
    let reducer = InventoryReducer {};
    assert_eq!(s.snapshot_now(&id, &reducer), Ok(1));
    assert_eq!(s.snapshot_now(&id, &reducer), Ok(1));
    let snap = s.latest_snapshot(&id).expect("snapshot saved");
    assert_eq!(snap.sequence, 1);
    assert_eq!(snap.state_blob, vec![SWORD]);
}
