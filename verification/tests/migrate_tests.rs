use event_store::errors::StoreError;
use event_store::migrate::{Migration, MigrationKind};
use event_store::store::EventStore;

fn mig(version: u32, description: &str, kind: MigrationKind) -> Migration {
    Migration {
        version,
        description: description.to_string(),
        sql: format!("create table t{} (id integer)", version),
        kind,
    }
}

#[test]
fn migrator_applies_versions_in_order() {
    let mut s = EventStore::new();
    let migs = vec![
        mig(1, "create event store tables", MigrationKind::Up),
        mig(2, "add snapshot tables", MigrationKind::Up),
    ];
    let r = s.migrate(&migs, 100);
    assert_eq!(r, Ok(2));
    assert_eq!(s.ledger.len(), 2);
    assert_eq!(s.ledger[0].version, 1);
    assert_eq!(s.ledger[1].version, 2);
    assert_eq!(s.ledger[0].applied_at, 100);
    assert_eq!(s.ledger[0].description, "create event store tables");
}

#[test]
fn migrator_rerun_is_noop() {
    let mut s = EventStore::new();
    let migs = vec![
        mig(1, "base", MigrationKind::Up),
        mig(2, "more", MigrationKind::Up),
    ];
    assert_eq!(s.migrate(&migs, 100), Ok(2));
    let r = s.migrate(&migs, 999);
    assert_eq!(r, Ok(2));
    assert_eq!(s.ledger.len(), 2);
    assert_eq!(s.ledger[0].applied_at, 100);
    assert_eq!(s.ledger[1].applied_at, 100);
}

#[test]
fn migrator_prefix_list_is_noop() {
    let mut s = EventStore::new();
    let migs = vec![
        mig(1, "base", MigrationKind::Up),
        mig(2, "more", MigrationKind::Up),
    ];
    assert_eq!(s.migrate(&migs, 100), Ok(2));
    let prefix = vec![mig(1, "base", MigrationKind::Up)];
    assert_eq!(s.migrate(&prefix, 200), Ok(2));
    assert_eq!(s.ledger.len(), 2);
}

#[test]
fn migrator_skips_rollback_entries() {
    let mut s = EventStore::new();
    let migs = vec![
        mig(1, "base", MigrationKind::Up),
        mig(2, "undo base", MigrationKind::Down),
        mig(3, "more", MigrationKind::Up),
    ];
    assert_eq!(s.migrate(&migs, 100), Ok(3));
    assert_eq!(s.ledger.len(), 2);
    assert_eq!(s.ledger[0].version, 1);
    assert_eq!(s.ledger[1].version, 3);
}

#[test]
fn migrator_rejects_unordered_list() {
    let mut s = EventStore::new();
    let migs = vec![
        mig(2, "later", MigrationKind::Up),
        mig(1, "earlier", MigrationKind::Up),
    ];
    let r = s.migrate(&migs, 100);
    assert_eq!(r, Err(StoreError::Migration(1)));
    // the run stopped at the malformed entry and kept what had committed
    assert_eq!(s.ledger.len(), 1);
    assert_eq!(s.ledger[0].version, 2);
}

#[test]
fn migrator_rejects_version_zero() {
    let mut s = EventStore::new();
    let migs = vec![mig(0, "bad", MigrationKind::Up)];
    assert_eq!(s.migrate(&migs, 100), Err(StoreError::Migration(0)));
    assert_eq!(s.ledger.len(), 0);
}

#[test]
fn migrator_empty_list_succeeds_at_version_zero() {
    let mut s = EventStore::new();
    let migs: Vec<Migration> = Vec::new();
    assert_eq!(s.migrate(&migs, 100), Ok(0));
    assert_eq!(s.ledger.len(), 0);
}
