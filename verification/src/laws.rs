//! The store's laws, each stated and proved over the public spec model.

use vstd::prelude::*;

use crate::event::{EventV, SnapshotV};
use crate::migrate::{
    ledger_sorted, lemma_run_bounds, lemma_run_skip_all, lemma_run_succeeds_iff_ascending,
    run_migrations, MigrationV, SchemaVersionV,
};
use crate::replay::{
    fold_events, lemma_replay_transparent, replay, snapshot_matches, snapshots_consistent,
    target_sequence, Reducer,
};
use crate::store::{range_view, EventStore};

verus! {

/// Reading the full range (from sequence 1 to the end) yields the whole
/// stream: exactly the successful appends, in append order.
pub proof fn lemma_full_range_is_stream(events: Seq<EventV>)
    ensures
        range_view(events, 1, None) == events,
{
    assert(range_view(events, 1, None) =~= events);
}

/// Whatever was appended to a stream reads back in strictly increasing,
/// gapless sequence order matching append order: the event at position `k`
/// (0-based) carries sequence `k + 1`.
pub proof fn lemma_stream_order(store: EventStore, id: Seq<char>)
    requires
        store.wf(),
    ensures
        forall|k: int|
            0 <= k < store.stream_view(id).len() ==> (#[trigger] store.stream_view(
                id,
            )[k]).sequence as int == k + 1,
        forall|j: int, k: int|
            0 <= j < k < store.stream_view(id).len() ==> store.stream_view(id)[j].sequence
                < store.stream_view(id)[k].sequence,
{
    if store.has_stream(id) {
        let i = store.stream_index(id);
        assert(store.streams@[i].wf());
        assert forall|k: int| 0 <= k < store.stream_view(id).len() implies (
        #[trigger] store.stream_view(id)[k]).sequence as int == k + 1 by {
            assert(store.stream_view(id)[k] == store.streams@[i].events@[k]@);
        }
    }
}

/// Two appends racing with the same `expected_sequence` on one stream:
/// after one has succeeded, the check the other must pass no longer holds,
/// so it fails with a conflict and writes nothing. And the log never holds
/// two events of one stream at the same sequence.
pub proof fn lemma_append_race(
    pre: EventStore,
    mid: EventStore,
    id: Seq<char>,
    expected_sequence: u64,
)
    requires
        pre.wf(),
        mid.wf(),
        pre.can_append(id, expected_sequence),
        mid.latest_sequence_spec(id) == expected_sequence as nat,
    ensures
        !mid.can_append(id, expected_sequence),
        forall|j: int, k: int|
            0 <= j < k < mid.stream_view(id).len() ==> mid.stream_view(id)[j].sequence
                != mid.stream_view(id)[k].sequence,
{
    lemma_stream_order(mid, id);
}

/// Appending an event disturbs no existing snapshot's faithfulness: each
/// one covers a prefix the append left untouched.
pub proof fn lemma_consistent_after_append<R: Reducer>(
    reducer: &R,
    events: Seq<EventV>,
    snaps: Seq<SnapshotV>,
    ev: EventV,
)
    requires
        snapshots_consistent(reducer, events, snaps),
    ensures
        snapshots_consistent(reducer, events.push(ev), snaps),
{
    assert forall|i: int| 0 <= i < snaps.len() implies snapshot_matches(
        reducer,
        events.push(ev),
        #[trigger] snaps[i],
    ) by {
        assert(snapshot_matches(reducer, events, snaps[i]));
        assert(events.push(ev).subrange(0, snaps[i].sequence as int) =~= events.subrange(
            0,
            snaps[i].sequence as int,
        ));
    }
}

/// Adding a faithful snapshot keeps the snapshot list faithful.
pub proof fn lemma_consistent_after_save<R: Reducer>(
    reducer: &R,
    events: Seq<EventV>,
    snaps: Seq<SnapshotV>,
    s: SnapshotV,
)
    requires
        snapshots_consistent(reducer, events, snaps),
        snapshot_matches(reducer, events, s),
    ensures
        snapshots_consistent(reducer, events, snaps.push(s)),
{
    assert forall|i: int| 0 <= i < snaps.push(s).len() implies snapshot_matches(
        reducer,
        events,
        #[trigger] snaps.push(s)[i],
    ) by {
        if i < snaps.len() {
            assert(snaps.push(s)[i] == snaps[i]);
        } else {
            assert(snaps.push(s)[i] == s);
        }
    }
}

/// Snapshot transparency: as long as every snapshot of the stream is
/// faithful, a rebuild — which may start from a snapshot — returns exactly
/// what a rebuild from sequence 1 with no snapshot returns, for any
/// reducer and any target. Snapshots can only shorten the fold, never
/// change its result.
pub proof fn lemma_rebuild_snapshot_transparent<R: Reducer>(
    store: EventStore,
    reducer: &R,
    id: Seq<char>,
    up_to: Option<u64>,
)
    requires
        store.wf(),
        snapshots_consistent(reducer, store.stream_view(id), store.snaps_view(id)),
    ensures
        ({
            let evs = store.stream_view(id);
            let target = target_sequence(up_to, evs.len());
            replay(reducer, evs, store.snaps_view(id), target) == fold_events(
                reducer,
                reducer.init_spec(),
                evs.subrange(0, target as int),
            )
        }),
{
    let evs = store.stream_view(id);
    let target = target_sequence(up_to, evs.len());
    assert(target <= evs.len());
    lemma_replay_transparent(reducer, evs, store.snaps_view(id), target);
}

/// The snapshot a fresh full rebuild writes is itself faithful, so saving
/// it keeps the snapshot list faithful.
pub proof fn lemma_full_rebuild_snapshot_faithful<R: Reducer>(
    reducer: &R,
    events: Seq<EventV>,
    snaps: Seq<SnapshotV>,
    s: SnapshotV,
)
    requires
        snapshots_consistent(reducer, events, snaps),
        s.sequence as nat == events.len(),
        replay(reducer, events, snaps, events.len()) == Some(s.state_blob),
    ensures
        snapshot_matches(reducer, events, s),
        snapshots_consistent(reducer, events, snaps.push(s)),
{
    lemma_replay_transparent(reducer, events, snaps, events.len());
    lemma_consistent_after_save(reducer, events, snaps, s);
}

/// Running the migrator a second time with the same list is a no-op: the
/// ledger (and with it the schema version) comes back unchanged, and the
/// second run succeeds.
pub proof fn lemma_migrator_idempotent(
    ledger: Seq<SchemaVersionV>,
    migs: Seq<MigrationV>,
    at1: u64,
    at2: u64,
)
    requires
        ledger_sorted(ledger),
        run_migrations(ledger, migs, at1).1 is None,
    ensures
        run_migrations(run_migrations(ledger, migs, at1).0, migs, at2) == (
            run_migrations(ledger, migs, at1).0,
            None::<u32>,
        ),
{
    lemma_run_succeeds_iff_ascending(ledger, migs, 0, at1);
    lemma_run_bounds(ledger, migs, 0, at1);
    lemma_run_skip_all(run_migrations(ledger, migs, at1).0, migs, 0, at2);
}

} // verus!
