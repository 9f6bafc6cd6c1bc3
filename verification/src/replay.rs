//! The replay engine: folds events (optionally starting from a snapshot)
//! into a materialized state value using a caller-supplied pure reducer.

use vstd::prelude::*;

use crate::event::{Event, EventV, SnapshotV};

verus! {

/// A pure fold step supplied by game logic, one implementation per
/// entity type. The store only invokes it during replay.
///
/// `apply_spec` is the mathematical meaning of one step; `apply` must
/// compute exactly it, which makes every reducer deterministic: replaying
/// the same events from the same state always yields the same result.
/// `None` means the reducer rejects the event.
pub trait Reducer: Sized {
    /// The zero state a fold starts from when no snapshot applies.
    spec fn init_spec(&self) -> Seq<u8>;

    /// The meaning of folding one event into a state.
    spec fn apply_spec(&self, state: Seq<u8>, event: EventV) -> Option<Seq<u8>>;

    /// Produces the zero state.
    fn init(&self) -> (r: Vec<u8>)
        ensures
            r@ == self.init_spec(),
    ;

    /// Folds one event into a state, or rejects the event.
    fn apply(&self, state: &Vec<u8>, event: &Event) -> (r: Option<Vec<u8>>)
        ensures
            match r {
                Some(next) => self.apply_spec(state@, event@) == Some(next@),
                None => self.apply_spec(state@, event@) is None,
            },
    ;
}

/// Folds `events` through the reducer, left to right, starting at `init`.
/// `None` as soon as the reducer rejects an event: the partial fold is
/// discarded, never observed.
pub open spec fn fold_events<R: Reducer>(r: &R, init: Seq<u8>, events: Seq<EventV>) -> Option<
    Seq<u8>,
>
    decreases events.len(),
{
    if events.len() == 0 {
        Some(init)
    } else {
        match r.apply_spec(init, events[0]) {
            Some(next) => fold_events(r, next, events.drop_first()),
            None => None::<Seq<u8>>,
        }
    }
}

/// Folding a concatenation folds the first part, then the second from
/// wherever the first part ended.
pub proof fn lemma_fold_split<R: Reducer>(r: &R, init: Seq<u8>, a: Seq<EventV>, b: Seq<EventV>)
    ensures
        fold_events(r, init, a + b) == (match fold_events(r, init, a) {
            Some(mid) => fold_events(r, mid, b),
            None => None::<Seq<u8>>,
        }),
    decreases a.len(),
{
    if a.len() == 0 {
        assert(a + b =~= b);
    } else {
        assert((a + b)[0] == a[0]);
        assert((a + b).drop_first() =~= a.drop_first() + b);
        match r.apply_spec(init, a[0]) {
            Some(next) => {
                lemma_fold_split(r, next, a.drop_first(), b);
            },
            None => {},
        }
    }
}

/// The snapshot with the highest sequence not above `target`, out of a
/// list sorted by ascending sequence; `None` when no snapshot qualifies.
pub open spec fn latest_snapshot_at_or_before(snaps: Seq<SnapshotV>, target: nat) -> Option<
    SnapshotV,
>
    decreases snaps.len(),
{
    if snaps.len() == 0 {
        None::<SnapshotV>
    } else if snaps.last().sequence as nat <= target {
        Some(snaps.last())
    } else {
        latest_snapshot_at_or_before(snaps.drop_last(), target)
    }
}

/// Whatever snapshot the selection yields was in the list and observes
/// the target bound.
pub proof fn lemma_latest_snapshot_in(snaps: Seq<SnapshotV>, target: nat)
    ensures
        latest_snapshot_at_or_before(snaps, target) matches Some(s) ==> (exists|i: int|
            0 <= i < snaps.len() && snaps[i] == s) && s.sequence as nat <= target,
    decreases snaps.len(),
{
    if snaps.len() != 0 {
        if snaps.last().sequence as nat <= target {
            assert(snaps[snaps.len() - 1] == snaps.last());
        } else {
            lemma_latest_snapshot_in(snaps.drop_last(), target);
            if latest_snapshot_at_or_before(snaps.drop_last(), target) is Some {
                let s = latest_snapshot_at_or_before(snaps.drop_last(), target)->Some_0;
                let i = choose|i: int|
                    0 <= i < snaps.drop_last().len() && snaps.drop_last()[i] == s;
                assert(snaps[i] == s);
            }
        }
    }
}

/// The sequence a replay folds up to: the caller's bound when one is given
/// and it does not pass the end of the stream, the end of the stream
/// otherwise.
pub open spec fn target_sequence(up_to: Option<u64>, latest: nat) -> nat {
    match up_to {
        Some(u) => if u as nat <= latest {
            u as nat
        } else {
            latest
        },
        None => latest,
    }
}

/// What a rebuild computes: pick the latest snapshot at or before `target`;
/// start from its state and fold the events after it, or fold everything
/// from the reducer's zero state when no snapshot qualifies.
pub open spec fn replay<R: Reducer>(
    r: &R,
    events: Seq<EventV>,
    snaps: Seq<SnapshotV>,
    target: nat,
) -> Option<Seq<u8>> {
    match latest_snapshot_at_or_before(snaps, target) {
        Some(s) => fold_events(r, s.state_blob, events.subrange(s.sequence as int, target as int)),
        None => fold_events(r, r.init_spec(), events.subrange(0, target as int)),
    }
}

/// A snapshot is faithful to a stream (under a given reducer) when its state
/// is exactly the fold of the events it covers.
pub open spec fn snapshot_matches<R: Reducer>(r: &R, events: Seq<EventV>, s: SnapshotV) -> bool {
    &&& s.sequence as int <= events.len()
    &&& fold_events(r, r.init_spec(), events.subrange(0, s.sequence as int)) == Some(s.state_blob)
}

/// Every snapshot of the list is faithful to the stream.
pub open spec fn snapshots_consistent<R: Reducer>(
    r: &R,
    events: Seq<EventV>,
    snaps: Seq<SnapshotV>,
) -> bool {
    forall|i: int| 0 <= i < snaps.len() ==> snapshot_matches(r, events, #[trigger] snaps[i])
}

/// Snapshot transparency: as long as every snapshot is faithful, a replay
/// that starts from a snapshot yields exactly the fold of the whole prefix
/// from the reducer's zero state — snapshots are an optimization, never a
/// correctness requirement.
pub proof fn lemma_replay_transparent<R: Reducer>(
    r: &R,
    events: Seq<EventV>,
    snaps: Seq<SnapshotV>,
    target: nat,
)
    requires
        target <= events.len(),
        snapshots_consistent(r, events, snaps),
    ensures
        replay(r, events, snaps, target) == fold_events(
            r,
            r.init_spec(),
            events.subrange(0, target as int),
        ),
{
    lemma_latest_snapshot_in(snaps, target);
    match latest_snapshot_at_or_before(snaps, target) {
        Some(s) => {
            let cut = s.sequence as int;
            assert(snapshot_matches(r, events, s));
            assert(events.subrange(0, target as int) =~= events.subrange(0, cut)
                + events.subrange(cut, target as int));
            lemma_fold_split(
                r,
                r.init_spec(),
                events.subrange(0, cut),
                events.subrange(cut, target as int),
            );
        },
        None => {},
    }
}

} // verus!
