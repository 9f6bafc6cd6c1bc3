//! The store facade: one value holding the schema ledger, the event log and
//! the snapshots, with append, read-range, snapshot and rebuild on top.

use vstd::prelude::*;

use crate::errors::StoreError;
use crate::event::{copy_bytes, Event, EventV, Snapshot, SnapshotV};
use crate::migrate::{
    ledger_highest, ledger_sorted, run_migrations, run_migrations_from, Migration, MigrationKind,
    MigrationV, SchemaVersion, SchemaVersionV,
};
use crate::replay::{
    fold_events, latest_snapshot_at_or_before, replay, target_sequence, Reducer,
};

verus! {

/// What a range read returns out of a stream's events: the events with
/// sequence `from ..= to` (to the end of the stream when `to` is absent or
/// passes it), in ascending sequence order; empty when the range is empty.
pub open spec fn range_view(events: Seq<EventV>, from: u64, to: Option<u64>) -> Seq<EventV> {
    let lo = if from as int >= 1 {
        from as int - 1
    } else {
        0int
    };
    let hi = target_sequence(to, events.len()) as int;
    if lo <= hi {
        events.subrange(lo, hi)
    } else {
        Seq::<EventV>::empty()
    }
}

/// One stream: a named, ordered sequence of events, with its snapshots.
pub struct StreamEntry {
    /// The stream identifier.
    pub id: String,
    /// The events of the stream; the event at index `j` has sequence `j + 1`.
    pub events: Vec<Event>,
    /// Snapshots of the stream, by strictly ascending sequence.
    pub snapshots: Vec<Snapshot>,
}

impl StreamEntry {
    /// The events of the stream as mathematical values.
    pub open spec fn events_view(self) -> Seq<EventV> {
        self.events@.map_values(|e: Event| e@)
    }

    /// The snapshots of the stream as mathematical values.
    pub open spec fn snaps_view(self) -> Seq<SnapshotV> {
        self.snapshots@.map_values(|s: Snapshot| s@)
    }

    /// The stream invariant: every event names the stream and sits at the
    /// index its sequence says (gapless, strictly increasing from 1); every
    /// snapshot names the stream, covers at least one event and no more
    /// than there are, and snapshots come in strictly ascending sequence.
    pub open spec fn wf(self) -> bool {
        &&& forall|j: int|
            0 <= j < self.events@.len() ==> (#[trigger] self.events@[j]).stream_id@ == self.id@
                && self.events@[j].sequence as int == j + 1
        &&& forall|j: int|
            0 <= j < self.snapshots@.len() ==> (#[trigger] self.snapshots@[j]).stream_id@
                == self.id@ && 1 <= self.snapshots@[j].sequence && self.snapshots@[j].sequence
                as int <= self.events@.len()
        &&& forall|j: int, k: int|
            0 <= j < k < self.snapshots@.len() ==> self.snapshots@[j].sequence
                < self.snapshots@[k].sequence
    }
}

/// The event store. The migrator must have run to completion (`migrated`)
/// before any log or snapshot operation is permitted.
pub struct EventStore {
    /// The streams, with pairwise distinct identifiers.
    pub streams: Vec<StreamEntry>,
    /// The applied-migration ledger, by strictly ascending version.
    pub ledger: Vec<SchemaVersion>,
    /// Whether a migration run has completed successfully.
    pub migrated: bool,
}

impl EventStore {
    /// The ledger as mathematical values.
    pub open spec fn ledger_view(self) -> Seq<SchemaVersionV> {
        self.ledger@.map_values(|s: SchemaVersion| s@)
    }

    /// The store invariant.
    pub open spec fn wf(self) -> bool {
        &&& forall|i: int| 0 <= i < self.streams@.len() ==> (#[trigger] self.streams@[i]).wf()
        &&& forall|i: int, j: int|
            0 <= i < j < self.streams@.len() ==> self.streams@[i].id@ != self.streams@[j].id@
        &&& ledger_sorted(self.ledger_view())
    }

    /// Whether some stream carries the identifier `id`.
    pub open spec fn has_stream(self, id: Seq<char>) -> bool {
        exists|i: int| 0 <= i < self.streams@.len() && (#[trigger] self.streams@[i]).id@ == id
    }

    /// The index of the stream with identifier `id` (meaningful only when
    /// `has_stream(id)`; unique under `wf`).
    pub open spec fn stream_index(self, id: Seq<char>) -> int {
        choose|i: int| 0 <= i < self.streams@.len() && (#[trigger] self.streams@[i]).id@ == id
    }

    /// The events of stream `id`, or the empty sequence if it has never
    /// received one.
    pub open spec fn stream_view(self, id: Seq<char>) -> Seq<EventV> {
        if self.has_stream(id) {
            self.streams@[self.stream_index(id)].events_view()
        } else {
            Seq::<EventV>::empty()
        }
    }

    /// The snapshots of stream `id`, or the empty sequence.
    pub open spec fn snaps_view(self, id: Seq<char>) -> Seq<SnapshotV> {
        if self.has_stream(id) {
            self.streams@[self.stream_index(id)].snaps_view()
        } else {
            Seq::<SnapshotV>::empty()
        }
    }

    /// The sequence of the newest event of stream `id`; 0 when the stream
    /// is absent or empty.
    pub open spec fn latest_sequence_spec(self, id: Seq<char>) -> nat {
        self.stream_view(id).len()
    }

    /// The optimistic-concurrency check: an append presenting
    /// `expected_sequence` is allowed exactly when that is the next free
    /// sequence of the stream.
    pub open spec fn can_append(self, id: Seq<char>, expected_sequence: u64) -> bool {
        &&& expected_sequence >= 1
        &&& self.latest_sequence_spec(id) == expected_sequence - 1
    }

    /// Under distinct identifiers, `stream_index` recovers each index.
    pub proof fn lemma_stream_index(self, i: int)
        requires
            0 <= i < self.streams@.len(),
            forall|p: int, q: int|
                0 <= p < q < self.streams@.len() ==> self.streams@[p].id@ != self.streams@[q].id@,
        ensures
            self.has_stream(self.streams@[i].id@),
            self.stream_index(self.streams@[i].id@) == i,
    {
        assert(self.has_stream(self.streams@[i].id@));
        let j = self.stream_index(self.streams@[i].id@);
        if j < i {
            assert(self.streams@[j].id@ != self.streams@[i].id@);
        } else if i < j {
            assert(self.streams@[i].id@ != self.streams@[j].id@);
        }
    }

    /// A fresh store: no streams, an empty ledger, not yet migrated.
    pub fn new() -> (s: EventStore)
        ensures
            s.wf(),
            !s.migrated,
            s.streams@.len() == 0,
            s.ledger_view() == Seq::<SchemaVersionV>::empty(),
            forall|x: Seq<char>| !s.has_stream(x),
    {
        let s = EventStore { streams: Vec::new(), ledger: Vec::new(), migrated: false };
        proof {
            assert(s.ledger_view() =~= Seq::<SchemaVersionV>::empty());
        }
        s
    }

    /// Looks the stream up by identifier.
    fn find_stream(&self, stream_id: &String) -> (r: Option<usize>)
        requires
            self.wf(),
        ensures
            match r {
                Some(i) => {
                    &&& i < self.streams@.len()
                    &&& self.streams@[i as int].id@ == stream_id@
                    &&& self.has_stream(stream_id@)
                    &&& self.stream_index(stream_id@) == i as int
                },
                None => !self.has_stream(stream_id@),
            },
    {
        let mut i: usize = 0;
        while i < self.streams.len()
            invariant
                i <= self.streams@.len(),
                forall|j: int| 0 <= j < i ==> (#[trigger] self.streams@[j]).id@ != stream_id@,
                self.wf(),
            decreases self.streams@.len() - i,
        {
            if self.streams[i].id == *stream_id {
                proof {
                    self.lemma_stream_index(i as int);
                }
                return Some(i);
            }
            i = i + 1;
        }
        proof {
            if self.has_stream(stream_id@) {
                let w = choose|w: int|
                    0 <= w < self.streams@.len() && (#[trigger] self.streams@[w]).id@
                        == stream_id@;
                assert(self.streams@[w].id@ != stream_id@);
            }
        }
        None
    }

    /// When one entry changes but keeps its identifier, every other stream
    /// reads the same as before, and stream lookup is unmoved.
    proof fn lemma_entry_update(pre: EventStore, post: EventStore, i: int)
        requires
            pre.wf(),
            0 <= i < pre.streams@.len(),
            post.streams@.len() == pre.streams@.len(),
            forall|j: int|
                0 <= j < pre.streams@.len() && j != i ==> post.streams@[j] == pre.streams@[j],
            post.streams@[i].id@ == pre.streams@[i].id@,
        ensures
            forall|x: Seq<char>| #[trigger] post.has_stream(x) <==> pre.has_stream(x),
            forall|x: Seq<char>|
                x != pre.streams@[i].id@ ==> #[trigger] post.stream_view(x) == pre.stream_view(x)
                    && post.snaps_view(x) == pre.snaps_view(x),
            pre.stream_index(pre.streams@[i].id@) == i,
            post.stream_index(pre.streams@[i].id@) == i,
            forall|p: int, q: int|
                0 <= p < q < post.streams@.len() ==> post.streams@[p].id@ != post.streams@[q].id@,
    {
        let id = pre.streams@[i].id@;
        assert forall|j: int| 0 <= j < post.streams@.len() implies (#[trigger] post.streams@[j]).id@
            == pre.streams@[j].id@ by {
            if j != i {
                assert(post.streams@[j] == pre.streams@[j]);
            }
        }
        assert forall|p: int, q: int| 0 <= p < q < post.streams@.len() implies post.streams@[p].id@
            != post.streams@[q].id@ by {
            assert(pre.streams@[p].id@ != pre.streams@[q].id@);
        }
        pre.lemma_stream_index(i);
        post.lemma_stream_index(i);
        assert forall|x: Seq<char>| #[trigger] post.has_stream(x) <==> pre.has_stream(x) by {
            if post.has_stream(x) {
                let w = post.stream_index(x);
                assert(post.streams@[w].id@ == x);
                assert(pre.streams@[w].id@ == x);
            }
            if pre.has_stream(x) {
                let w = pre.stream_index(x);
                assert(pre.streams@[w].id@ == x);
                assert(post.streams@[w].id@ == x);
            }
        }
        assert forall|x: Seq<char>| x != id implies #[trigger] post.stream_view(x)
            == pre.stream_view(x) && post.snaps_view(x) == pre.snaps_view(x) by {
            if pre.has_stream(x) {
                let w = pre.stream_index(x);
                assert(0 <= w < pre.streams@.len() && pre.streams@[w].id@ == x);
                assert(w != i);
                post.lemma_stream_index(w);
                assert(post.stream_index(x) == w);
                assert(post.streams@[w] == pre.streams@[w]);
            }
        }
    }

    /// When a new stream is added at the end, every existing stream reads
    /// the same as before, and the new identifier becomes present.
    proof fn lemma_entry_push(pre: EventStore, post: EventStore)
        requires
            pre.wf(),
            post.streams@.len() == pre.streams@.len() + 1,
            forall|j: int| 0 <= j < pre.streams@.len() ==> post.streams@[j] == pre.streams@[j],
            !pre.has_stream(post.streams@[pre.streams@.len() as int].id@),
        ensures
            forall|x: Seq<char>|
                x != post.streams@[pre.streams@.len() as int].id@ ==> ((#[trigger] post.has_stream(
                    x,
                ) <==> pre.has_stream(x)) && post.stream_view(x) == pre.stream_view(x)
                    && post.snaps_view(x) == pre.snaps_view(x)),
            post.has_stream(post.streams@[pre.streams@.len() as int].id@),
            post.stream_index(post.streams@[pre.streams@.len() as int].id@) == pre.streams@.len(),
            !pre.has_stream(post.streams@[pre.streams@.len() as int].id@),
            forall|p: int, q: int|
                0 <= p < q < post.streams@.len() ==> post.streams@[p].id@ != post.streams@[q].id@,
    {
        let n = pre.streams@.len() as int;
        let id = post.streams@[n].id@;
        assert forall|p: int, q: int| 0 <= p < q < post.streams@.len() implies post.streams@[p].id@
            != post.streams@[q].id@ by {
            if q < n {
                assert(pre.streams@[p].id@ != pre.streams@[q].id@);
            } else {
                assert(post.streams@[p] == pre.streams@[p]);
                assert(pre.has_stream(pre.streams@[p].id@));
            }
        }
        post.lemma_stream_index(n);
        assert forall|x: Seq<char>| x != id implies ((#[trigger] post.has_stream(x)
            <==> pre.has_stream(x)) && post.stream_view(x) == pre.stream_view(x)
            && post.snaps_view(x) == pre.snaps_view(x)) by {
            if post.has_stream(x) {
                let w = post.stream_index(x);
                assert(post.streams@[w].id@ == x);
                assert(w != n);
                assert(pre.streams@[w].id@ == x);
            }
            if pre.has_stream(x) {
                let w = pre.stream_index(x);
                assert(pre.streams@[w].id@ == x);
                assert(post.streams@[w].id@ == x);
                post.lemma_stream_index(w);
            }
        }
    }

    /// Appends one event under optimistic concurrency: the caller presents
    /// the sequence it believes is next. When `expected_sequence` is 1 and
    /// the stream has never existed, the stream is created. On a mismatch
    /// the call fails with `ConcurrencyConflict` and writes nothing.
    pub fn append(
        &mut self,
        stream_id: &String,
        expected_sequence: u64,
        event_type: String,
        payload: Vec<u8>,
        recorded_at: u64,
    ) -> (r: Result<u64, StoreError>)
        requires
            old(self).wf(),
            old(self).migrated,
        ensures
            final(self).wf(),
            final(self).migrated,
            final(self).ledger_view() == old(self).ledger_view(),
            match r {
                Ok(seq) => {
                    &&& old(self).can_append(stream_id@, expected_sequence)
                    &&& seq == expected_sequence
                    &&& final(self).has_stream(stream_id@)
                    &&& final(self).stream_view(stream_id@) == old(self).stream_view(
                        stream_id@,
                    ).push(
                        (EventV {
                            stream_id: stream_id@,
                            sequence: expected_sequence,
                            event_type: event_type@,
                            payload: payload@,
                            recorded_at: recorded_at,
                        }),
                    )
                    &&& final(self).snaps_view(stream_id@) == old(self).snaps_view(stream_id@)
                    &&& forall|x: Seq<char>|
                        x != stream_id@ ==> ((#[trigger] final(self).has_stream(x) <==> old(
                            self,
                        ).has_stream(x)) && final(self).stream_view(x) == old(self).stream_view(x)
                            && final(self).snaps_view(x) == old(self).snaps_view(x))
                },
                Err(e) => {
                    &&& e == StoreError::ConcurrencyConflict
                    &&& !old(self).can_append(stream_id@, expected_sequence)
                    &&& *final(self) == *old(self)
                },
            },
    {
        let ghost ev = EventV {
            stream_id: stream_id@,
            sequence: expected_sequence,
            event_type: event_type@,
            payload: payload@,
            recorded_at: recorded_at,
        };
        match self.find_stream(stream_id) {
            Some(i) => {
                let n = self.streams[i].events.len();
                if expected_sequence >= 1 && expected_sequence - 1 == n as u64 {
                    let ghost pre = *self;
                    let event = Event {
                        stream_id: stream_id.clone(),
                        sequence: expected_sequence,
                        event_type: event_type,
                        payload: payload,
                        recorded_at: recorded_at,
                    };
                    proof {
                        assert(event@ == ev);
                    }
                    self.streams[i].events.push(event);
                    proof {
                        Self::lemma_entry_update(pre, *self, i as int);
                        assert(self.streams@[i as int].events_view() =~= pre.streams@[
                            i as int].events_view().push(ev));
                        assert(self.streams@[i as int].snaps_view() =~= pre.streams@[
                            i as int].snaps_view());
                        assert(self.streams@[i as int].wf());
                        assert(self.ledger_view() =~= pre.ledger_view());
                    }
                    Ok(expected_sequence)
                } else {
                    Err(StoreError::ConcurrencyConflict)
                }
            },
            None => {
                if expected_sequence == 1 {
                    let ghost pre = *self;
                    let event = Event {
                        stream_id: stream_id.clone(),
                        sequence: 1,
                        event_type: event_type,
                        payload: payload,
                        recorded_at: recorded_at,
                    };
                    proof {
                        assert(event@ == ev);
                    }
                    let mut events: Vec<Event> = Vec::new();
                    events.push(event);
                    let entry = StreamEntry {
                        id: stream_id.clone(),
                        events: events,
                        snapshots: Vec::new(),
                    };
                    self.streams.push(entry);
                    proof {
                        Self::lemma_entry_push(pre, *self);
                        let n = pre.streams@.len() as int;
                        assert(self.streams@[n].events_view() =~= Seq::<EventV>::empty().push(ev));
                        assert(self.streams@[n].snaps_view() =~= Seq::<SnapshotV>::empty());
                        assert(self.streams@[n].wf());
                        assert(self.stream_view(stream_id@) == pre.stream_view(stream_id@).push(
                            ev,
                        ));
                        assert(self.ledger_view() =~= pre.ledger_view());
                    }
                    Ok(1)
                } else {
                    Err(StoreError::ConcurrencyConflict)
                }
            },
        }
    }

    /// The sequence of the newest event of the stream, or `None` when the
    /// stream has never received one.
    pub fn latest_sequence(&self, stream_id: &String) -> (r: Option<u64>)
        requires
            self.wf(),
            self.migrated,
        ensures
            match r {
                Some(n) => self.has_stream(stream_id@) && n as nat == self.latest_sequence_spec(
                    stream_id@,
                ),
                None => !self.has_stream(stream_id@),
            },
    {
        match self.find_stream(stream_id) {
            Some(i) => Some(self.streams[i].events.len() as u64),
            None => None,
        }
    }

    /// Reads the events with sequence `from_sequence ..= to_sequence` (to
    /// the end of the stream when `to_sequence` is absent or passes it), in
    /// ascending sequence order. A fresh call re-reads from the store.
    /// Fails with `NotFound` only when the stream has never existed — an
    /// empty range on an existing stream is `Ok`.
    pub fn read_range(
        &self,
        stream_id: &String,
        from_sequence: u64,
        to_sequence: Option<u64>,
    ) -> (r: Result<Vec<Event>, StoreError>)
        requires
            self.wf(),
            self.migrated,
        ensures
            match r {
                Ok(events) => self.has_stream(stream_id@) && events@.map_values(|e: Event| e@)
                    == range_view(self.stream_view(stream_id@), from_sequence, to_sequence),
                Err(e) => e == StoreError::NotFound && !self.has_stream(stream_id@),
            },
    {
        let i = match self.find_stream(stream_id) {
            Some(i) => i,
            None => {
                return Err(StoreError::NotFound);
            },
        };
        let ghost evs = self.stream_view(stream_id@);
        let n: usize = self.streams[i].events.len();
        let hi: u64 = match to_sequence {
            Some(t) => if t <= n as u64 {
                t
            } else {
                n as u64
            },
            None => n as u64,
        };
        let lo: u64 = if from_sequence >= 1 {
            from_sequence - 1
        } else {
            0
        };
        let mut out: Vec<Event> = Vec::new();
        if lo >= hi {
            proof {
                assert(out@.map_values(|e: Event| e@) =~= Seq::<EventV>::empty());
                if lo as int <= hi as int {
                    assert(evs.subrange(lo as int, hi as int) =~= Seq::<EventV>::empty());
                }
            }
            return Ok(out);
        }
        let mut k: usize = lo as usize;
        proof {
            assert(out@.map_values(|e: Event| e@) =~= evs.subrange(lo as int, k as int));
        }
        while k < hi as usize
            invariant
                self.wf(),
                self.has_stream(stream_id@),
                self.stream_index(stream_id@) == i as int,
                i < self.streams@.len(),
                evs == self.stream_view(stream_id@),
                lo < hi,
                evs.len() == self.streams@[i as int].events@.len(),
                hi as int <= evs.len(),
                lo as int <= k as int <= hi as int,
                out@.map_values(|e: Event| e@) == evs.subrange(lo as int, k as int),
            decreases hi as int - k as int,
        {
            let ghost before = out@;
            out.push(self.streams[i].events[k].clone());
            proof {
                assert((k as int) < evs.len());
                assert(evs[k as int] == self.streams@[i as int].events@[k as int]@);
                assert(out@.map_values(|e: Event| e@) =~= before.map_values(|e: Event| e@).push(
                    evs[k as int],
                ));
                assert(evs.subrange(lo as int, k as int + 1) =~= evs.subrange(
                    lo as int,
                    k as int,
                ).push(evs[k as int]));
            }
            k = k + 1;
        }
        Ok(out)
    }

    /// The snapshot with the highest sequence for the stream, or `None`
    /// when the stream is absent or has no snapshot.
    pub fn latest_snapshot(&self, stream_id: &String) -> (r: Option<Snapshot>)
        requires
            self.wf(),
            self.migrated,
        ensures
            match r {
                Some(s) => {
                    &&& self.has_stream(stream_id@)
                    &&& self.snaps_view(stream_id@).len() > 0
                    &&& s@ == self.snaps_view(stream_id@).last()
                    &&& forall|j: int|
                        0 <= j < self.snaps_view(stream_id@).len()
                            ==> (#[trigger] self.snaps_view(stream_id@)[j]).sequence <= s@.sequence
                },
                None => !self.has_stream(stream_id@) || self.snaps_view(stream_id@).len() == 0,
            },
    {
        let i = match self.find_stream(stream_id) {
            Some(i) => i,
            None => {
                return None;
            },
        };
        let m: usize = self.streams[i].snapshots.len();
        if m == 0 {
            return None;
        }
        let s = self.streams[i].snapshots[m - 1].clone();
        proof {
            let snaps = self.snaps_view(stream_id@);
            assert(s@ == snaps.last());
            assert forall|j: int| 0 <= j < snaps.len() implies (#[trigger] snaps[j]).sequence
                <= s@.sequence by {
                if j < snaps.len() - 1 {
                    assert(self.streams@[i as int].snapshots@[j].sequence < self.streams@[
                        i as int].snapshots@[snaps.len() - 1].sequence);
                }
            }
        }
        Some(s)
    }

    /// Stores a snapshot of the stream at `sequence`. A no-op (`Ok(false)`)
    /// when a snapshot at the same or a higher sequence already exists —
    /// snapshots never move backward — or when `sequence` does not name an
    /// appended event (0, or past the newest event).
    pub fn save_snapshot(
        &mut self,
        stream_id: &String,
        sequence: u64,
        state_blob: Vec<u8>,
        schema_version: u32,
    ) -> (r: Result<bool, StoreError>)
        requires
            old(self).wf(),
            old(self).migrated,
        ensures
            final(self).wf(),
            final(self).migrated,
            final(self).ledger_view() == old(self).ledger_view(),
            match r {
                Ok(saved) => {
                    &&& old(self).has_stream(stream_id@)
                    &&& (saved <==> (1 <= sequence && sequence as nat <= old(
                        self,
                    ).latest_sequence_spec(stream_id@) && (old(self).snaps_view(stream_id@).len()
                        == 0 || old(self).snaps_view(stream_id@).last().sequence < sequence)))
                    &&& if saved {
                        &&& final(self).snaps_view(stream_id@) == old(self).snaps_view(
                            stream_id@,
                        ).push(
                            (SnapshotV {
                                stream_id: stream_id@,
                                sequence: sequence,
                                state_blob: state_blob@,
                                schema_version: schema_version,
                            }),
                        )
                        &&& final(self).stream_view(stream_id@) == old(self).stream_view(
                            stream_id@,
                        )
                        &&& final(self).has_stream(stream_id@)
                        &&& forall|x: Seq<char>|
                            x != stream_id@ ==> ((#[trigger] final(self).has_stream(x) <==> old(
                                self,
                            ).has_stream(x)) && final(self).stream_view(x) == old(
                                self,
                            ).stream_view(x) && final(self).snaps_view(x) == old(self).snaps_view(
                                x,
                            ))
                    } else {
                        *final(self) == *old(self)
                    }
                },
                Err(e) => {
                    &&& e == StoreError::NotFound
                    &&& !old(self).has_stream(stream_id@)
                    &&& *final(self) == *old(self)
                },
            },
    {
        let i = match self.find_stream(stream_id) {
            Some(i) => i,
            None => {
                return Err(StoreError::NotFound);
            },
        };
        let n = self.streams[i].events.len();
        if sequence < 1 || sequence > n as u64 {
            return Ok(false);
        }
        let m = self.streams[i].snapshots.len();
        if m > 0 && self.streams[i].snapshots[m - 1].sequence >= sequence {
            return Ok(false);
        }
        let ghost pre = *self;
        let snap = Snapshot {
            stream_id: stream_id.clone(),
            sequence: sequence,
            state_blob: state_blob,
            schema_version: schema_version,
        };
        self.streams[i].snapshots.push(snap);
        proof {
            Self::lemma_entry_update(pre, *self, i as int);
            assert(self.streams@[i as int].snaps_view() =~= pre.streams@[
                i as int].snaps_view().push(
                SnapshotV {
                    stream_id: stream_id@,
                    sequence: sequence,
                    state_blob: state_blob@,
                    schema_version: schema_version,
                },
            ));
            assert(self.streams@[i as int].events_view() =~= pre.streams@[
                i as int].events_view());
            assert forall|j: int, k: int|
                0 <= j < k < self.streams@[i as int].snapshots@.len() implies self.streams@[
                i as int].snapshots@[j].sequence < self.streams@[i as int].snapshots@[
                k as int].sequence by {
                if k < pre.streams@[i as int].snapshots@.len() {
                } else {
                    assert(pre.streams@[i as int].snapshots@[j].sequence <= pre.streams@[
                        i as int].snapshots@[pre.streams@[i as int].snapshots@.len() - 1].sequence);
                }
            }
            assert(self.streams@[i as int].wf());
            assert(self.ledger_view() =~= pre.ledger_view());
        }
        Ok(true)
    }

    /// Reconstructs the state of a stream by deterministic replay: starts
    /// from the latest snapshot at or before the target sequence (or from
    /// the reducer's zero state when none qualifies) and folds the events
    /// after it, in ascending sequence order, up to `up_to` (the newest
    /// event when absent or past the end). Fails with `Replay` when the
    /// reducer rejects an event: the partial fold is discarded.
    pub fn rebuild<R: Reducer>(&self, stream_id: &String, reducer: &R, up_to: Option<u64>) -> (r:
        Result<Vec<u8>, StoreError>)
        requires
            self.wf(),
            self.migrated,
        ensures
            ({
                let evs = self.stream_view(stream_id@);
                let snaps = self.snaps_view(stream_id@);
                let target = target_sequence(up_to, evs.len());
                match r {
                    Ok(state) => self.has_stream(stream_id@) && Some(state@) == replay(
                        reducer,
                        evs,
                        snaps,
                        target,
                    ),
                    Err(e) => match e {
                        StoreError::NotFound => !self.has_stream(stream_id@),
                        StoreError::Replay => self.has_stream(stream_id@) && replay(
                            reducer,
                            evs,
                            snaps,
                            target,
                        ) is None,
                        _ => false,
                    },
                }
            }),
    {
        let i = match self.find_stream(stream_id) {
            Some(i) => i,
            None => {
                return Err(StoreError::NotFound);
            },
        };
        let ghost evs = self.stream_view(stream_id@);
        let ghost snapsv = self.snaps_view(stream_id@);
        let n: usize = self.streams[i].events.len();
        let t: u64 = match up_to {
            Some(u) => if u <= n as u64 {
                u
            } else {
                n as u64
            },
            None => n as u64,
        };
        let ghost target = target_sequence(up_to, evs.len());
        proof {
            assert(evs.len() == self.streams@[i as int].events@.len());
            assert(t as nat == target);
        }
        let mut j: usize = self.streams[i].snapshots.len();
        proof {
            assert(snapsv.len() == self.streams@[i as int].snapshots@.len());
            assert(snapsv.subrange(0, j as int) =~= snapsv);
        }
        while j > 0 && self.streams[i].snapshots[j - 1].sequence > t
            invariant
                self.wf(),
                i < self.streams@.len(),
                self.has_stream(stream_id@),
                self.stream_index(stream_id@) == i as int,
                snapsv == self.snaps_view(stream_id@),
                snapsv.len() == self.streams@[i as int].snapshots@.len(),
                j <= snapsv.len(),
                t as nat == target,
                latest_snapshot_at_or_before(snapsv, target) == latest_snapshot_at_or_before(
                    snapsv.subrange(0, j as int),
                    target,
                ),
            decreases j,
        {
            proof {
                let prefix = snapsv.subrange(0, j as int);
                assert(prefix.last() == snapsv[j as int - 1]);
                assert(snapsv[j as int - 1] == self.streams@[i as int].snapshots@[j as int - 1]@);
                assert(prefix.drop_last() =~= snapsv.subrange(0, j as int - 1));
            }
            j = j - 1;
        }
        let mut state: Vec<u8>;
        let mut k: usize;
        if j == 0 {
            proof {
                assert(snapsv.subrange(0, 0) =~= Seq::<SnapshotV>::empty());
            }
            state = reducer.init();
            k = 0;
        } else {
            proof {
                let prefix = snapsv.subrange(0, j as int);
                assert(prefix.last() == snapsv[j as int - 1]);
                assert(snapsv[j as int - 1] == self.streams@[i as int].snapshots@[j as int - 1]@);
                assert(self.streams@[i as int].snapshots@[j as int - 1].sequence as int
                    <= self.streams@[i as int].events@.len());
            }
            state = copy_bytes(&self.streams[i].snapshots[j - 1].state_blob);
            k = self.streams[i].snapshots[j - 1].sequence as usize;
        }
        proof {
            assert(replay(reducer, evs, snapsv, target) == fold_events(
                reducer,
                state@,
                evs.subrange(k as int, target as int),
            ));
        }
        let t_idx: usize = t as usize;
        while k < t_idx
            invariant
                self.wf(),
                i < self.streams@.len(),
                self.has_stream(stream_id@),
                self.stream_index(stream_id@) == i as int,
                evs == self.stream_view(stream_id@),
                snapsv == self.snaps_view(stream_id@),
                evs.len() == self.streams@[i as int].events@.len(),
                target == target_sequence(up_to, evs.len()),
                t as nat == target,
                t_idx as int == t as int,
                k as int <= target as int,
                target <= evs.len(),
                replay(reducer, evs, snapsv, target) == fold_events(
                    reducer,
                    state@,
                    evs.subrange(k as int, target as int),
                ),
            decreases t_idx - k,
        {
            proof {
                let rem = evs.subrange(k as int, target as int);
                assert(rem[0] == evs[k as int]);
                assert(evs[k as int] == self.streams@[i as int].events@[k as int]@);
                assert(rem.drop_first() =~= evs.subrange(k as int + 1, target as int));
            }
            match reducer.apply(&state, &self.streams[i].events[k]) {
                Some(next) => {
                    state = next;
                    k = k + 1;
                },
                None => {
                    proof {
                        let rem = evs.subrange(k as int, target as int);
                        assert(rem.len() > 0);
                        assert(reducer.apply_spec(state@, rem[0]) is None);
                        assert(fold_events(reducer, state@, rem) is None);
                    }
                    return Err(StoreError::Replay);
                },
            }
        }
        proof {
            assert(evs.subrange(k as int, target as int) =~= Seq::<EventV>::empty());
        }
        Ok(state)
    }

    /// Rebuilds the stream to its newest event and stores the result as a
    /// snapshot at that sequence, stamped with the current schema version.
    /// A no-op on the snapshots when one at the same sequence already exists
    /// (or the stream has no event yet). Returns the rebuilt sequence.
    pub fn snapshot_now<R: Reducer>(&mut self, stream_id: &String, reducer: &R) -> (r: Result<
        u64,
        StoreError,
    >)
        requires
            old(self).wf(),
            old(self).migrated,
        ensures
            final(self).wf(),
            final(self).migrated,
            final(self).ledger_view() == old(self).ledger_view(),
            ({
                let evs = old(self).stream_view(stream_id@);
                let snaps = old(self).snaps_view(stream_id@);
                let folded = replay(reducer, evs, snaps, evs.len());
                match r {
                    Ok(seq) => {
                        &&& old(self).has_stream(stream_id@)
                        &&& seq as nat == evs.len()
                        &&& folded is Some
                        &&& final(self).has_stream(stream_id@)
                        &&& final(self).stream_view(stream_id@) == evs
                        &&& forall|x: Seq<char>|
                            x != stream_id@ ==> ((#[trigger] final(self).has_stream(x) <==> old(
                                self,
                            ).has_stream(x)) && final(self).stream_view(x) == old(
                                self,
                            ).stream_view(x) && final(self).snaps_view(x) == old(self).snaps_view(
                                x,
                            ))
                        &&& if seq >= 1 && (snaps.len() == 0 || snaps.last().sequence < seq) {
                            final(self).snaps_view(stream_id@) == snaps.push(
                                (SnapshotV {
                                    stream_id: stream_id@,
                                    sequence: seq,
                                    state_blob: folded->Some_0,
                                    schema_version: ledger_highest(old(self).ledger_view()),
                                }),
                            )
                        } else {
                            final(self).snaps_view(stream_id@) == snaps
                        }
                    },
                    Err(e) => match e {
                        StoreError::NotFound => !old(self).has_stream(stream_id@) && *final(self)
                            == *old(self),
                        StoreError::Replay => old(self).has_stream(stream_id@) && folded is None
                            && *final(self) == *old(self),
                        _ => false,
                    },
                }
            }),
    {
        let state = match self.rebuild(stream_id, reducer, None) {
            Ok(s) => s,
            Err(e) => {
                return Err(e);
            },
        };
        let seq = match self.latest_sequence(stream_id) {
            Some(n) => n,
            None => {
                return Err(StoreError::NotFound);
            },
        };
        let high: u32 = if self.ledger.len() == 0 {
            0
        } else {
            self.ledger[self.ledger.len() - 1].version
        };
        proof {
            assert(high == ledger_highest(self.ledger_view()));
        }
        match self.save_snapshot(stream_id, seq, state, high) {
            Ok(_saved) => Ok(seq),
            Err(e) => Err(e),
        }
    }

    /// Runs the migrator: applies, in list order, every well-ordered forward
    /// entry whose version is not yet recorded, each recorded atomically;
    /// skips entries already recorded and rollback entries; stops at the
    /// first malformed entry, keeping everything recorded before it.
    /// On success the store is marked migrated and the highest recorded
    /// version is returned; on failure the store is left not migrated.
    pub fn migrate(&mut self, migrations: &Vec<Migration>, applied_at: u64) -> (r: Result<
        u32,
        StoreError,
    >)
        requires
            old(self).wf(),
        ensures
            final(self).wf(),
            final(self).streams@ == old(self).streams@,
            ({
                let run = run_migrations(
                    old(self).ledger_view(),
                    migrations@.map_values(|m: Migration| m@),
                    applied_at,
                );
                &&& final(self).ledger_view() == run.0
                &&& (match run.1 {
                    None => r == Ok::<u32, StoreError>(ledger_highest(run.0))
                        && final(self).migrated,
                    Some(v) => r == Err::<u32, StoreError>(StoreError::Migration(v))
                        && !final(self).migrated,
                })
            }),
    {
        self.migrated = false;
        let ghost pre = self.ledger_view();
        let ghost ms = migrations@.map_values(|m: Migration| m@);
        let mut prev: u32 = 0;
        let mut high: u32 = if self.ledger.len() == 0 {
            0
        } else {
            self.ledger[self.ledger.len() - 1].version
        };
        proof {
            assert(high == ledger_highest(self.ledger_view()));
            assert(ms.subrange(0int, ms.len() as int) =~= ms);
        }
        let mut i: usize = 0;
        while i < migrations.len()
            invariant
                i <= migrations@.len(),
                pre == old(self).ledger_view(),
                ms == migrations@.map_values(|m: Migration| m@),
                self.streams@ == old(self).streams@,
                old(self).wf(),
                !self.migrated,
                ledger_sorted(self.ledger_view()),
                high == ledger_highest(self.ledger_view()),
                run_migrations_from(pre, ms, 0, applied_at) == run_migrations_from(
                    self.ledger_view(),
                    ms.subrange(i as int, ms.len() as int),
                    prev,
                    applied_at,
                ),
            decreases migrations@.len() - i,
        {
            let m = &migrations[i];
            proof {
                let rest = ms.subrange(i as int, ms.len() as int);
                assert(rest[0] == ms[i as int]);
                assert(ms[i as int] == migrations@[i as int]@);
                assert(rest.drop_first() =~= ms.subrange(i as int + 1, ms.len() as int));
            }
            if m.version <= prev {
                proof {
                    let rest = ms.subrange(i as int, ms.len() as int);
                    assert(rest.len() != 0);
                    assert(run_migrations_from(self.ledger_view(), rest, prev, applied_at) == (
                        self.ledger_view(),
                        Some(m.version),
                    ));
                }
                return Err(StoreError::Migration(m.version));
            }
            let is_down = m.kind == MigrationKind::Down;
            if !(is_down || m.version <= high) {
                let ghost before = self.ledger_view();
                let rec = SchemaVersion {
                    version: m.version,
                    description: m.description.clone(),
                    applied_at: applied_at,
                };
                self.ledger.push(rec);
                proof {
                    assert(self.ledger_view() =~= before.push(rec@));
                    assert forall|p: int, q: int|
                        0 <= p < q < self.ledger_view().len() implies self.ledger_view()[p].version
                        < self.ledger_view()[q].version by {
                        if q < before.len() {
                        } else if before.len() > 0 {
                            assert(before[p].version <= before.last().version);
                        }
                    }
                }
                high = m.version;
            }
            prev = m.version;
            i = i + 1;
        }
        proof {
            assert(ms.subrange(i as int, ms.len() as int) =~= Seq::<MigrationV>::empty());
        }
        self.migrated = true;
        Ok(high)
    }
}

} // verus!
