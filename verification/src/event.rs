//! Events and snapshots: the two kinds of record the store holds.

use vstd::prelude::*;

verus! {

/// One immutable domain event. Once appended it is never mutated or deleted.
pub struct Event {
    /// The stream this event belongs to.
    pub stream_id: String,
    /// Position inside the stream: gapless, strictly increasing from 1.
    pub sequence: u64,
    /// A string tag naming the kind of event.
    pub event_type: String,
    /// Versioned serialized payload bytes; opaque to the store.
    pub payload: Vec<u8>,
    /// Caller-supplied timestamp taken when the event was appended.
    pub recorded_at: u64,
}

/// The mathematical value of an [`Event`].
pub struct EventV {
    pub stream_id: Seq<char>,
    pub sequence: u64,
    pub event_type: Seq<char>,
    pub payload: Seq<u8>,
    pub recorded_at: u64,
}

impl View for Event {
    type V = EventV;

    open spec fn view(&self) -> EventV {
        EventV {
            stream_id: self.stream_id@,
            sequence: self.sequence,
            event_type: self.event_type@,
            payload: self.payload@,
            recorded_at: self.recorded_at,
        }
    }
}

/// A materialized checkpoint: the folded state of one stream as of `sequence`.
pub struct Snapshot {
    /// The stream this snapshot belongs to.
    pub stream_id: String,
    /// The snapshot covers exactly the events with sequence `1 ..= sequence`.
    pub sequence: u64,
    /// The folded state, serialized.
    pub state_blob: Vec<u8>,
    /// Schema version of the store when the snapshot was taken.
    pub schema_version: u32,
}

/// The mathematical value of a [`Snapshot`].
pub struct SnapshotV {
    pub stream_id: Seq<char>,
    pub sequence: u64,
    pub state_blob: Seq<u8>,
    pub schema_version: u32,
}

impl View for Snapshot {
    type V = SnapshotV;

    open spec fn view(&self) -> SnapshotV {
        SnapshotV {
            stream_id: self.stream_id@,
            sequence: self.sequence,
            state_blob: self.state_blob@,
            schema_version: self.schema_version,
        }
    }
}

/// Copies a byte vector. Written as a plain loop so that the copy is known,
/// element by element, to hold the same bytes.
pub fn copy_bytes(v: &Vec<u8>) -> (r: Vec<u8>)
    ensures
        r@ == v@,
{
    let mut r: Vec<u8> = Vec::new();
    let mut i: usize = 0;
    while i < v.len()
        invariant
            i <= v.len(),
            r@ == v@.subrange(0, i as int),
        decreases v.len() - i,
    {
        r.push(v[i]);
        i = i + 1;
        proof {
            assert(r@ =~= v@.subrange(0, i as int));
        }
    }
    proof {
        assert(r@ =~= v@);
    }
    r
}

impl Clone for Event {
    /// The copy has the same mathematical value as the original.
    fn clone(&self) -> (r: Event)
        ensures
            r@ == self@,
    {
        Event {
            stream_id: self.stream_id.clone(),
            sequence: self.sequence,
            event_type: self.event_type.clone(),
            payload: copy_bytes(&self.payload),
            recorded_at: self.recorded_at,
        }
    }
}

impl Clone for Snapshot {
    /// The copy has the same mathematical value as the original.
    fn clone(&self) -> (r: Snapshot)
        ensures
            r@ == self@,
    {
        Snapshot {
            stream_id: self.stream_id.clone(),
            sequence: self.sequence,
            state_blob: copy_bytes(&self.state_blob),
            schema_version: self.schema_version,
        }
    }
}

} // verus!
