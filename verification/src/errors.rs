//! The error taxonomy shared by every public store operation.

use vstd::prelude::*;

verus! {

/// Why a store operation did not produce a result.
///
/// - `Migration(v)` — applying the schema migration with version `v` failed;
///   the store must not be used for log or snapshot operations afterwards.
/// - `ConcurrencyConflict` — an optimistic append presented an
///   `expected_sequence` that is not the next free sequence of the stream;
///   nothing was written. The caller may re-read the latest sequence and retry.
/// - `NotFound` — the referenced stream has never received an event.
/// - `Replay` — the reducer rejected an event during replay; the partially
///   folded state was discarded and the log is untouched.
#[derive(Clone, Copy, Debug, PartialEq, Eq, Structural)]
pub enum StoreError {
    Migration(u32),
    ConcurrencyConflict,
    NotFound,
    Replay,
}

} // verus!
