//! The schema migrator: applies an ordered list of versioned schema changes
//! exactly once each, recording the versions it has applied.

use vstd::prelude::*;

use crate::errors::StoreError;

verus! {

/// Whether a migration moves the schema forward or rolls it back.
/// Only forward (`Up`) migrations are applied at startup; `Down` entries
/// are carried in the list for operator use and are skipped.
#[derive(Clone, Copy, Debug, PartialEq, Eq, Structural)]
pub enum MigrationKind {
    Up,
    Down,
}

/// One versioned schema change.
pub struct Migration {
    /// Target schema version; must be positive and strictly above every
    /// earlier entry of the list it stands in.
    pub version: u32,
    /// Human-readable summary of the change.
    pub description: String,
    /// The schema text to apply; opaque to the migrator.
    pub sql: String,
    /// Forward or rollback.
    pub kind: MigrationKind,
}

/// The mathematical value of a [`Migration`].
pub struct MigrationV {
    pub version: u32,
    pub description: Seq<char>,
    pub sql: Seq<char>,
    pub kind: MigrationKind,
}

impl View for Migration {
    type V = MigrationV;

    open spec fn view(&self) -> MigrationV {
        MigrationV {
            version: self.version,
            description: self.description@,
            sql: self.sql@,
            kind: self.kind,
        }
    }
}

/// One row of the applied-version ledger.
pub struct SchemaVersion {
    pub version: u32,
    pub description: String,
    pub applied_at: u64,
}

/// The mathematical value of a [`SchemaVersion`].
pub struct SchemaVersionV {
    pub version: u32,
    pub description: Seq<char>,
    pub applied_at: u64,
}

impl View for SchemaVersion {
    type V = SchemaVersionV;

    open spec fn view(&self) -> SchemaVersionV {
        SchemaVersionV {
            version: self.version,
            description: self.description@,
            applied_at: self.applied_at,
        }
    }
}

/// The ledger records versions in strictly increasing order: each version
/// was applied at most once, and later applications carry larger versions.
pub open spec fn ledger_sorted(l: Seq<SchemaVersionV>) -> bool {
    forall|i: int, j: int| 0 <= i < j < l.len() ==> l[i].version < l[j].version
}

/// The highest version the ledger records, or 0 for an empty ledger.
pub open spec fn ledger_highest(l: Seq<SchemaVersionV>) -> u32 {
    if l.len() == 0 {
        0u32
    } else {
        l.last().version
    }
}

/// What one run of the migrator does, entry by entry. `prev` is the version
/// of the previous list entry (0 before the first): an entry whose version
/// does not exceed it is malformed and stops the run. A well-ordered entry
/// is skipped when it is a rollback or its version is already recorded,
/// and applied (appended to the ledger) otherwise.
///
/// Returns the ledger after the run together with `None` on success or
/// `Some(v)` when the entry with version `v` failed; on failure the ledger
/// keeps everything committed before the failing entry.
pub open spec fn run_migrations_from(
    ledger: Seq<SchemaVersionV>,
    migs: Seq<MigrationV>,
    prev: u32,
    applied_at: u64,
) -> (Seq<SchemaVersionV>, Option<u32>)
    decreases migs.len(),
{
    if migs.len() == 0 {
        (ledger, None)
    } else {
        let m = migs[0];
        if m.version <= prev {
            (ledger, Some(m.version))
        } else if m.kind is Down || m.version <= ledger_highest(ledger) {
            run_migrations_from(ledger, migs.drop_first(), m.version, applied_at)
        } else {
            run_migrations_from(
                ledger.push(
                    SchemaVersionV {
                        version: m.version,
                        description: m.description,
                        applied_at: applied_at,
                    },
                ),
                migs.drop_first(),
                m.version,
                applied_at,
            )
        }
    }
}

/// One full run of the migrator over `migs`, starting before any entry.
pub open spec fn run_migrations(
    ledger: Seq<SchemaVersionV>,
    migs: Seq<MigrationV>,
    applied_at: u64,
) -> (Seq<SchemaVersionV>, Option<u32>) {
    run_migrations_from(ledger, migs, 0, applied_at)
}

/// Every entry's version strictly exceeds the one before it (and `prev`).
pub open spec fn list_ascending_from(migs: Seq<MigrationV>, prev: u32) -> bool
    decreases migs.len(),
{
    migs.len() == 0 || (migs[0].version > prev && list_ascending_from(
        migs.drop_first(),
        migs[0].version,
    ))
}

/// A run succeeds exactly when the list is well-ordered, whatever the ledger.
pub proof fn lemma_run_succeeds_iff_ascending(
    ledger: Seq<SchemaVersionV>,
    migs: Seq<MigrationV>,
    prev: u32,
    applied_at: u64,
)
    ensures
        run_migrations_from(ledger, migs, prev, applied_at).1 is None <==> list_ascending_from(
            migs,
            prev,
        ),
    decreases migs.len(),
{
    if migs.len() != 0 {
        let m = migs[0];
        if m.version <= prev {
        } else if m.kind is Down || m.version <= ledger_highest(ledger) {
            lemma_run_succeeds_iff_ascending(ledger, migs.drop_first(), m.version, applied_at);
        } else {
            lemma_run_succeeds_iff_ascending(
                ledger.push(
                    SchemaVersionV {
                        version: m.version,
                        description: m.description,
                        applied_at: applied_at,
                    },
                ),
                migs.drop_first(),
                m.version,
                applied_at,
            );
        }
    }
}

/// A successful run keeps the ledger sorted, never lowers the highest
/// recorded version, and leaves every forward entry of the list at or
/// below the highest recorded version.
pub proof fn lemma_run_bounds(
    ledger: Seq<SchemaVersionV>,
    migs: Seq<MigrationV>,
    prev: u32,
    applied_at: u64,
)
    requires
        ledger_sorted(ledger),
        run_migrations_from(ledger, migs, prev, applied_at).1 is None,
    ensures
        ledger_sorted(run_migrations_from(ledger, migs, prev, applied_at).0),
        ledger_highest(run_migrations_from(ledger, migs, prev, applied_at).0) >= ledger_highest(
            ledger,
        ),
        forall|k: int|
            0 <= k < migs.len() && (#[trigger] migs[k]).kind is Up ==> migs[k].version
                <= ledger_highest(run_migrations_from(ledger, migs, prev, applied_at).0),
    decreases migs.len(),
{
    if migs.len() != 0 {
        let m = migs[0];
        if m.kind is Down || m.version <= ledger_highest(ledger) {
            lemma_run_bounds(ledger, migs.drop_first(), m.version, applied_at);
            assert forall|k: int|
                0 <= k < migs.len() && (#[trigger] migs[k]).kind is Up implies migs[k].version
                <= ledger_highest(run_migrations_from(ledger, migs, prev, applied_at).0) by {
                if k > 0 {
                    assert(migs[k] == migs.drop_first()[k - 1]);
                }
            }
        } else {
            let pushed = ledger.push(
                SchemaVersionV {
                    version: m.version,
                    description: m.description,
                    applied_at: applied_at,
                },
            );
            assert forall|i: int, j: int| 0 <= i < j < pushed.len() implies pushed[i].version
                < pushed[j].version by {
                if j == pushed.len() - 1 && ledger.len() > 0 {
                    assert(ledger[i].version <= ledger.last().version);
                }
            }
            lemma_run_bounds(pushed, migs.drop_first(), m.version, applied_at);
            assert forall|k: int|
                0 <= k < migs.len() && (#[trigger] migs[k]).kind is Up implies migs[k].version
                <= ledger_highest(run_migrations_from(ledger, migs, prev, applied_at).0) by {
                if k > 0 {
                    assert(migs[k] == migs.drop_first()[k - 1]);
                }
            }
        }
    }
}

/// Re-running a list whose forward entries are all already recorded is a
/// no-op: the ledger comes back unchanged and the run succeeds.
pub proof fn lemma_run_skip_all(
    ledger: Seq<SchemaVersionV>,
    migs: Seq<MigrationV>,
    prev: u32,
    applied_at: u64,
)
    requires
        list_ascending_from(migs, prev),
        forall|k: int|
            0 <= k < migs.len() && (#[trigger] migs[k]).kind is Up ==> migs[k].version
                <= ledger_highest(ledger),
    ensures
        run_migrations_from(ledger, migs, prev, applied_at) == (ledger, None::<u32>),
    decreases migs.len(),
{
    if migs.len() != 0 {
        let m = migs[0];
        assert(m.kind is Up ==> m.version <= ledger_highest(ledger));
        assert forall|k: int|
            0 <= k < migs.drop_first().len() && (#[trigger] migs.drop_first()[k]).kind
                is Up implies migs.drop_first()[k].version <= ledger_highest(ledger) by {
            assert(migs.drop_first()[k] == migs[k + 1]);
        }
        lemma_run_skip_all(ledger, migs.drop_first(), m.version, applied_at);
    }
}

} // verus!
