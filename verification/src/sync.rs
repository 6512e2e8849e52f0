//! The rotation and sync orchestrator's verified core. A sync pass rotates
//! the active log aside, decodes the rotated content, redacts every record's
//! command text, inserts the records into the store one by one, and decides
//! what becomes of the rotated file:
//!
//! - no active log to rotate: the pass is a no-op success, not an error;
//! - the rotated file cannot be read: the rotation must be undone (the file
//!   renamed back) so the producer keeps its log and nothing is lost;
//! - every insert succeeded: the rotated file is deleted;
//! - any insert failed: the rotated file stays where it is, as the durable
//!   record of the unsynced data, and the pass reports counts.
//!
//! Renaming, reading and deleting files is the caller's (unverified) part;
//! everything between — decoding, redaction, insertion, accounting, and the
//! decision — happens here, against the store model.
use crate::codec::spec_log_malformed;
use crate::codec::CommandEntry;
use crate::codec::spec_log_records;
use crate::codec::RecView;
use crate::redact::redact_command;
use crate::redact::spec_redact;
use crate::store::Store;
use vstd::prelude::*;

verus! {

/// How many records one sync pass wrote and how many it failed to write
/// (malformed lines and failed inserts alike).
#[derive(Clone, Copy, PartialEq, Eq, Structural, Debug)]
pub struct SyncReport {
    pub synced: usize,
    pub failed: usize,
}

/// What one sync pass decided. `NothingToSync` is the caller's translation
/// of "no active log file"; `StreamFailure` orders the caller to rename the
/// rotated file back; `Processed` carries the counts and whether the
/// rotated file may be deleted.
pub enum SyncOutcome {
    NothingToSync,
    StreamFailure,
    Processed { report: SyncReport, delete_rotated: bool },
}

/// A record as it is persisted: the same fields, with the command text
/// redacted.
pub open spec fn redacted_rec(r: RecView) -> RecView {
    RecView { cmd: spec_redact(r.cmd), ..r }
}

/// Processes rotated log content handed over by the caller: `None` when the
/// rotated file could not be read at all (the stream failure of a sync
/// pass), `Some` its content. On a stream failure the store gains nothing
/// and the caller must restore the file. Otherwise every decoded record is
/// redacted and inserted; a failed insert is counted and the pass goes on.
/// The rotated file may be deleted exactly when every record was written.
pub fn sync_rotated(store: &mut Store, rotated: Option<&str>) -> (o: SyncOutcome)
    requires
        old(store).wf(),
    ensures
        final (store).wf(),
        match o {
            SyncOutcome::NothingToSync => false,
            SyncOutcome::StreamFailure => rotated is None && final (store).rows@ == old(
                store,
            ).rows@,
            SyncOutcome::Processed { report, delete_rotated } => {
                let content = rotated.unwrap()@;
                let recs = spec_log_records(content);
                let m = spec_log_malformed(content);
                &&& rotated is Some
                &&& report.synced <= recs.len()
                &&& report.synced + report.failed == recs.len() + m
                &&& (delete_rotated <==> report.synced == recs.len())
                &&& final (store).rows@.len() == old(store).rows@.len() + report.synced
                &&& final (store).rows@.take(old(store).rows@.len() as int) == old(store).rows@
                &&& (forall|j: int|
                    old(store).rows@.len() <= j < final (store).rows@.len() ==> exists|k: int|
                        0 <= k < recs.len() && #[trigger] final (store).rows@[j] == redacted_rec(
                            recs[k],
                        ))
                &&& (delete_rotated ==> final (store).rows@ == old(store).rows@
                    + recs.map_values(|r: RecView| redacted_rec(r)))
            },
        },
{
    let content = match rotated {
        Some(c) => c,
        None => {
            return SyncOutcome::StreamFailure;
        },
    };
    let (entries, malformed) = crate::codec::parse_log_file(content);
    let ghost recs = spec_log_records(content@);
    proof {
        crate::codec::lemma_log_records_bounds(crate::codec::spec_lines(content@));
        crate::codec::lemma_pow10_18();
    }
    let ghost rows0 = store.rows@;
    let n = entries.len();
    let mut synced: usize = 0;
    let mut i: usize = 0;
    while i < n
        invariant
            i <= n,
            n == entries@.len(),
            entries.deep_view() == recs,
            recs.len() == n,
            forall|k: int| 0 <= k < n ==> recs[k] == #[trigger] entries@[k]@,
            forall|k: int|
                0 <= k < recs.len() ==> (#[trigger] recs[k]).timestamp < 0x8000_0000_0000_0000
                    && recs[k].duration_ms < 0x8000_0000_0000_0000,
            store.wf(),
            synced <= i,
            store.rows@.len() == rows0.len() + synced,
            store.rows@.take(rows0.len() as int) == rows0,
            forall|j: int|
                rows0.len() <= j < store.rows@.len() ==> exists|k: int|
                    0 <= k < recs.len() && #[trigger] store.rows@[j] == redacted_rec(recs[k]),
            synced == i ==> store.rows@ == rows0 + recs.take(i as int).map_values(
                |r: RecView| redacted_rec(r),
            ),
        decreases n - i,
    {
        let e = &entries[i];
        let scrubbed = CommandEntry {
            timestamp: e.timestamp,
            user: e.user.clone(),
            session: e.session.clone(),
            shell_type: e.shell_type,
            cmd: redact_command(e.cmd.as_str()),
            cwd: e.cwd.clone(),
            exit_code: e.exit_code,
            duration_ms: e.duration_ms,
        };
        assert(scrubbed@ == redacted_rec(recs[i as int]));
        let ghost pre_rows = store.rows@;
        let ghost pre_synced = synced;
        match store.insert_cmd_entry(&scrubbed) {
            Ok(()) => {
                synced = synced + 1;
                proof {
                    assert(store.rows@ == pre_rows.push(redacted_rec(recs[i as int])));
                    assert(store.rows@.take(rows0.len() as int) =~= rows0);
                    assert forall|j: int|
                        rows0.len() <= j < store.rows@.len() implies exists|k: int|
                            0 <= k < recs.len() && #[trigger] store.rows@[j] == redacted_rec(
                                recs[k],
                            ) by {
                        if j < store.rows@.len() - 1 {
                            let k0 = choose|k: int|
                                0 <= k < recs.len() && #[trigger] pre_rows[j] == redacted_rec(
                                    recs[k],
                                );
                            assert(store.rows@[j] == redacted_rec(recs[k0]));
                        } else {
                            assert(store.rows@[j] == redacted_rec(recs[i as int]));
                        }
                    }
                    if pre_synced == i {
                        assert(recs.take(i + 1).map_values(|r: RecView| redacted_rec(r))
                            =~= recs.take(i as int).map_values(|r: RecView| redacted_rec(r)).push(
                            redacted_rec(recs[i as int]),
                        ));
                        assert(store.rows@ =~= rows0 + recs.take(i + 1).map_values(
                            |r: RecView| redacted_rec(r),
                        ));
                    }
                }
            },
            Err(_) => {
                proof {
                    assert(store.rows@ == pre_rows);
                }
            },
        }
        i = i + 1;
    }
    let failed = malformed + (n - synced);
    let delete_rotated = synced == n;
    proof {
        if delete_rotated {
            assert(recs.take(n as int) =~= recs);
        }
    }
    SyncOutcome::Processed { report: SyncReport { synced, failed }, delete_rotated }
}

// ---------------------------------------------------------------------------
// The sync pass over a filesystem model
// ---------------------------------------------------------------------------
/// The filesystem state one sync pass acts on: what the active log holds,
/// and what a leftover rotated file holds.
pub ghost struct FsModel {
    pub active: Option<Seq<char>>,
    pub rotated: Option<Seq<char>>,
}

/// One whole reference sync pass — rotate, decode, redact, insert, delete —
/// over the model, assuming the rotated file is readable and every insert
/// succeeds. Yields the filesystem and store afterwards, and the counts
/// reported: records synced and lines failed.
pub open spec fn sync_pass(fs: FsModel, rows: Seq<RecView>) -> (FsModel, Seq<RecView>, nat, nat) {
    match fs.active {
        None => (fs, rows, 0nat, 0nat),
        Some(content) => (
            FsModel { active: None, rotated: None },
            rows + spec_log_records(content).map_values(|r: RecView| redacted_rec(r)),
            spec_log_records(content).len(),
            spec_log_malformed(content),
        ),
    }
}

/// Sync is idempotent: after one pass there is no active log left, so a
/// second pass with no new producer activity in between does no work — it
/// moves no file, writes no row and reports nothing synced or failed.
pub proof fn lemma_sync_idempotent(fs: FsModel, rows: Seq<RecView>)
    ensures
        ({
            let (fs1, rows1, s1, f1) = sync_pass(fs, rows);
            let (fs2, rows2, s2, f2) = sync_pass(fs1, rows1);
            fs2 == fs1 && rows2 == rows1 && s2 == 0 && f2 == 0
        }),
{
    let (fs1, rows1, s1, f1) = sync_pass(fs, rows);
    assert(fs1.active is None);
}

} // verus!
