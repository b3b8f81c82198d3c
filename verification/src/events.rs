//! Decision rules for journal-change subscriptions: whether a batch of
//! file changes is worth notifying a subscriber about.

use vstd::prelude::*;

use crate::bytepath::bytes_prefix;
use crate::bytepath::bytes_starts_with;

verus! {

/// A position in the change journal.
pub struct JournalPosition {
    pub mount_generation: i64,
    pub sequence_number: u64,
    pub snapshot_hash: Vec<u8>,
}

/// The changes between two journal positions.
pub struct FileDelta {
    pub from_snapshot_hash: Vec<u8>,
    pub to_snapshot_hash: Vec<u8>,
    pub created_paths: Vec<Vec<u8>>,
    pub removed_paths: Vec<Vec<u8>>,
    pub unclean_paths: Vec<Vec<u8>>,
    pub changed_paths: Vec<Vec<u8>>,
}

/// A path is version-control bookkeeping when it starts with `.hg`.
pub open spec fn is_hg_path(p: Seq<u8>) -> bool {
    bytes_prefix(seq![46u8, 104u8, 103u8], p)
}

/// Whether any changed path lies outside version-control bookkeeping.
pub fn have_non_hg_changes(changes: &Vec<Vec<u8>>) -> (r: bool)
    ensures
        r == exists|i: int| 0 <= i < changes@.len() && !is_hg_path((#[trigger] changes@[i])@),
{
    let mut marker: Vec<u8> = Vec::new();
    marker.push(46);
    marker.push(104);
    marker.push(103);
    proof {
        assert(marker@ =~= seq![46u8, 104u8, 103u8]);
    }
    let mut i: usize = 0;
    while i < changes.len()
        invariant
            marker@ == seq![46u8, 104u8, 103u8],
            i <= changes@.len(),
            forall|j: int| 0 <= j < i ==> is_hg_path((#[trigger] changes@[j])@),
        decreases changes@.len() - i,
    {
        if !bytes_starts_with(&changes[i], &marker) {
            return true;
        }
        i = i + 1;
    }
    false
}

/// Whether a change batch deserves a notification: the snapshot moved, or
/// some created, removed, unclean or changed path lies outside
/// version-control bookkeeping.
pub fn decide_should_notify(changes: &FileDelta) -> (r: bool)
    ensures
        r == {
            ||| changes.from_snapshot_hash@ != changes.to_snapshot_hash@
            ||| exists|i: int|
                0 <= i < changes.created_paths@.len() && !is_hg_path(
                    (#[trigger] changes.created_paths@[i])@,
                )
            ||| exists|i: int|
                0 <= i < changes.removed_paths@.len() && !is_hg_path(
                    (#[trigger] changes.removed_paths@[i])@,
                )
            ||| exists|i: int|
                0 <= i < changes.unclean_paths@.len() && !is_hg_path(
                    (#[trigger] changes.unclean_paths@[i])@,
                )
            ||| exists|i: int|
                0 <= i < changes.changed_paths@.len() && !is_hg_path(
                    (#[trigger] changes.changed_paths@[i])@,
                )
        },
{
    if !crate::bytepath::bytes_eq(&changes.from_snapshot_hash, &changes.to_snapshot_hash) {
        return true;
    }
    if have_non_hg_changes(&changes.created_paths) {
        return true;
    }
    if have_non_hg_changes(&changes.removed_paths) {
        return true;
    }
    if have_non_hg_changes(&changes.unclean_paths) {
        return true;
    }
    if have_non_hg_changes(&changes.changed_paths) {
        return true;
    }
    false
}

/// What one poll of the journal should do next.
#[derive(Clone, Copy, PartialEq, Eq, Structural, Debug)]
pub enum PollStep {
    /// No position was seen before: record this one and notify nobody.
    RecordOnly,
    /// The sequence number did not move: skip the event entirely.
    Skip,
    /// The journal moved: fetch the changed files and weigh them with
    /// [`decide_should_notify`].
    FetchChanges,
}

/// Decides what a poll should do, given the previously seen journal
/// position and the current one.
pub fn journal_poll_step(last: &Option<JournalPosition>, current: &JournalPosition) -> (r:
    PollStep)
    ensures
        r == (match last {
            None => PollStep::RecordOnly,
            Some(lp) => if lp.sequence_number == current.sequence_number {
                PollStep::Skip
            } else {
                PollStep::FetchChanges
            },
        }),
{
    match last {
        None => PollStep::RecordOnly,
        Some(lp) => if lp.sequence_number == current.sequence_number {
            PollStep::Skip
        } else {
            PollStep::FetchChanges
        },
    }
}

/// A subscription response: the journal position with its snapshot hash
/// hex-encoded for transport.
pub struct SubscribeResponse {
    pub mount_generation: i64,
    pub sequence_number: u64,
    pub snapshot_hash: Vec<u8>,
}

/// Builds the response for a journal position, hex-encoding the snapshot
/// hash.
pub fn subscribe_response(j: &JournalPosition) -> (r: SubscribeResponse)
    ensures
        r.mount_generation == j.mount_generation,
        r.sequence_number == j.sequence_number,
        r.snapshot_hash@ == crate::idmap::hex_of(j.snapshot_hash@),
{
    SubscribeResponse {
        mount_generation: j.mount_generation,
        sequence_number: j.sequence_number,
        snapshot_hash: crate::idmap::to_hex(&j.snapshot_hash),
    }
}

} // verus!
