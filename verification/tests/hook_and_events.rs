//! The bookmark-creation guard, the notification rules, and root
//! filtering.

use walkdetector::diff::is_path_included;
use walkdetector::diff::{collect_diff_dirs, DiffDirsEntry, SaplingGetDiffDirsResult};
use walkdetector::events::{decide_should_notify, have_non_hg_changes, journal_poll_step, subscribe_response, FileDelta, JournalPosition, PollStep};
use walkdetector::hook::{
    BlockNewBookmarkCreationsByPrefixConfig, BlockNewBookmarkCreationsByPrefixHook, HookDecision,
};

fn hook() -> BlockNewBookmarkCreationsByPrefixHook {
    BlockNewBookmarkCreationsByPrefixHook::with_config(BlockNewBookmarkCreationsByPrefixConfig {
        message: None,
    })
    .unwrap()
}

fn path(s: &str) -> Vec<Vec<u8>> {
    if s.is_empty() {
        return Vec::new();
    }
    s.split('/').map(|c| c.as_bytes().to_vec()).collect()
}

#[test]
fn existing_bookmarks_are_left_alone() {
    let h = hook();
    let existing = vec![b"some/bookmark/path".to_vec()];
    let d = h.check_bookmark_creation(&b"some/bookmark".to_vec(), false, &existing);
    assert_eq!(d, HookDecision::Accepted);
}

#[test]
fn a_prefix_of_an_existing_bookmark_is_rejected() {
    let h = hook();
    let existing = vec![b"some/bookmark/path".to_vec()];
    let d = h.check_bookmark_creation(&b"some/bookmark".to_vec(), true, &existing);
    assert_eq!(d, HookDecision::RejectedPrefixOfExisting);
}

#[test]
fn an_existing_ancestor_is_rejected_with_that_ancestor() {
    let h = hook();
    let existing = vec![b"a/b".to_vec()];
    let d = h.check_bookmark_creation(&b"a/b/c".to_vec(), true, &existing);
    assert_eq!(d, HookDecision::RejectedAncestorExists { ancestor: b"a/b".to_vec() });
}

#[test]
fn an_unrelated_bookmark_is_accepted() {
    let h = hook();
    let existing = vec![b"other/branch".to_vec()];
    let d = h.check_bookmark_creation(&b"a/b/c".to_vec(), true, &existing);
    assert_eq!(d, HookDecision::Accepted);
}

#[test]
fn the_configured_message_is_kept() {
    let h = BlockNewBookmarkCreationsByPrefixHook::new(&BlockNewBookmarkCreationsByPrefixConfig {
        message: Some(b"blocked".to_vec()),
    })
    .unwrap();
    assert_eq!(h.message(), Some(&b"blocked".to_vec()));
}

fn delta(from: &[u8], to: &[u8]) -> FileDelta {
    FileDelta {
        from_snapshot_hash: from.to_vec(),
        to_snapshot_hash: to.to_vec(),
        created_paths: Vec::new(),
        removed_paths: Vec::new(),
        unclean_paths: Vec::new(),
        changed_paths: Vec::new(),
    }
}

#[test]
fn bookkeeping_only_changes_do_not_notify() {
    let mut d = delta(b"h1", b"h1");
    d.changed_paths.push(b".hg/store/lock".to_vec());
    d.created_paths.push(b".hgignore-ish".to_vec());
    assert!(!decide_should_notify(&d));
}

#[test]
fn a_snapshot_move_notifies() {
    let d = delta(b"h1", b"h2");
    assert!(decide_should_notify(&d));
}

#[test]
fn a_real_file_change_notifies() {
    let mut d = delta(b"h1", b"h1");
    d.removed_paths.push(b"src/main.rs".to_vec());
    assert!(decide_should_notify(&d));
    assert!(have_non_hg_changes(&d.removed_paths));
    assert!(!have_non_hg_changes(&vec![b".hg/x".to_vec()]));
}

#[test]
fn subscribe_response_hex_encodes_the_hash() {
    let j = JournalPosition { mount_generation: 3, sequence_number: 9, snapshot_hash: vec![0xab, 0x01] };
    let r = subscribe_response(&j);
    assert_eq!(r.mount_generation, 3);
    assert_eq!(r.sequence_number, 9);
    assert_eq!(r.snapshot_hash, b"ab01".to_vec());
}

#[test]
fn root_filters_include_and_exclude_by_path_prefix() {
    let p = path("a/b/c");
    assert!(is_path_included(&p, &None, &None));
    assert!(is_path_included(&p, &Some(vec![path("a")]), &None));
    assert!(!is_path_included(&p, &Some(vec![path("z")]), &None));
    assert!(!is_path_included(&p, &Some(vec![path("a")]), &Some(vec![path("a/b")])));
    assert!(is_path_included(&p, &None, &Some(vec![path("x")])));
}

fn jp(seq: u64) -> JournalPosition {
    JournalPosition { mount_generation: 0, sequence_number: seq, snapshot_hash: vec![1] }
}

#[test]
fn the_first_poll_only_records_the_position() {
    assert_eq!(journal_poll_step(&None, &jp(4)), PollStep::RecordOnly);
}

#[test]
fn an_unchanged_sequence_number_is_skipped() {
    assert_eq!(journal_poll_step(&Some(jp(4)), &jp(4)), PollStep::Skip);
}

#[test]
fn a_moved_sequence_number_fetches_the_changes() {
    assert_eq!(journal_poll_step(&Some(jp(4)), &jp(5)), PollStep::FetchChanges);
}

fn entry(status: u8, p: &str) -> DiffDirsEntry {
    DiffDirsEntry { status, path: path(p) }
}

#[test]
fn diff_collection_keeps_filtered_entries_in_order() {
    let entries = vec![entry(b'M', "a/x"), entry(b'A', "b/y"), entry(b'R', "a/z")];
    let r = collect_diff_dirs(entries, 10, &Some(vec![path("a")]), &None);
    match r {
        SaplingGetDiffDirsResult::Normal(v) => {
            assert_eq!(v.len(), 2);
            assert_eq!(v[0].status, b'M');
            assert_eq!(v[0].path, path("a/x"));
            assert_eq!(v[1].status, b'R');
            assert_eq!(v[1].path, path("a/z"));
        }
        SaplingGetDiffDirsResult::TooManyChanges => panic!("expected the filtered entries"),
    }
}

#[test]
fn diff_collection_reports_too_many_changes_past_the_limit() {
    let entries = vec![entry(b'M', "a/x"), entry(b'A', "a/y"), entry(b'R', "b/z")];
    let r = collect_diff_dirs(entries, 1, &None, &Some(vec![path("b")]));
    assert!(matches!(r, SaplingGetDiffDirsResult::TooManyChanges));
}
