//! Operation-level behavior of the walk tree: idempotence, domination,
//! confirmation, and the access-event traversal.

use walkdetector::tree::WalkTree;
use walkdetector::{Walk, WalkType};

fn path(s: &str) -> Vec<Vec<u8>> {
    if s.is_empty() {
        return Vec::new();
    }
    s.split('/').map(|c| c.as_bytes().to_vec()).collect()
}

#[test]
fn inserting_the_same_walk_twice_changes_nothing() {
    let mut tree = WalkTree::new();
    tree.insert_walk(WalkType::File, &path("a/b"), Walk { depth: 1 }, 2);
    let walks_once = tree.list_walks(WalkType::File);
    tree.insert_walk(WalkType::File, &path("a/b"), Walk { depth: 1 }, 2);
    let walks_twice = tree.list_walks(WalkType::File);
    assert_eq!(walks_once.len(), walks_twice.len());
    assert_eq!(walks_once[0].0, walks_twice[0].0);
    assert_eq!(walks_once[0].1, walks_twice[0].1);
    assert_eq!(tree.get_walk(WalkType::File, &path("a/b")), Some(Walk { depth: 1 }));
}

#[test]
fn a_file_walk_clears_a_shallower_directory_walk() {
    let mut tree = WalkTree::new();
    tree.insert_walk(WalkType::Directory, &path("n"), Walk { depth: 2 }, 2);
    tree.insert_walk(WalkType::File, &path("n"), Walk { depth: 2 }, 2);
    // The directory walk is gone; directory queries see the file walk.
    assert_eq!(tree.list_walks(WalkType::Directory).len(), 0);
    assert_eq!(tree.lookup(WalkType::Directory, &path("n/x")), Some(Walk { depth: 2 }));
    assert_eq!(tree.lookup(WalkType::File, &path("n/x/y")), Some(Walk { depth: 2 }));
}

#[test]
fn a_deeper_directory_walk_survives_a_file_walk() {
    let mut tree = WalkTree::new();
    tree.insert_walk(WalkType::Directory, &path("n"), Walk { depth: 3 }, 2);
    tree.insert_walk(WalkType::File, &path("n"), Walk { depth: 1 }, 2);
    assert_eq!(tree.get_walk(WalkType::Directory, &path("n")), Some(Walk { depth: 1 }));
    assert_eq!(tree.list_walks(WalkType::Directory).len(), 1);
    assert_eq!(tree.list_walks(WalkType::File).len(), 1);
}

#[test]
fn a_file_query_is_not_answered_by_a_directory_walk() {
    let mut tree = WalkTree::new();
    tree.insert_walk(WalkType::Directory, &path("a"), Walk { depth: 2 }, 2);
    assert_eq!(tree.lookup(WalkType::File, &path("a/b")), None);
    assert_eq!(tree.lookup(WalkType::Directory, &path("a/b")), Some(Walk { depth: 2 }));
}

#[test]
fn confirmation_counts_distinct_names_or_a_small_total_hint() {
    let mut tree = WalkTree::new();
    let i = tree.get_or_create_node(&path("dir"));
    tree.record_observation(i, WalkType::File, b"one".to_vec());
    tree.record_observation(i, WalkType::File, b"two".to_vec());
    tree.record_observation(i, WalkType::File, b"two".to_vec()); // duplicate
    assert!(tree.is_walked(i, WalkType::File, 2));
    assert!(!tree.is_walked(i, WalkType::File, 3));
    // A total below the threshold confirms the node regardless.
    tree.set_hints(i, Some(2), None);
    assert!(tree.is_walked(i, WalkType::File, 3));
    // Directory observations are tracked separately.
    assert!(!tree.is_walked(i, WalkType::Directory, 1));
    tree.record_observation(i, WalkType::Directory, b"sub".to_vec());
    assert!(tree.is_walked(i, WalkType::Directory, 1));
}

#[test]
fn owning_node_lookup_finds_cover_or_creates() {
    let mut tree = WalkTree::new();
    tree.insert_walk(WalkType::File, &path("a"), Walk { depth: 2 }, 2);
    // Covered: the walk at "a" owns "a/b".
    let (idx, matched) = tree.get_or_create_owning_node(WalkType::File, &path("a/b"));
    assert_eq!(matched, 1); // one component matched: the owner is "a"
    let _ = idx;
    assert!(tree.get_node(&path("a/b")).is_none());
    // Not covered: a fresh node is created at the full path.
    let (_idx2, matched2) = tree.get_or_create_owning_node(WalkType::File, &path("q/r"));
    assert_eq!(matched2, 2);
    assert!(tree.get_node(&path("q/r")).is_some());
}

#[test]
fn list_walks_orders_parents_before_children() {
    let mut tree = WalkTree::new();
    tree.insert_walk(WalkType::File, &path("a/b/c"), Walk { depth: 0 }, 9);
    tree.insert_walk(WalkType::File, &path("a"), Walk { depth: 0 }, 9);
    let walks = tree.list_walks(WalkType::File);
    assert_eq!(walks.len(), 2);
    assert!(walks[0].0.len() <= walks[1].0.len());
    assert_eq!(walks[0].0, path("a"));
    assert_eq!(walks[1].0, path("a/b/c"));
}

#[test]
fn child_walks_reports_one_level_only() {
    let mut tree = WalkTree::new();
    tree.insert_walk(WalkType::Directory, &path("p/a"), Walk { depth: 0 }, 9);
    tree.insert_walk(WalkType::Directory, &path("p/b"), Walk { depth: 0 }, 9);
    tree.insert_walk(WalkType::Directory, &path("p/a/deep"), Walk { depth: 0 }, 9);
    let mut names: Vec<Vec<u8>> = tree
        .child_walks(WalkType::Directory, &path("p"))
        .into_iter()
        .map(|(name, _)| name)
        .collect();
    names.sort();
    assert_eq!(names, vec![b"a".to_vec(), b"b".to_vec()]);
}

#[test]
fn last_access_reflects_the_latest_touch() {
    let mut tree = WalkTree::new();
    let i = tree.get_or_create_node(&path("t"));
    assert_eq!(tree.last_access(i), None);
    tree.touch(i, 77);
    assert_eq!(tree.last_access(i), Some(77));
}

#[test]
fn iter_visits_every_record_once_parents_first() {
    let mut tree = WalkTree::new();
    tree.get_or_create_node(&path("a/b"));
    tree.get_or_create_node(&path("c"));
    let visited = tree.iter();
    // Root, "a", "c", "a/b": each exactly once.
    assert_eq!(visited.len(), 4);
    let mut paths: Vec<Vec<Vec<u8>>> = visited.iter().map(|(p, _)| p.clone()).collect();
    paths.sort();
    let mut expected = vec![path(""), path("a"), path("a/b"), path("c")];
    expected.sort();
    assert_eq!(paths, expected);
    // Depth is the component count, and parents come before children.
    for (p, d) in &visited {
        assert_eq!(*d, p.len());
    }
    for w in visited.windows(2) {
        assert!(w[0].1 <= w[1].1);
    }
}
