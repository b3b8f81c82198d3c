//! End-to-end scenarios for the walk tree.

use walkdetector::tree::WalkTree;
use walkdetector::{Walk, WalkType};

fn path(s: &str) -> Vec<Vec<u8>> {
    if s.is_empty() {
        return Vec::new();
    }
    s.split('/').map(|c| c.as_bytes().to_vec()).collect()
}

#[test]
fn directory_walk_covers_only_its_root_at_depth_zero() {
    // Insert a Directory walk of depth 0 at "a/b".
    let mut tree = WalkTree::new();
    tree.insert_walk(WalkType::Directory, &path("a/b"), Walk { depth: 0 }, 2);
    assert_eq!(tree.lookup(WalkType::Directory, &path("a/b")), Some(Walk { depth: 0 }));
    assert_eq!(tree.lookup(WalkType::Directory, &path("a/b/c")), None);
}

#[test]
fn contained_insertion_is_a_no_op() {
    // A File walk of depth 2 at "x" covers "x/y/z"; inserting there changes nothing.
    let mut tree = WalkTree::new();
    tree.insert_walk(WalkType::File, &path("x"), Walk { depth: 2 }, 2);
    tree.insert_walk(WalkType::Directory, &path("x/y/z"), Walk { depth: 0 }, 2);
    // The covering walk answers the directory query.
    assert_eq!(tree.lookup(WalkType::Directory, &path("x/y/z")), Some(Walk { depth: 2 }));
    // No node state was created below "x".
    assert!(tree.get_node(&path("x/y")).is_none());
    assert!(tree.get_node(&path("x/y/z")).is_none());
    assert_eq!(tree.list_walks(WalkType::Directory).len(), 0);
    assert_eq!(tree.list_walks(WalkType::File).len(), 1);
}

#[test]
fn three_advanced_children_promote_the_parent() {
    // threshold = 3: three sibling walks at depth 0, then a walk at the parent.
    let mut tree = WalkTree::new();
    tree.insert_walk(WalkType::Directory, &path("d/1"), Walk { depth: 0 }, 3);
    tree.insert_walk(WalkType::Directory, &path("d/2"), Walk { depth: 0 }, 3);
    tree.insert_walk(WalkType::Directory, &path("d/3"), Walk { depth: 0 }, 3);
    tree.insert_walk(WalkType::Directory, &path("d"), Walk { depth: 0 }, 3);
    // The parent's walk promoted to depth 1 and the child walks are gone.
    assert_eq!(tree.get_walk(WalkType::Directory, &path("d")), Some(Walk { depth: 1 }));
    let walks = tree.list_walks(WalkType::Directory);
    assert_eq!(walks.len(), 1);
    assert_eq!(walks[0].0, path("d"));
    assert_eq!(walks[0].1, Walk { depth: 1 });
    // Children are covered by the promoted walk.
    assert_eq!(tree.lookup(WalkType::Directory, &path("d/2")), Some(Walk { depth: 1 }));
    assert_eq!(tree.child_walks(WalkType::Directory, &path("d")).len(), 0);
}

#[test]
fn two_advanced_children_do_not_promote() {
    let mut tree = WalkTree::new();
    tree.insert_walk(WalkType::Directory, &path("d/1"), Walk { depth: 0 }, 3);
    tree.insert_walk(WalkType::Directory, &path("d/2"), Walk { depth: 0 }, 3);
    tree.insert_walk(WalkType::Directory, &path("d"), Walk { depth: 0 }, 3);
    assert_eq!(tree.get_walk(WalkType::Directory, &path("d")), Some(Walk { depth: 0 }));
}

#[test]
fn gc_removes_only_nodes_idle_past_the_timeout() {
    // Node "f" accessed at t0 = 1000 ms.
    let mut tree = WalkTree::new();
    let i = tree.get_or_create_node(&path("f"));
    tree.touch(i, 1000);
    // Idle 5 s < 10 s: retained.
    let (deleted, remaining) = tree.gc(10_000, 6_000);
    assert_eq!(deleted, 0);
    assert_eq!(remaining, 2); // root and "f"
    assert!(tree.get_node(&path("f")).is_some());
    // Idle 15 s >= 10 s: removed.
    let (deleted, remaining) = tree.gc(10_000, 16_000);
    assert_eq!(deleted, 1);
    assert_eq!(remaining, 1); // only the root
    assert!(tree.get_node(&path("f")).is_none());
}

#[test]
fn gc_clears_but_keeps_a_node_with_a_live_descendant() {
    let mut tree = WalkTree::new();
    let parent = tree.get_or_create_node(&path("p"));
    tree.touch(parent, 0);
    tree.insert_walk(WalkType::File, &path("p"), Walk { depth: 0 }, 2);
    let child = tree.get_or_create_node(&path("p/c"));
    tree.touch(child, 20_000);
    // At 21 s with a 10 s timeout, "p" is idle but "p/c" is live.
    let (deleted, remaining) = tree.gc(10_000, 21_000);
    assert_eq!(deleted, 0);
    assert_eq!(remaining, 3);
    // "p" was retained but cleared: its walk is gone.
    assert_eq!(tree.get_walk(WalkType::File, &path("p")), None);
    assert!(tree.get_node(&path("p")).is_some());
}
