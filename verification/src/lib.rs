//! Detection of sequential access patterns ("walks") over a directory tree,
//! together with a few small verified companions: an in-memory id/name map,
//! a bookmark-creation guard, and journal-change notification rules.
//!
//! The central type is [`tree::WalkTree`]: a trie, stored as an arena of
//! records addressed by index, that tracks per path and per walk kind the
//! confirmed walk, pre-confirmation observations, and access times, and that
//! merges, promotes and expires walk state.

pub mod bytepath;
pub mod diff;
pub mod events;
pub mod hook;
pub mod idmap;
pub mod laws;
pub mod node;
pub mod tree;

use vstd::prelude::*;

verus! {

/// The two kinds of access pattern that are tracked.
///
/// A `File` walk (file-content reads) dominates a `Directory` walk
/// (directory-listing reads) of lesser or equal depth: reading file contents
/// implies the directories were listed as well.
#[derive(Clone, Copy, PartialEq, Eq, Structural, Debug)]
pub enum WalkType {
    File,
    Directory,
}

/// A confirmed walk: `depth` is the number of path components below the
/// walk's root that are guaranteed covered by the walk.
#[derive(Clone, Copy, PartialEq, Eq, Structural, Debug)]
pub struct Walk {
    pub depth: usize,
}

/// Whether total file/directory count hints make a node worth keeping: a
/// total below the confirmation threshold lets the node be confirmed as
/// walked the moment it is touched.
pub open spec fn spec_interesting_metadata(
    threshold: usize,
    total_files: Option<usize>,
    total_dirs: Option<usize>,
) -> bool {
    ||| (total_files matches Some(t) && t < threshold)
    ||| (total_dirs matches Some(t) && t < threshold)
}

/// Reports whether count hints are small enough to stay useful for
/// confirming a walk under `threshold`.
pub fn interesting_metadata(
    threshold: usize,
    total_files: Option<usize>,
    total_dirs: Option<usize>,
) -> (r: bool)
    ensures
        r == spec_interesting_metadata(threshold, total_files, total_dirs),
{
    (match total_files {
        Some(t) => t < threshold,
        None => false,
    }) || (match total_dirs {
        Some(t) => t < threshold,
        None => false,
    })
}

} // verus!
