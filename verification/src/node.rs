//! One record of the walk trie: the per-directory state for both walk kinds.
//!
//! A `WalkNode` owns no children; the arena in [`crate::tree`] holds the
//! tree shape. A node carries, per kind, the confirmed walk if any, the
//! names of children whose subtree advanced past the latest pruning
//! frontier, the distinct file/directory names observed before
//! confirmation, optional externally supplied total counts, and the last
//! access time (caller-supplied, in milliseconds).

use vstd::prelude::*;
use vstd::seq_lib::group_seq_properties;

use crate::Walk;
use crate::WalkType;

verus! {

/// Mathematical model of one node record.
#[verifier::ext_equal]
pub ghost struct NodeView {
    pub file_walk: Option<Walk>,
    pub dir_walk: Option<Walk>,
    pub last_access: Option<u64>,
    pub advanced_file_children: Set<Seq<u8>>,
    pub advanced_dir_children: Set<Seq<u8>>,
    pub total_files: Option<usize>,
    pub total_dirs: Option<usize>,
    pub seen_files: Set<Seq<u8>>,
    pub seen_dirs: Set<Seq<u8>>,
}

impl NodeView {
    /// The state of a freshly created (or fully cleared) node.
    pub open spec fn empty() -> NodeView {
        NodeView {
            file_walk: None,
            dir_walk: None,
            last_access: None,
            advanced_file_children: Set::empty(),
            advanced_dir_children: Set::empty(),
            total_files: None,
            total_dirs: None,
            seen_files: Set::empty(),
            seen_dirs: Set::empty(),
        }
    }

    /// The walk of exactly the given kind, if any.
    pub open spec fn walk_of(self, wt: WalkType) -> Option<Walk> {
        match wt {
            WalkType::File => self.file_walk,
            WalkType::Directory => self.dir_walk,
        }
    }

    /// The most powerful walk covering queries of kind `wt`: a file walk
    /// also answers directory queries.
    pub open spec fn dominating(self, wt: WalkType) -> Option<Walk> {
        match wt {
            WalkType::File => self.file_walk,
            WalkType::Directory => if self.file_walk is Some {
                self.file_walk
            } else {
                self.dir_walk
            },
        }
    }

    /// The advanced-children name set for the given kind.
    pub open spec fn advanced_of(self, wt: WalkType) -> Set<Seq<u8>> {
        match wt {
            WalkType::File => self.advanced_file_children,
            WalkType::Directory => self.advanced_dir_children,
        }
    }

    /// The pre-confirmation observation set for the given kind.
    pub open spec fn seen_of(self, wt: WalkType) -> Set<Seq<u8>> {
        match wt {
            WalkType::File => self.seen_files,
            WalkType::Directory => self.seen_dirs,
        }
    }

    /// The total-count hint matching the given kind.
    pub open spec fn total_of(self, wt: WalkType) -> Option<usize> {
        match wt {
            WalkType::File => self.total_files,
            WalkType::Directory => self.total_dirs,
        }
    }

    /// Result of storing `w` as the walk of kind `wt`: the field is
    /// replaced, and a directory walk that a new file walk reaches at
    /// least as deep as is cleared (a file walk implies the listing).
    pub open spec fn with_walk(self, wt: WalkType, w: Option<Walk>) -> NodeView {
        match wt {
            WalkType::File => {
                let cleared = match (w, self.dir_walk) {
                    (Some(fw), Some(dw)) => fw.depth >= dw.depth,
                    _ => false,
                };
                NodeView {
                    file_walk: w,
                    dir_walk: if cleared {
                        None
                    } else {
                        self.dir_walk
                    },
                    ..self
                }
            },
            WalkType::Directory => NodeView { dir_walk: w, ..self },
        }
    }

    /// Node state that makes a non-root record eligible for removal once
    /// its subtree is gone: no walks, no advanced-children markers, and no
    /// count hints that would still be useful under `threshold`.
    pub open spec fn removable(self, threshold: usize) -> bool {
        &&& self.file_walk is None
        &&& self.dir_walk is None
        &&& self.advanced_file_children.is_empty()
        &&& self.advanced_dir_children.is_empty()
        &&& !crate::spec_interesting_metadata(threshold, self.total_files, self.total_dirs)
    }
}

/// One per-directory record of the walk trie.
pub struct WalkNode {
    file_walk: Option<Walk>,
    dir_walk: Option<Walk>,
    last_access: Option<u64>,
    advanced_file_children: Vec<Vec<u8>>,
    advanced_dir_children: Vec<Vec<u8>>,
    total_files: Option<usize>,
    total_dirs: Option<usize>,
    seen_files: Vec<Vec<u8>>,
    seen_dirs: Vec<Vec<u8>>,
}

impl View for WalkNode {
    type V = NodeView;

    closed spec fn view(&self) -> NodeView {
        NodeView {
            file_walk: self.file_walk,
            dir_walk: self.dir_walk,
            last_access: self.last_access,
            advanced_file_children: self.advanced_file_children.deep_view().to_set(),
            advanced_dir_children: self.advanced_dir_children.deep_view().to_set(),
            total_files: self.total_files,
            total_dirs: self.total_dirs,
            seen_files: self.seen_files.deep_view().to_set(),
            seen_dirs: self.seen_dirs.deep_view().to_set(),
        }
    }
}

impl WalkNode {
    /// The name vectors hold each name at most once, so that their lengths
    /// are the counts of distinct names.
    pub closed spec fn inv(&self) -> bool {
        &&& self.advanced_file_children.deep_view().no_duplicates()
        &&& self.advanced_dir_children.deep_view().no_duplicates()
        &&& self.seen_files.deep_view().no_duplicates()
        &&& self.seen_dirs.deep_view().no_duplicates()
    }

    /// Creates an empty node.
    pub fn new() -> (r: WalkNode)
        ensures
            r@ == NodeView::empty(),
            r.inv(),
    {
        let r = WalkNode {
            file_walk: None,
            dir_walk: None,
            last_access: None,
            advanced_file_children: Vec::new(),
            advanced_dir_children: Vec::new(),
            total_files: None,
            total_dirs: None,
            seen_files: Vec::new(),
            seen_dirs: Vec::new(),
        };
        proof {
            broadcast use group_seq_properties;

            assert(r@.advanced_file_children =~= Set::<Seq<u8>>::empty());
            assert(r@.advanced_dir_children =~= Set::<Seq<u8>>::empty());
            assert(r@.seen_files =~= Set::<Seq<u8>>::empty());
            assert(r@.seen_dirs =~= Set::<Seq<u8>>::empty());
        }
        r
    }

    /// The walk of exactly the given kind rooted at this node, if any.
    pub fn get_walk_for_type(&self, walk_type: WalkType) -> (r: Option<Walk>)
        ensures
            r == self@.walk_of(walk_type),
    {
        match walk_type {
            WalkType::File => self.file_walk,
            WalkType::Directory => self.dir_walk,
        }
    }

    /// The most powerful walk at this node that covers queries of kind
    /// `walk_type`: for a directory query a file walk answers first.
    pub fn get_dominating_walk(&self, walk_type: WalkType) -> (r: Option<Walk>)
        ensures
            r == self@.dominating(walk_type),
    {
        match walk_type {
            WalkType::File => self.file_walk,
            WalkType::Directory => match self.file_walk {
                Some(w) => Some(w),
                None => self.dir_walk,
            },
        }
    }

    /// Stores `walk` as the walk of kind `walk_type`; a directory walk that
    /// a new file walk reaches at least as deep as is cleared.
    pub fn set_walk_for_type(&mut self, walk_type: WalkType, walk: Option<Walk>)
        ensures
            final(self)@ == old(self)@.with_walk(walk_type, walk),
            old(self).inv() ==> final(self).inv(),
    {
        match walk_type {
            WalkType::File => {
                self.file_walk = walk;
                match (walk, self.dir_walk) {
                    (Some(fw), Some(dw)) => {
                        if fw.depth >= dw.depth {
                            self.dir_walk = None;
                        }
                    },
                    _ => {},
                }
            },
            WalkType::Directory => {
                self.dir_walk = walk;
            },
        }
    }

    /// Records `name` as an advanced child for `walk_type` and returns the
    /// number of distinct advanced children recorded for that kind.
    pub fn insert_advanced_child(&mut self, walk_type: WalkType, name: Vec<u8>) -> (r: usize)
        requires
            old(self).inv(),
        ensures
            final(self).inv(),
            final(self)@ == (match walk_type {
                WalkType::File => NodeView {
                    advanced_file_children: old(self)@.advanced_file_children.insert(name@),
                    ..old(self)@
                },
                WalkType::Directory => NodeView {
                    advanced_dir_children: old(self)@.advanced_dir_children.insert(name@),
                    ..old(self)@
                },
            }),
            r == final(self)@.advanced_of(walk_type).len(),
    {
        match walk_type {
            WalkType::File => {
                insert_distinct(&mut self.advanced_file_children, name);
                proof {
                    vec_set_len_matches(&self.advanced_file_children);
                }
                self.advanced_file_children.len()
            },
            WalkType::Directory => {
                insert_distinct(&mut self.advanced_dir_children, name);
                proof {
                    vec_set_len_matches(&self.advanced_dir_children);
                }
                self.advanced_dir_children.len()
            },
        }
    }

    /// Replaces the advanced-children set for `walk_type` with the given
    /// duplicate-free names.
    pub(crate) fn set_advanced_children(&mut self, walk_type: WalkType, names: Vec<Vec<u8>>)
        requires
            old(self).inv(),
            names.deep_view().no_duplicates(),
        ensures
            final(self).inv(),
            final(self)@ == (match walk_type {
                WalkType::File => NodeView {
                    advanced_file_children: names.deep_view().to_set(),
                    ..old(self)@
                },
                WalkType::Directory => NodeView {
                    advanced_dir_children: names.deep_view().to_set(),
                    ..old(self)@
                },
            }),
    {
        match walk_type {
            WalkType::File => self.advanced_file_children = names,
            WalkType::Directory => self.advanced_dir_children = names,
        }
    }

    /// The number of distinct advanced children recorded for `walk_type`.
    pub fn advanced_children_len(&self, walk_type: WalkType) -> (r: usize)
        requires
            self.inv(),
        ensures
            r == self@.advanced_of(walk_type).len(),
    {
        proof {
            self.advanced_file_children.deep_view().unique_seq_to_set();
            self.advanced_dir_children.deep_view().unique_seq_to_set();
        }
        match walk_type {
            WalkType::File => self.advanced_file_children.len(),
            WalkType::Directory => self.advanced_dir_children.len(),
        }
    }

    /// Forgets all advanced children recorded for `walk_type`.
    pub fn clear_advanced_children(&mut self, walk_type: WalkType)
        ensures
            old(self).inv() ==> final(self).inv(),
            final(self)@ == (match walk_type {
                WalkType::File => NodeView {
                    advanced_file_children: Set::empty(),
                    ..old(self)@
                },
                WalkType::Directory => NodeView {
                    advanced_dir_children: Set::empty(),
                    ..old(self)@
                },
            }),
    {
        match walk_type {
            WalkType::File => self.advanced_file_children.clear(),
            WalkType::Directory => self.advanced_dir_children.clear(),
        }
        proof {
            match walk_type {
                WalkType::File => {
                    assert(self.advanced_file_children.deep_view() =~= Seq::<Seq<u8>>::empty());
                    assert(self@.advanced_file_children =~= Set::<Seq<u8>>::empty());
                },
                WalkType::Directory => {
                    assert(self.advanced_dir_children.deep_view() =~= Seq::<Seq<u8>>::empty());
                    assert(self@.advanced_dir_children =~= Set::<Seq<u8>>::empty());
                },
            }
        }
    }

    /// Records one distinct observed name (a file name for `File`, a
    /// directory name for `Directory`) ahead of confirmation.
    pub fn record_observation(&mut self, walk_type: WalkType, name: Vec<u8>)
        requires
            old(self).inv(),
        ensures
            final(self).inv(),
            final(self)@ == (match walk_type {
                WalkType::File => NodeView { seen_files: old(self)@.seen_files.insert(name@), ..old(self)@ },
                WalkType::Directory => NodeView {
                    seen_dirs: old(self)@.seen_dirs.insert(name@),
                    ..old(self)@
                },
            }),
    {
        match walk_type {
            WalkType::File => insert_distinct(&mut self.seen_files, name),
            WalkType::Directory => insert_distinct(&mut self.seen_dirs, name),
        }
    }

    /// Stores externally supplied total file/directory counts for this
    /// directory.
    pub fn set_hints(&mut self, total_files: Option<usize>, total_dirs: Option<usize>)
        ensures
            final(self).inv() == old(self).inv(),
            final(self)@ == (NodeView { total_files, total_dirs, ..old(self)@ }),
    {
        self.total_files = total_files;
        self.total_dirs = total_dirs;
    }

    /// Records an access at the caller-supplied time.
    pub fn touch(&mut self, now: u64)
        ensures
            final(self).inv() == old(self).inv(),
            final(self)@ == (NodeView { last_access: Some(now), ..old(self)@ }),
    {
        self.last_access = Some(now);
    }

    /// The last recorded access time, if any.
    pub fn last_access(&self) -> (r: Option<u64>)
        ensures
            r == self@.last_access,
    {
        self.last_access
    }

    /// Whether this directory counts as walked for `walk_type`: enough
    /// distinct names were observed, or a supplied total count is itself
    /// below the threshold (a small directory is fully enumerated by a few
    /// accesses).
    pub fn is_walked(&self, walk_type: WalkType, dir_walk_threshold: usize) -> (r: bool)
        requires
            self.inv(),
        ensures
            r == {
                ||| self@.seen_of(walk_type).len() >= dir_walk_threshold
                ||| (self@.total_of(walk_type) matches Some(t) && t < dir_walk_threshold)
            },
    {
        proof {
            self.seen_files.deep_view().unique_seq_to_set();
            self.seen_dirs.deep_view().unique_seq_to_set();
        }
        match walk_type {
            WalkType::File => self.seen_files.len() >= dir_walk_threshold || (match self.total_files {
                Some(t) => t < dir_walk_threshold,
                None => false,
            }),
            WalkType::Directory => self.seen_dirs.len() >= dir_walk_threshold || (match self
                .total_dirs {
                Some(t) => t < dir_walk_threshold,
                None => false,
            }),
        }
    }

    /// Clears every field: the walks, markers, observations, hints and the
    /// access time. The tree shape is held by the arena, so expiring a
    /// record that still has live descendants only clears it.
    pub fn clear(&mut self)
        ensures
            final(self)@ == NodeView::empty(),
            final(self).inv(),
    {
        self.file_walk = None;
        self.dir_walk = None;
        self.last_access = None;
        self.advanced_file_children.clear();
        self.advanced_dir_children.clear();
        self.total_files = None;
        self.total_dirs = None;
        self.seen_files.clear();
        self.seen_dirs.clear();
        proof {
            assert(self.advanced_file_children.deep_view() =~= Seq::<Seq<u8>>::empty());
            assert(self.advanced_dir_children.deep_view() =~= Seq::<Seq<u8>>::empty());
            assert(self.seen_files.deep_view() =~= Seq::<Seq<u8>>::empty());
            assert(self.seen_dirs.deep_view() =~= Seq::<Seq<u8>>::empty());
            assert(self@.advanced_file_children =~= Set::<Seq<u8>>::empty());
            assert(self@.advanced_dir_children =~= Set::<Seq<u8>>::empty());
            assert(self@.seen_files =~= Set::<Seq<u8>>::empty());
            assert(self@.seen_dirs =~= Set::<Seq<u8>>::empty());
        }
    }

    /// Whether this node is eligible for removal under `threshold`, once
    /// its subtree is gone.
    pub fn removable(&self, threshold: usize) -> (r: bool)
        requires
            self.inv(),
        ensures
            r == self@.removable(threshold),
    {
        let no_walks = (match self.file_walk {
            Some(_) => false,
            None => true,
        }) && (match self.dir_walk {
            Some(_) => false,
            None => true,
        });
        let r = no_walks && self.advanced_file_children.len() == 0
            && self.advanced_dir_children.len() == 0 && !crate::interesting_metadata(
            threshold,
            self.total_files,
            self.total_dirs,
        );
        proof {
            vec_set_len_matches(&self.advanced_file_children);
            vec_set_len_matches(&self.advanced_dir_children);
        }
        r
    }
}

/// Appends `name` to `names` unless an equal name is already present, so
/// that `names` stays duplicate-free.
pub(crate) fn insert_distinct(names: &mut Vec<Vec<u8>>, name: Vec<u8>)
    requires
        old(names).deep_view().no_duplicates(),
    ensures
        final(names).deep_view().no_duplicates(),
        final(names).deep_view().to_set() == old(names).deep_view().to_set().insert(name@),
{
    let ghost orig = names.deep_view();
    let mut i: usize = 0;
    while i < names.len()
        invariant
            names.deep_view() == orig,
            orig.no_duplicates(),
            i <= names.len(),
            forall|j: int| 0 <= j < i ==> orig[j] != name@,
        decreases names.len() - i,
    {
        let eq = crate::bytepath::bytes_eq(&names[i], &name);
        proof {
            crate::bytepath::lemma_path_deep_view(*names, i as int);
        }
        if eq {
            proof {
                assert(orig[i as int] == name@);
                assert(orig.to_set().contains(name@));
                assert(orig.to_set() =~= orig.to_set().insert(name@));
            }
            return ;
        }
        i = i + 1;
    }
    names.push(name);
    proof {
        broadcast use crate::bytepath::lemma_path_deep_view;

        assert(names.deep_view() =~= orig.push(name@));
        assert(orig.push(name@).no_duplicates()) by {
            assert(forall|j: int| 0 <= j < orig.len() ==> orig[j] != name@);
            assert(forall|j: int| 0 <= j < orig.len() ==> orig.push(name@)[j] == orig[j]);
            assert(orig.push(name@)[orig.len() as int] == name@);
        }
        orig.lemma_push_to_set_commute(name@);
    }
}

/// For a duplicate-free name vector, the set of names has exactly as many
/// elements as the vector.
pub(crate) proof fn vec_set_len_matches(names: &Vec<Vec<u8>>)
    requires
        names.deep_view().no_duplicates(),
    ensures
        names.deep_view().to_set().len() == names.len(),
        names.deep_view().to_set().is_empty() <==> names.len() == 0,
{
    names.deep_view().unique_seq_to_set();
    if names.len() == 0 {
        assert(names.deep_view().to_set() =~= Set::<Seq<u8>>::empty());
    } else {
        assert(names.deep_view().to_set().contains(names.deep_view()[0]));
    }
}

} // verus!
