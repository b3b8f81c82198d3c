//! Guard for new bookmark creations: a new bookmark may not be a path
//! prefix of an existing bookmark, nor have an existing bookmark as a
//! path prefix — mirroring the file-system restriction on refs, where a
//! name cannot be both a file and a directory.

use vstd::prelude::*;

use crate::bytepath::bytes_eq;
use crate::bytepath::bytes_prefix;
use crate::bytepath::bytes_starts_with;
use crate::bytepath::clone_bytes;

verus! {

/// The bookmark name followed by a path separator, unless it already ends
/// in one.
pub open spec fn slashed(b: Seq<u8>) -> Seq<u8> {
    if b.len() > 0 && b[b.len() - 1] == 47 {
        b
    } else {
        b.push(47)
    }
}

/// `a` is a path-boundary prefix of the bookmark `b`: the run of bytes of
/// `slashed(b)` before one of its separators.
pub open spec fn boundary_prefix(a: Seq<u8>, b: Seq<u8>) -> bool {
    &&& a.len() < slashed(b).len()
    &&& slashed(b)[a.len() as int] == 47
    &&& a == slashed(b).subrange(0, a.len() as int)
}

/// What the guard decides for one attempted bookmark creation.
#[derive(PartialEq, Eq, Debug)]
pub enum HookDecision {
    /// Creation is allowed.
    Accepted,
    /// The new bookmark is a path prefix of an existing bookmark.
    RejectedPrefixOfExisting,
    /// An existing bookmark (the field) is a path prefix of the new one.
    RejectedAncestorExists { ancestor: Vec<u8> },
}

/// Configuration: an optional message shown instead of the default
/// explanation when a creation is rejected.
pub struct BlockNewBookmarkCreationsByPrefixConfig {
    pub message: Option<Vec<u8>>,
}

/// The guard itself, holding its configuration.
pub struct BlockNewBookmarkCreationsByPrefixHook {
    config: BlockNewBookmarkCreationsByPrefixConfig,
}

impl BlockNewBookmarkCreationsByPrefixHook {
    /// Builds the guard from a borrowed configuration.
    pub fn new(config: &BlockNewBookmarkCreationsByPrefixConfig) -> (r: Result<
        BlockNewBookmarkCreationsByPrefixHook,
        (),
    >)
        ensures
            match r {
                Ok(h) => h.message_view() == (match config.message {
                    Some(m) => Some(m@),
                    None => None::<Seq<u8>>,
                }),
                Err(_) => false,
            },
    {
        let message = match &config.message {
            Some(m) => Some(clone_bytes(m)),
            None => None,
        };
        Self::with_config(BlockNewBookmarkCreationsByPrefixConfig { message })
    }

    /// Builds the guard from an owned configuration.
    pub fn with_config(config: BlockNewBookmarkCreationsByPrefixConfig) -> (r: Result<
        BlockNewBookmarkCreationsByPrefixHook,
        (),
    >)
        ensures
            match r {
                Ok(h) => h.message_view() == (match config.message {
                    Some(m) => Some(m@),
                    None => None::<Seq<u8>>,
                }),
                Err(_) => false,
            },
    {
        Ok(BlockNewBookmarkCreationsByPrefixHook { config })
    }

    /// The configured rejection message, if any.
    pub closed spec fn message_view(&self) -> Option<Seq<u8>> {
        match self.config.message {
            Some(m) => Some(m@),
            None => None,
        }
    }

    /// The configured rejection message, if any.
    pub fn message(&self) -> (r: Option<&Vec<u8>>)
        ensures
            match r {
                Some(m) => self.message_view() == Some(m@),
                None => self.message_view() is None,
            },
    {
        match &self.config.message {
            Some(m) => Some(m),
            None => None,
        }
    }

    /// Decides whether creating `bookmark` is allowed, given whether it is
    /// new and the names of the existing bookmarks. A bookmark that is not
    /// new is always accepted; a new one is rejected when it is a path
    /// prefix of an existing bookmark, or when one of its path-boundary
    /// prefixes already exists (the shortest such prefix is reported).
    pub fn check_bookmark_creation(
        &self,
        bookmark: &Vec<u8>,
        is_new: bool,
        existing: &Vec<Vec<u8>>,
    ) -> (r: HookDecision)
        ensures
            !is_new ==> r == HookDecision::Accepted,
            is_new && (exists|i: int|
                0 <= i < existing@.len() && bytes_prefix(
                    slashed(bookmark@),
                    (#[trigger] existing@[i])@,
                )) ==> r == HookDecision::RejectedPrefixOfExisting,
            is_new && !(exists|i: int|
                0 <= i < existing@.len() && bytes_prefix(
                    slashed(bookmark@),
                    (#[trigger] existing@[i])@,
                )) ==> match r {
                HookDecision::Accepted => !(exists|a: Seq<u8>, i: int|
                    #![trigger boundary_prefix(a, bookmark@), existing@[i]]
                    boundary_prefix(a, bookmark@) && 0 <= i < existing@.len() && (existing@[i])@
                        == a),
                HookDecision::RejectedAncestorExists { ancestor } => boundary_prefix(
                    ancestor@,
                    bookmark@,
                ) && (exists|i: int|
                    0 <= i < existing@.len() && (#[trigger] existing@[i])@ == ancestor@),
                HookDecision::RejectedPrefixOfExisting => false,
            },
    {
        if !is_new {
            return HookDecision::Accepted;
        }
        let mut slashed_bm = clone_bytes(bookmark);
        let needs_slash = slashed_bm.len() == 0 || slashed_bm[slashed_bm.len() - 1] != 47;
        if needs_slash {
            slashed_bm.push(47);
        }
        proof {
            assert(slashed_bm@ == slashed(bookmark@));
        }
        let mut i: usize = 0;
        while i < existing.len()
            invariant
                is_new,
                slashed_bm@ == slashed(bookmark@),
                i <= existing@.len(),
                forall|j: int|
                    0 <= j < i ==> !bytes_prefix(slashed(bookmark@), (#[trigger] existing@[j])@),
            decreases existing@.len() - i,
        {
            if bytes_starts_with(&existing[i], &slashed_bm) {
                return HookDecision::RejectedPrefixOfExisting;
            }
            i = i + 1;
        }
        // Walk the path-boundary prefixes, shortest first.
        let mut pos: usize = 0;
        while pos < slashed_bm.len()
            invariant
                is_new,
                slashed_bm@ == slashed(bookmark@),
                pos <= slashed_bm@.len(),
                forall|j: int|
                    0 <= j < existing@.len() ==> !bytes_prefix(
                        slashed(bookmark@),
                        (#[trigger] existing@[j])@,
                    ),
                forall|a: Seq<u8>|
                    #[trigger] boundary_prefix(a, bookmark@) && a.len() < pos ==> !(exists|i2: int|
                        0 <= i2 < existing@.len() && (#[trigger] existing@[i2])@ == a),
            decreases slashed_bm@.len() - pos,
        {
            if slashed_bm[pos] == 47 {
                // Candidate ancestor: the bytes before this separator.
                let mut cand: Vec<u8> = Vec::new();
                let mut c: usize = 0;
                while c < pos
                    invariant
                        c <= pos,
                        pos < slashed_bm@.len(),
                        cand@ =~= slashed_bm@.subrange(0, c as int),
                    decreases pos - c,
                {
                    cand.push(slashed_bm[c]);
                    c = c + 1;
                    proof {
                        assert(cand@ =~= slashed_bm@.subrange(0, c as int));
                    }
                }
                proof {
                    assert(boundary_prefix(cand@, bookmark@));
                }
                let mut i2: usize = 0;
                while i2 < existing.len()
                    invariant
                        is_new,
                        cand@ == slashed(bookmark@).subrange(0, cand@.len() as int),
                        slashed_bm@ == slashed(bookmark@),
                        pos < slashed_bm@.len(),
                        cand@.len() == pos,
                        slashed(bookmark@)[pos as int] == 47,
                        i2 <= existing@.len(),
                        forall|j: int| 0 <= j < i2 ==> (#[trigger] existing@[j])@ != cand@,
                        forall|j: int|
                            0 <= j < existing@.len() ==> !bytes_prefix(
                                slashed(bookmark@),
                                (#[trigger] existing@[j])@,
                            ),
                    decreases existing@.len() - i2,
                {
                    if bytes_eq(&existing[i2], &cand) {
                        proof {
                            assert(boundary_prefix(cand@, bookmark@));
                        }
                        return HookDecision::RejectedAncestorExists { ancestor: cand };
                    }
                    i2 = i2 + 1;
                }
                proof {
                    assert forall|a: Seq<u8>|
                        #[trigger] boundary_prefix(a, bookmark@) && a.len() < pos + 1 implies !(
                    exists|j: int| 0 <= j < existing@.len() && (#[trigger] existing@[j])@ == a) by {
                        if a.len() == pos {
                            assert(a =~= cand@);
                        }
                    }
                }
            } else {
                proof {
                    assert forall|a: Seq<u8>|
                        #[trigger] boundary_prefix(a, bookmark@) && a.len() < pos + 1 implies !(
                    exists|j: int| 0 <= j < existing@.len() && (#[trigger] existing@[j])@ == a) by {
                        if a.len() == pos {
                            assert(slashed(bookmark@)[pos as int] == 47);
                        }
                    }
                }
            }
            pos = pos + 1;
        }
        proof {
            assert forall|a: Seq<u8>, j: int|
                #![trigger boundary_prefix(a, bookmark@), existing@[j]]
                boundary_prefix(a, bookmark@) && 0 <= j < existing@.len() implies (existing@[j])@
                != a by {
                assert(a.len() < slashed(bookmark@).len());
            }
        }
        HookDecision::Accepted
    }
}

} // verus!
