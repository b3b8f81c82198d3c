//! Root filtering for directory-diff results: whether a path falls under
//! the included roots and outside the excluded ones.

use vstd::prelude::*;

use crate::bytepath::is_prefix;
use crate::bytepath::matches_prefix;

verus! {

/// Some root of `roots` is an ancestor-or-self of `path`.
pub open spec fn under_some_root(path: Seq<Seq<u8>>, roots: Seq<Seq<Seq<u8>>>) -> bool {
    exists|i: int| 0 <= i < roots.len() && is_prefix(#[trigger] roots[i], path)
}

/// Whether any of `roots` is an ancestor-or-self of `path`.
fn path_under_roots(path: &Vec<Vec<u8>>, roots: &Vec<Vec<Vec<u8>>>) -> (r: bool)
    ensures
        r == under_some_root(path.deep_view(), roots.deep_view()),
{
    let mut i: usize = 0;
    while i < roots.len()
        invariant
            i <= roots@.len(),
            forall|j: int|
                0 <= j < i ==> !is_prefix(#[trigger] roots.deep_view()[j], path.deep_view()),
        decreases roots@.len() - i,
    {
        let root = &roots[i];
        if root.len() <= path.len() && matches_prefix(root, path, root.len()) {
            proof {
                assert(roots.deep_view()[i as int] == roots@[i as int].deep_view());
                assert(is_prefix(roots.deep_view()[i as int], path.deep_view()));
            }
            return true;
        }
        proof {
            assert(roots.deep_view()[i as int] == roots@[i as int].deep_view());
            assert(roots.deep_view()[i as int].len() == roots@[i as int]@.len());
            assert(!is_prefix(roots.deep_view()[i as int], path.deep_view()));
        }
        i = i + 1;
    }
    false
}

/// One parsed line of a directory diff: a status byte and the path it
/// concerns.
pub struct DiffDirsEntry {
    pub status: u8,
    pub path: Vec<Vec<u8>>,
}

/// A collected directory diff: the entries that passed the root filters,
/// or a marker that more than the permitted number did.
pub enum SaplingGetDiffDirsResult {
    Normal(Vec<DiffDirsEntry>),
    TooManyChanges,
}

/// The deep view of optional filter roots.
pub open spec fn roots_view(roots: Option<Vec<Vec<Vec<u8>>>>) -> Option<Seq<Seq<Seq<u8>>>> {
    match roots {
        Some(v) => Some(v.deep_view()),
        None => None,
    }
}

/// Whether a diff entry passes the root filters.
pub open spec fn entry_included(
    e: DiffDirsEntry,
    included: Option<Seq<Seq<Seq<u8>>>>,
    excluded: Option<Seq<Seq<Seq<u8>>>>,
) -> bool {
    &&& match included {
        Some(rs) => under_some_root(e.path.deep_view(), rs),
        None => true,
    }
    &&& match excluded {
        Some(rs) => !under_some_root(e.path.deep_view(), rs),
        None => true,
    }
}

/// Folds parsed diff lines under the root filters: the entries that pass,
/// in order, or `TooManyChanges` once more than `limit_results` pass.
pub fn collect_diff_dirs(
    entries: Vec<DiffDirsEntry>,
    limit_results: usize,
    included_roots: &Option<Vec<Vec<Vec<u8>>>>,
    excluded_roots: &Option<Vec<Vec<Vec<u8>>>>,
) -> (r: SaplingGetDiffDirsResult)
    ensures
        ({
            let flt = entries@.filter(
                |e: DiffDirsEntry|
                    entry_included(e, roots_view(*included_roots), roots_view(*excluded_roots)),
            );
            match r {
                SaplingGetDiffDirsResult::Normal(v) => v@ == flt && flt.len() <= limit_results,
                SaplingGetDiffDirsResult::TooManyChanges => flt.len() > limit_results,
            }
        }),
{
    let ghost pred = |e: DiffDirsEntry|
        entry_included(e, roots_view(*included_roots), roots_view(*excluded_roots));
    let ghost all = entries@;
    let mut rest = entries;
    let mut kept: Vec<DiffDirsEntry> = Vec::new();
    let ghost mut k: int = 0;
    while rest.len() > 0
        invariant
            0 <= k <= all.len(),
            rest@ == all.subrange(k, all.len() as int),
            kept@ == all.subrange(0, k).filter(pred),
            pred == (|e: DiffDirsEntry|
                entry_included(e, roots_view(*included_roots), roots_view(*excluded_roots))),
        decreases rest@.len(),
    {
        let e = rest.remove(0);
        proof {
            assert(e == all[k]);
            assert(rest@ =~= all.subrange(k + 1, all.len() as int));
        }
        let keep = is_path_included(&e.path, included_roots, excluded_roots);
        proof {
            assert(keep == pred(all[k]));
            assert(all.subrange(0, k + 1).drop_last() =~= all.subrange(0, k));
            assert(all.subrange(0, k + 1).last() == all[k]);
        }
        if keep {
            kept.push(e);
        }
        proof {
            let s1 = all.subrange(0, k + 1);
            assert(s1.len() == k + 1);
            assert(s1.drop_last() == all.subrange(0, k)) by {
                assert(s1.drop_last() =~= all.subrange(0, k));
            }
            assert(s1.last() == all[k]);
            reveal_with_fuel(Seq::filter, 2);
            assert(s1.filter(pred) == (if pred(s1.last()) {
                s1.drop_last().filter(pred).push(s1.last())
            } else {
                s1.drop_last().filter(pred)
            }));
            assert(kept@ =~= s1.filter(pred));
            k = k + 1;
        }
    }
    proof {
        assert(all.subrange(0, all.len() as int) =~= all);
    }
    if kept.len() > limit_results {
        SaplingGetDiffDirsResult::TooManyChanges
    } else {
        SaplingGetDiffDirsResult::Normal(kept)
    }
}

/// Whether `path` passes the root filters: it must lie under one of the
/// included roots (when given) and under none of the excluded roots (when
/// given).
pub fn is_path_included(
    path: &Vec<Vec<u8>>,
    included_roots: &Option<Vec<Vec<Vec<u8>>>>,
    excluded_roots: &Option<Vec<Vec<Vec<u8>>>>,
) -> (r: bool)
    ensures
        r == {
            &&& match included_roots {
                Some(roots) => under_some_root(path.deep_view(), roots.deep_view()),
                None => true,
            }
            &&& match excluded_roots {
                Some(roots) => !under_some_root(path.deep_view(), roots.deep_view()),
                None => true,
            }
        },
{
    let included = match included_roots {
        Some(roots) => path_under_roots(path, roots),
        None => true,
    };
    if !included {
        return false;
    }
    match excluded_roots {
        Some(roots) => !path_under_roots(path, roots),
        None => true,
    }
}

} // verus!
