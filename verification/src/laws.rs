//! Laws relating the walk-tree operations: containment of lookups within
//! a covering walk, idempotence of insertion, file-over-directory
//! domination, and what one garbage collection keeps and removes.

use vstd::prelude::*;

use crate::Walk;
use crate::WalkType;
use crate::bytepath::is_prefix;
use crate::node::NodeView;
use crate::tree::TreeModel;
use crate::tree::advanced_set;
use crate::tree::covered;
use crate::tree::covers;
use crate::tree::expired;
use crate::tree::gc_post;
use crate::tree::insert_post;
use crate::tree::insert_result;
use crate::tree::lookup_from;
use crate::tree::lookup_spec;
use crate::tree::round_rnode;
use crate::tree::with_path_nodes;

verus! {

/// While no prefix of `q` shorter than `n` components covers `q`, the
/// root-to-leaf search result is the same whether it starts at prefix
/// length `i` or at `n`.
proof fn lemma_lookup_skip(m: TreeModel, k: WalkType, q: Seq<Seq<u8>>, i: nat, n: nat)
    requires
        i <= n <= q.len(),
        forall|j: int| i <= j < n ==> !covers(m, k, #[trigger] q.subrange(0, j), q, 0),
    ensures
        lookup_from(m, k, q, i) == lookup_from(m, k, q, n),
    decreases n - i,
{
    if i < n {
        let p = q.subrange(0, i as int);
        assert(!covers(m, k, p, q, 0));
        assert(is_prefix(p, q)) by {
            assert(p =~= q.subrange(0, p.len() as int));
        }
        assert(lookup_from(m, k, q, i) == lookup_from(m, k, q, i + 1));
        lemma_lookup_skip(m, k, q, i + 1, n);
    }
}

/// Containment: when the dominating walk of kind `k` at ancestor `a`
/// covers the descendant path `q`, and no walk strictly above `a` does,
/// a lookup of `q` returns exactly that walk — never a lesser one rooted
/// deeper.
pub proof fn lemma_containment(
    m: TreeModel,
    k: WalkType,
    a: Seq<Seq<u8>>,
    q: Seq<Seq<u8>>,
    w: Walk,
)
    requires
        m.dom().contains(a),
        m[a].dominating(k) == Some(w),
        is_prefix(a, q),
        q.len() - a.len() <= w.depth,
        forall|p: Seq<Seq<u8>>|
            is_prefix(p, q) && p.len() < a.len() ==> !(#[trigger] covers(m, k, p, q, 0)),
    ensures
        lookup_spec(m, k, q) == Some(w),
{
    assert forall|j: int| 0 <= j < a.len() implies !covers(
        m,
        k,
        #[trigger] q.subrange(0, j),
        q,
        0,
    ) by {
        assert(is_prefix(q.subrange(0, j), q)) by {
            assert(q.subrange(0, j) =~= q.subrange(0, q.subrange(0, j).len() as int));
        }
    }
    lemma_lookup_skip(m, k, q, 0, a.len());
    assert(q.subrange(0, a.len() as int) == a) by {
        assert(a =~= q.subrange(0, a.len() as int));
    }
    assert(lookup_from(m, k, q, a.len()) == Some((a.len(), w)));
}

/// Idempotence: inserting the identical walk twice leaves the tree as it
/// was after the first insertion. For a directory walk this needs the
/// root to carry no file walk beforehand: a shallower file walk would
/// shadow the directory walk in the dominating-walk check and let the
/// second insertion run again.
pub proof fn lemma_insert_idempotent(
    t0: TreeModel,
    t1: TreeModel,
    t2: TreeModel,
    k: WalkType,
    r: Seq<Seq<u8>>,
    d: usize,
    thr: usize,
)
    requires
        insert_post(t0, t1, k, r, d, thr),
        insert_post(t1, t2, k, r, d, thr),
        k == WalkType::File || (t0.dom().contains(r) ==> t0[r].file_walk is None),
    ensures
        t2 == t1,
{
    if covered(t0, k, r, d as nat) {
        assert(t1 == t0);
    } else {
        let fd = choose|fd: usize| insert_result(t0, t1, k, r, d, thr, fd);
        assert(insert_result(t0, t1, k, r, d, thr, fd));
        assert(t1.dom().contains(r));
        assert(t1[r] == round_rnode(t0, k, r, fd));
        let base = with_path_nodes(t0, r)[r];
        assert(base.file_walk is None || k == WalkType::File) by {
            if k != WalkType::File {
                if t0.dom().contains(r) {
                    assert(base == t0[r]);
                } else {
                    assert(base == NodeView::empty());
                }
            }
        }
        assert(covers(t1, k, r, r, d as nat)) by {
            assert(is_prefix(r, r)) by {
                assert(r =~= r.subrange(0, r.len() as int));
            }
            match k {
                WalkType::File => {
                    assert(t1[r].file_walk == Some(Walk { depth: fd }));
                    assert(t1[r].dominating(k) == Some(Walk { depth: fd }));
                },
                WalkType::Directory => {
                    assert(t1[r].dir_walk == Some(Walk { depth: fd }));
                    assert(t1[r].file_walk is None);
                    assert(t1[r].dominating(k) == Some(Walk { depth: fd }));
                },
            }
            assert(d <= fd);
        }
        assert(covered(t1, k, r, d as nat));
        assert(t2 == t1);
    }
}

/// Domination: inserting a file walk of depth `d` at a root whose
/// directory walk is no deeper clears that directory walk, and directory
/// queries at the root are then answered by the new file walk.
pub proof fn lemma_domination(
    pre: TreeModel,
    post: TreeModel,
    r: Seq<Seq<u8>>,
    d: usize,
    thr: usize,
)
    requires
        insert_post(pre, post, WalkType::File, r, d, thr),
        !covered(pre, WalkType::File, r, d as nat),
        pre.dom().contains(r) ==> (pre[r].dir_walk matches Some(dw) ==> dw.depth <= d),
    ensures
        post.dom().contains(r),
        post[r].dir_walk is None,
        post[r].file_walk matches Some(fw) && fw.depth >= d,
        post[r].dominating(WalkType::Directory) == post[r].file_walk,
{
    let fd = choose|fd: usize| insert_result(pre, post, WalkType::File, r, d, thr, fd);
    assert(insert_result(pre, post, WalkType::File, r, d, thr, fd));
    assert(post[r] == round_rnode(pre, WalkType::File, r, fd));
    let base = with_path_nodes(pre, r)[r];
    assert(base.dir_walk matches Some(dw) ==> dw.depth <= d) by {
        if !pre.dom().contains(r) {
            assert(base == NodeView::empty());
        } else {
            assert(base == pre[r]);
        }
    }
    assert(d <= fd);
    assert(post[r].file_walk == Some(Walk { depth: fd }));
}

/// Garbage collection: a node whose whole subtree (itself included) is
/// expired is removed, unless it is the root; a node with a live
/// descendant is kept, cleared exactly when it is itself expired.
pub proof fn lemma_gc(
    pre: TreeModel,
    post: TreeModel,
    timeout: u64,
    now: u64,
    p: Seq<Seq<u8>>,
)
    requires
        gc_post(pre, post, timeout, now),
        pre.dom().contains(p),
    ensures
        (p.len() > 0 && forall|s: Seq<Seq<u8>>|
            #[trigger] pre.dom().contains(s) && is_prefix(p, s) ==> expired(pre[s], timeout, now))
            ==> !post.dom().contains(p),
        (exists|s: Seq<Seq<u8>>|
            #[trigger] pre.dom().contains(s) && is_prefix(p, s) && !expired(pre[s], timeout, now))
            ==> post.dom().contains(p) && post[p] == (if expired(pre[p], timeout, now) {
            NodeView::empty()
        } else {
            pre[p]
        }),
{
}

/// Promotion: a completed insertion ends at the first depth, counting up
/// from the requested one, at which fewer than `thr` children keep walk
/// state past the pruning frontier; every depth before it had at least
/// `thr` advanced children.
pub proof fn lemma_promotion(
    pre: TreeModel,
    post: TreeModel,
    k: WalkType,
    r: Seq<Seq<u8>>,
    d: usize,
    thr: usize,
    fd: usize,
)
    requires
        insert_result(pre, post, k, r, d, thr, fd),
    ensures
        d <= fd,
        forall|e: int| d <= e < fd ==> #[trigger] advanced_set(pre, k, r, e as nat).len() >= thr,
        advanced_set(pre, k, r, fd as nat).len() < thr,
        post[r].walk_of(k) == Some(Walk { depth: fd }),
{
    assert(post[r] == round_rnode(pre, k, r, fd));
}

} // verus!
