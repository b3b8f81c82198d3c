//! The walk trie: an arena of per-directory records addressed by index.
//!
//! Every record pairs a full path (a sequence of byte components) with a
//! [`WalkNode`]. The mathematical model is a finite map from paths to node
//! states; the arena keeps paths distinct and prefix-closed, with the root
//! (the empty path) always present.

use vstd::prelude::*;
use vstd::seq_lib::seq_to_set_is_finite;

use crate::Walk;
use crate::WalkType;
use crate::bytepath::clone_bytes;
use crate::bytepath::is_prefix;
use crate::bytepath::lemma_path_deep_view;
use crate::bytepath::matches_prefix;
use crate::bytepath::prefix_of;
use crate::node::NodeView;
use crate::node::WalkNode;

verus! {

/// The model of a whole tree: node state per path.
pub type TreeModel = Map<Seq<Seq<u8>>, NodeView>;

/// `p` names a node of `m` whose dominating walk for `k` covers `q` with
/// `extra` further levels below `q`.
pub open spec fn covers(m: TreeModel, k: WalkType, p: Seq<Seq<u8>>, q: Seq<Seq<u8>>, extra: nat) -> bool {
    &&& m.dom().contains(p)
    &&& is_prefix(p, q)
    &&& (m[p].dominating(k) matches Some(w) && w.depth >= q.len() - p.len() + extra)
}

/// Some node of `m` covers `q` (and `extra` levels below it) for kind `k`.
pub open spec fn covered(m: TreeModel, k: WalkType, q: Seq<Seq<u8>>, extra: nat) -> bool {
    exists|p: Seq<Seq<u8>>| covers(m, k, p, q, extra)
}

/// Walks `q`'s prefixes from length `i` upward and returns the first
/// (shortest) prefix whose dominating walk covers `q`, with that walk.
pub open spec fn lookup_from(m: TreeModel, k: WalkType, q: Seq<Seq<u8>>, i: nat) -> Option<(nat, Walk)>
    decreases q.len() - i,
{
    let p = q.subrange(0, i as int);
    let here = if m.dom().contains(p) {
        match m[p].dominating(k) {
            Some(w) => if w.depth >= q.len() - i {
                Some((i, w))
            } else {
                None
            },
            None => None,
        }
    } else {
        None
    };
    if here is Some {
        here
    } else if i >= q.len() {
        None
    } else {
        lookup_from(m, k, q, i + 1)
    }
}

/// The dominating walk covering `q`, found root-to-leaf: the walk of the
/// shortest covering prefix.
pub open spec fn lookup_spec(m: TreeModel, k: WalkType, q: Seq<Seq<u8>>) -> Option<Walk> {
    match lookup_from(m, k, q, 0) {
        Some((_n, w)) => Some(w),
        None => None,
    }
}

/// Per-node well-formedness within a tree: a directory walk coexisting
/// with a file walk is strictly deeper (else domination would have cleared
/// it), and walk depths stay addressable from the node's level.
pub open spec fn node_ok(n: NodeView, p: Seq<Seq<u8>>) -> bool {
    &&& match (n.file_walk, n.dir_walk) {
        (Some(f), Some(d)) => d.depth > f.depth,
        _ => true,
    }
    &&& (n.file_walk matches Some(w) ==> p.len() + w.depth <= usize::MAX)
    &&& (n.dir_walk matches Some(w) ==> p.len() + w.depth <= usize::MAX)
}

/// No ancestor's file walk fully contains a descendant's file walk: a
/// fully contained file walk is removed when its container is inserted.
/// (A directory walk can become shadowed by a later file walk at an
/// ancestor without being pruned, so only file walks obey this globally.)
pub open spec fn no_contained_walk(m: TreeModel) -> bool {
    forall|p: Seq<Seq<u8>>, q: Seq<Seq<u8>>|
        #[trigger] m.dom().contains(p) && #[trigger] m.dom().contains(q) && is_prefix(p, q)
            && p.len() < q.len() ==> match (m[p].file_walk, m[q].file_walk) {
            (Some(dp), Some(w)) => (dp.depth as int) < q.len() - p.len() + w.depth,
            _ => true,
        }
}

/// Every prefix of a present path is present: the tree has no dangling
/// records.
pub open spec fn prefix_closed(m: TreeModel) -> bool {
    forall|p: Seq<Seq<u8>>, i: int|
        #[trigger] m.dom().contains(p) && 0 <= i <= p.len() ==> m.dom().contains(
            #[trigger] p.subrange(0, i),
        )
}

/// Well-formedness of a tree model: finite, rooted, prefix-closed, with
/// per-node invariants and no contained walks.
pub open spec fn tree_wf(m: TreeModel) -> bool {
    &&& m.dom().finite()
    &&& m.dom().contains(Seq::<Seq<u8>>::empty())
    &&& prefix_closed(m)
    &&& forall|p: Seq<Seq<u8>>| #[trigger] m.dom().contains(p) ==> node_ok(m[p], p)
    &&& no_contained_walk(m)
}

/// In a prefix-closed tree, once a prefix of `q` is missing every longer
/// prefix is missing too, so the search below it finds nothing.
pub proof fn lemma_lookup_from_missing(m: TreeModel, k: WalkType, q: Seq<Seq<u8>>, i: nat)
    requires
        i <= q.len(),
        prefix_closed(m),
        !m.dom().contains(q.subrange(0, i as int)),
    ensures
        lookup_from(m, k, q, i) is None,
    decreases q.len() - i,
{
    if i < q.len() {
        assert(!m.dom().contains(q.subrange(0, i as int + 1))) by {
            if m.dom().contains(q.subrange(0, i as int + 1)) {
                assert(m.dom().contains(q.subrange(0, i as int + 1).subrange(0, i as int)));
                assert(q.subrange(0, i as int + 1).subrange(0, i as int) =~= q.subrange(
                    0,
                    i as int,
                ));
            }
        }
        lemma_lookup_from_missing(m, k, q, i + 1);
    }
}

/// The model of a tree after creating (empty) records for every missing
/// prefix of `q`.
pub open spec fn with_path_nodes(m: TreeModel, q: Seq<Seq<u8>>) -> TreeModel {
    Map::new(
        |p: Seq<Seq<u8>>| m.dom().contains(p) || is_prefix(p, q),
        |p: Seq<Seq<u8>>|
            if m.dom().contains(p) {
                m[p]
            } else {
                NodeView::empty()
            },
    )
}

/// The model of a tree after creating records for the proper prefixes of
/// `q` shorter than `n` components.
spec fn with_path_below(m: TreeModel, q: Seq<Seq<u8>>, n: int) -> TreeModel {
    Map::new(
        |p: Seq<Seq<u8>>| m.dom().contains(p) || (is_prefix(p, q) && p.len() < n),
        |p: Seq<Seq<u8>>|
            if m.dom().contains(p) {
                m[p]
            } else {
                NodeView::empty()
            },
    )
}

/// Adding the record for `q`'s prefix of length `n` moves the partial
/// creation one step onward.
proof fn lemma_path_below_step(m0: TreeModel, pre: TreeModel, post: TreeModel, q: Seq<Seq<u8>>, n: int)
    requires
        0 <= n <= q.len(),
        pre == with_path_below(m0, q, n),
        post == (if pre.dom().contains(q.subrange(0, n)) {
            pre
        } else {
            pre.insert(q.subrange(0, n), NodeView::empty())
        }),
    ensures
        post == with_path_below(m0, q, n + 1),
{
    let p0 = q.subrange(0, n);
    assert(is_prefix(p0, q));
    assert(post =~= with_path_below(m0, q, n + 1)) by {
        assert forall|p: Seq<Seq<u8>>| with_path_below(m0, q, n + 1).dom().contains(
            p,
        ) implies post.dom().contains(p) by {
            if !m0.dom().contains(p) && !(is_prefix(p, q) && p.len() < n) {
                assert(is_prefix(p, q) && p.len() == n);
                assert(p =~= p0);
            }
        }
    }
}

/// Creating empty records along a path preserves well-formedness.
pub proof fn lemma_wf_with_path_nodes(m: TreeModel, q: Seq<Seq<u8>>)
    requires
        tree_wf(m),
    ensures
        tree_wf(with_path_nodes(m, q)),
{
    let m1 = with_path_nodes(m, q);
    assert(m1.dom().finite()) by {
        let prefs = Seq::new(q.len() + 1, |i: int| q.subrange(0, i)).to_set();
        broadcast use seq_to_set_is_finite;

        assert(m1.dom() =~= m.dom().union(prefs)) by {
            assert forall|p: Seq<Seq<u8>>| m1.dom().contains(p) implies m.dom().union(
                prefs,
            ).contains(p) by {
                if !m.dom().contains(p) {
                    assert(is_prefix(p, q));
                    assert(Seq::new(q.len() + 1, |i: int| q.subrange(0, i))[p.len() as int] == p);
                }
            }
            assert forall|p: Seq<Seq<u8>>| m.dom().union(prefs).contains(p) implies m1.dom().contains(
                p,
            ) by {
                if prefs.contains(p) {
                    let s = Seq::new(q.len() + 1, |i: int| q.subrange(0, i));
                    let i = choose|i: int| 0 <= i < s.len() && #[trigger] s[i] == p;
                    assert(p == q.subrange(0, i));
                    assert(p =~= q.subrange(0, p.len() as int));
                }
            }
        }
    }
    assert forall|p: Seq<Seq<u8>>, i: int|
        #[trigger] m1.dom().contains(p) && 0 <= i <= p.len() implies m1.dom().contains(
        #[trigger] p.subrange(0, i),
    ) by {
        if m.dom().contains(p) {
            assert(m.dom().contains(p.subrange(0, i)));
        } else {
            assert(is_prefix(p, q));
            assert(p.subrange(0, i) =~= q.subrange(0, i));
            assert(is_prefix(p.subrange(0, i), q));
        }
    }
    assert forall|p: Seq<Seq<u8>>| #[trigger] m1.dom().contains(p) implies node_ok(m1[p], p) by {
        if m.dom().contains(p) {
            assert(node_ok(m[p], p));
        }
    }
    assert forall|p: Seq<Seq<u8>>, pq: Seq<Seq<u8>>|
        #[trigger] m1.dom().contains(p) && #[trigger] m1.dom().contains(pq) && is_prefix(p, pq)
            && p.len() < pq.len() implies match (m1[p].file_walk, m1[pq].file_walk) {
        (Some(dp), Some(w)) => (dp.depth as int) < pq.len() - p.len() + w.depth,
        _ => true,
    } by {
        if m.dom().contains(p) && m.dom().contains(pq) {
            assert(match (m[p].file_walk, m[pq].file_walk) {
                (Some(dp), Some(w)) => (dp.depth as int) < pq.len() - p.len() + w.depth,
                _ => true,
            });
        }
    }
}

/// `q` lies strictly inside the subtree rooted at `r`.
pub open spec fn strictly_under(r: Seq<Seq<u8>>, q: Seq<Seq<u8>>) -> bool {
    is_prefix(r, q) && r.len() < q.len()
}

/// `q`'s level below `r`.
pub open spec fn sub_level(r: Seq<Seq<u8>>, q: Seq<Seq<u8>>) -> nat {
    (q.len() - r.len()) as nat
}

/// A node's state after pruning its kind-`k` walk where that walk is fully
/// contained within a walk of depth `frontier` rooted `lvl` levels above.
pub open spec fn pruned_node(n: NodeView, k: WalkType, lvl: nat, frontier: nat) -> NodeView {
    match n.walk_of(k) {
        Some(w) => if lvl + w.depth <= frontier {
            n.with_walk(k, None)
        } else {
            n
        },
        None => n,
    }
}

/// Child name `c` of `r` has advanced past pruning frontier `frontier`:
/// some node in `c`'s subtree, within the examined depth, has a kind-`k`
/// walk reaching at least one level beyond the frontier.
pub open spec fn subtree_advanced(
    m: TreeModel,
    k: WalkType,
    r: Seq<Seq<u8>>,
    c: Seq<u8>,
    frontier: nat,
) -> bool {
    exists|q: Seq<Seq<u8>>|
        #[trigger] m.dom().contains(q) && is_prefix(r.push(c), q) && sub_level(r, q) <= frontier + 1
            && (m[q].walk_of(k) matches Some(w) && sub_level(r, q) + w.depth >= frontier + 1)
}

/// The advanced children of `r` at pruning frontier `frontier`.
pub open spec fn advanced_set(m: TreeModel, k: WalkType, r: Seq<Seq<u8>>, frontier: nat) -> Set<
    Seq<u8>,
> {
    Set::new(|c: Seq<u8>| subtree_advanced(m, k, r, c, frontier))
}

/// The state of `r`'s own node after an insertion round at depth `e`: the
/// kind-`k` walk set to `e` (with domination applied) and the advanced
/// children recomputed for frontier `e`.
pub open spec fn round_rnode(pre: TreeModel, k: WalkType, r: Seq<Seq<u8>>, e: usize) -> NodeView {
    let base = with_path_nodes(pre, r)[r].with_walk(k, Some(Walk { depth: e }));
    match k {
        WalkType::File => NodeView {
            advanced_file_children: advanced_set(pre, k, r, e as nat),
            ..base
        },
        WalkType::Directory => NodeView {
            advanced_dir_children: advanced_set(pre, k, r, e as nat),
            ..base
        },
    }
}

/// How the tree after an insertion round at depth `e` relates to the tree
/// `pre` seen at the start of the insertion: missing records on the way to
/// `r` created, `r`'s node updated, contained kind-`k` walks below `r`
/// pruned, and only records emptied by that pruning dropped.
pub open spec fn round_done(
    pre: TreeModel,
    cur: TreeModel,
    k: WalkType,
    r: Seq<Seq<u8>>,
    e: usize,
    thr: usize,
) -> bool {
    let created = with_path_nodes(pre, r);
    &&& cur.dom().subset_of(created.dom())
    &&& cur.dom().contains(r)
    &&& cur[r] == round_rnode(pre, k, r, e)
    &&& forall|q: Seq<Seq<u8>>|
        #[trigger] created.dom().contains(q) && !strictly_under(r, q) ==> cur.dom().contains(q) && (
        q != r ==> cur[q] == created[q])
    &&& forall|q: Seq<Seq<u8>>|
        #[trigger] cur.dom().contains(q) && strictly_under(r, q) ==> pre.dom().contains(q) && cur[q]
            == pruned_node(pre[q], k, sub_level(r, q), e as nat)
    &&& forall|q: Seq<Seq<u8>>|
        #[trigger] created.dom().contains(q) && strictly_under(r, q) && !cur.dom().contains(q)
            ==> sub_level(r, q) <= e + 1 && pruned_node(
            pre[q],
            k,
            sub_level(r, q),
            e as nat,
        ).removable(thr)
}

/// Arena record `jj` of `t` contributes child name `c` as advanced at
/// pruning frontier `depth` below the node at path `r`.
spec fn entry_advances(
    t: WalkTree,
    k: WalkType,
    r: Seq<Seq<u8>>,
    jj: int,
    depth: nat,
    c: Seq<u8>,
) -> bool {
    &&& 0 <= jj < t.entry_count()
    &&& strictly_under(r, t.path_at(jj))
    &&& sub_level(r, t.path_at(jj)) <= depth + 1
    &&& (t.node_at(jj).walk_of(k) matches Some(w) && sub_level(r, t.path_at(jj)) + w.depth >= depth
        + 1)
    &&& c == t.path_at(jj)[r.len() as int]
}

/// The full effect of one insertion, ending at promoted depth `fd`: every
/// frontier from the requested depth up to `fd` had at least `thr`
/// advanced children, and `fd` is the first that does not.
pub open spec fn insert_result(
    pre: TreeModel,
    post: TreeModel,
    k: WalkType,
    r: Seq<Seq<u8>>,
    d: usize,
    thr: usize,
    fd: usize,
) -> bool {
    &&& d <= fd
    &&& forall|e: int|
        d <= e < fd ==> #[trigger] advanced_set(pre, k, r, e as nat).len() >= thr
    &&& advanced_set(pre, k, r, fd as nat).len() < thr
    &&& round_done(pre, post, k, r, fd, thr)
}

/// Advanced children depend only on the subtree's kind-`k` walks, so trees
/// agreeing there have the same advanced children.
proof fn lemma_advanced_same_subtree(
    m1: TreeModel,
    m2: TreeModel,
    k: WalkType,
    r: Seq<Seq<u8>>,
    f: nat,
)
    requires
        forall|p: Seq<Seq<u8>>|
            #![trigger m1.dom().contains(p)]
            #![trigger m2.dom().contains(p)]
            strictly_under(r, p) ==> (m1.dom().contains(p) == m2.dom().contains(p)) && (
            m1.dom().contains(p) ==> m1[p].walk_of(k) == m2[p].walk_of(k)),
    ensures
        advanced_set(m1, k, r, f) == advanced_set(m2, k, r, f),
{
    assert(advanced_set(m1, k, r, f) =~= advanced_set(m2, k, r, f)) by {
        assert forall|c: Seq<u8>| #[trigger] subtree_advanced(m1, k, r, c, f) implies subtree_advanced(
            m2,
            k,
            r,
            c,
            f,
        ) by {
            let q = choose|q: Seq<Seq<u8>>|
                #[trigger] m1.dom().contains(q) && is_prefix(r.push(c), q) && sub_level(r, q) <= f
                    + 1 && (m1[q].walk_of(k) matches Some(w) && sub_level(r, q) + w.depth >= f + 1);
            assert(strictly_under(r, q)) by {
                assert(r =~= q.subrange(0, r.len() as int));
            }
            assert(m2.dom().contains(q) && m2[q].walk_of(k) == m1[q].walk_of(k));
        }
        assert forall|c: Seq<u8>| #[trigger] subtree_advanced(m2, k, r, c, f) implies subtree_advanced(
            m1,
            k,
            r,
            c,
            f,
        ) by {
            let q = choose|q: Seq<Seq<u8>>|
                #[trigger] m2.dom().contains(q) && is_prefix(r.push(c), q) && sub_level(r, q) <= f
                    + 1 && (m2[q].walk_of(k) matches Some(w) && sub_level(r, q) + w.depth >= f + 1);
            assert(strictly_under(r, q)) by {
                assert(r =~= q.subrange(0, r.len() as int));
            }
            assert(m1.dom().contains(q) && m1[q].walk_of(k) == m2[q].walk_of(k));
        }
    }
}

/// Pruning at an earlier frontier removes no walk that still advances past
/// a later one, so the advanced children at the later frontier are
/// unchanged.
proof fn lemma_advanced_after_prune(
    pre: TreeModel,
    cur: TreeModel,
    k: WalkType,
    r: Seq<Seq<u8>>,
    e_prev: usize,
    thr: usize,
    f: nat,
)
    requires
        round_done(pre, cur, k, r, e_prev, thr),
        f > e_prev,
    ensures
        advanced_set(cur, k, r, f) == advanced_set(pre, k, r, f),
{
    let created = with_path_nodes(pre, r);
    assert(advanced_set(cur, k, r, f) =~= advanced_set(pre, k, r, f)) by {
        assert forall|c: Seq<u8>| #[trigger] subtree_advanced(cur, k, r, c, f) implies subtree_advanced(
            pre,
            k,
            r,
            c,
            f,
        ) by {
            let q = choose|q: Seq<Seq<u8>>|
                #[trigger] cur.dom().contains(q) && is_prefix(r.push(c), q) && sub_level(r, q) <= f
                    + 1 && (cur[q].walk_of(k) matches Some(w) && sub_level(r, q) + w.depth >= f + 1);
            assert(strictly_under(r, q)) by {
                assert(r =~= q.subrange(0, r.len() as int));
            }
            assert(pre.dom().contains(q));
            assert(cur[q] == pruned_node(pre[q], k, sub_level(r, q), e_prev as nat));
            assert(pre[q].walk_of(k) == cur[q].walk_of(k)) by {
                match pre[q].walk_of(k) {
                    Some(w) => {
                        if sub_level(r, q) + w.depth <= e_prev {
                            assert(cur[q] == pre[q].with_walk(k, None));
                            assert(cur[q].walk_of(k) is None);
                            assert(false);
                        }
                    },
                    None => {},
                }
            }
        }
        assert forall|c: Seq<u8>| #[trigger] subtree_advanced(pre, k, r, c, f) implies subtree_advanced(
            cur,
            k,
            r,
            c,
            f,
        ) by {
            let q = choose|q: Seq<Seq<u8>>|
                #[trigger] pre.dom().contains(q) && is_prefix(r.push(c), q) && sub_level(r, q) <= f
                    + 1 && (pre[q].walk_of(k) matches Some(w) && sub_level(r, q) + w.depth >= f + 1);
            let w = pre[q].walk_of(k)->Some_0;
            assert(strictly_under(r, q)) by {
                assert(r =~= q.subrange(0, r.len() as int));
            }
            assert(created.dom().contains(q));
            assert(cur.dom().contains(q)) by {
                if !cur.dom().contains(q) {
                    assert(pruned_node(pre[q], k, sub_level(r, q), e_prev as nat).removable(thr));
                    assert(sub_level(r, q) + w.depth <= e_prev) by {
                        if sub_level(r, q) + w.depth > e_prev {
                            assert(pruned_node(pre[q], k, sub_level(r, q), e_prev as nat) == pre[q]);
                        }
                    }
                }
            }
            assert(cur[q] == pruned_node(pre[q], k, sub_level(r, q), e_prev as nat));
            assert(cur[q].walk_of(k) == pre[q].walk_of(k)) by {
                if sub_level(r, q) + w.depth > e_prev {
                    assert(pruned_node(pre[q], k, sub_level(r, q), e_prev as nat) == pre[q]);
                }
            }
        }
    }
}

/// Setting a deeper walk of the same kind on top of a shallower one gives
/// the same node as setting the deeper walk directly.
proof fn lemma_with_walk_compose(n: NodeView, k: WalkType, a: usize, b: usize)
    requires
        a <= b,
    ensures
        n.with_walk(k, Some(Walk { depth: a })).with_walk(k, Some(Walk { depth: b })) == n.with_walk(
            k,
            Some(Walk { depth: b }),
        ),
{
    assert(n.with_walk(k, Some(Walk { depth: a })).with_walk(k, Some(Walk { depth: b })) =~= n.with_walk(
        k,
        Some(Walk { depth: b }),
    ));
}

/// Pruning at a later frontier on top of an earlier one equals pruning at
/// the later frontier directly.
proof fn lemma_pruned_compose(n: NodeView, k: WalkType, lvl: nat, a: nat, b: nat)
    requires
        a <= b,
    ensures
        pruned_node(pruned_node(n, k, lvl, a), k, lvl, b) == pruned_node(n, k, lvl, b),
{
}

/// A node removable after pruning at an earlier frontier is removable
/// after pruning at a later one.
proof fn lemma_removable_later(n: NodeView, k: WalkType, lvl: nat, a: nat, b: nat, thr: usize)
    requires
        a <= b,
        pruned_node(n, k, lvl, a).removable(thr),
    ensures
        pruned_node(n, k, lvl, b).removable(thr),
{
}

/// The contract of inserting a walk of depth `d` of kind `k` at `r`: a
/// no-op when an existing dominating walk already covers the would-be
/// coverage, else an insertion ending at some promoted depth.
pub open spec fn insert_post(
    pre: TreeModel,
    post: TreeModel,
    k: WalkType,
    r: Seq<Seq<u8>>,
    d: usize,
    thr: usize,
) -> bool {
    if covered(pre, k, r, d as nat) {
        post == pre
    } else {
        exists|fd: usize| insert_result(pre, post, k, r, d, thr, fd)
    }
}

/// A node is expired when it was never accessed, or its last access lies
/// at least `timeout` before `now` (times in caller-chosen units,
/// typically milliseconds).
pub open spec fn expired(n: NodeView, timeout: u64, now: u64) -> bool {
    match n.last_access {
        None => true,
        Some(la) => now >= la && now - la >= timeout,
    }
}

/// Garbage collection keeps `p` when some node at or below it is not
/// expired (the root is kept regardless).
pub open spec fn gc_keep(m: TreeModel, p: Seq<Seq<u8>>, timeout: u64, now: u64) -> bool {
    exists|s: Seq<Seq<u8>>|
        #[trigger] m.dom().contains(s) && is_prefix(p, s) && !expired(m[s], timeout, now)
}

/// The full effect of one garbage collection: expired records with no
/// live node below them are dropped (the root is only ever cleared), kept
/// expired records are cleared, and unexpired records are untouched.
pub open spec fn gc_post(pre: TreeModel, post: TreeModel, timeout: u64, now: u64) -> bool {
    &&& post.dom() == Set::new(
        |p: Seq<Seq<u8>>|
            pre.dom().contains(p) && (p.len() == 0 || gc_keep(pre, p, timeout, now)),
    )
    &&& forall|p: Seq<Seq<u8>>|
        #[trigger] post.dom().contains(p) ==> post[p] == (if expired(pre[p], timeout, now) {
            NodeView::empty()
        } else {
            pre[p]
        })
}

/// A garbage collection that satisfies [`gc_post`] preserves tree
/// well-formedness.
proof fn lemma_gc_wf(pre: TreeModel, post: TreeModel, timeout: u64, now: u64)
    requires
        tree_wf(pre),
        gc_post(pre, post, timeout, now),
        post.dom().finite(),
    ensures
        tree_wf(post),
{
    assert(post.dom().contains(Seq::<Seq<u8>>::empty())) by {
        assert(pre.dom().contains(Seq::<Seq<u8>>::empty()));
        assert(Seq::<Seq<u8>>::empty().len() == 0);
    }
    assert(prefix_closed(post)) by {
        assert forall|p: Seq<Seq<u8>>, i: int|
            #[trigger] post.dom().contains(p) && 0 <= i <= p.len() implies post.dom().contains(
            #[trigger] p.subrange(0, i),
        ) by {
            assert(pre.dom().contains(p));
            assert(pre.dom().contains(p.subrange(0, i)));
            if i > 0 {
                assert(p.len() > 0);
                assert(gc_keep(pre, p, timeout, now));
                let s = choose|s: Seq<Seq<u8>>|
                    #[trigger] pre.dom().contains(s) && is_prefix(p, s) && !expired(
                        pre[s],
                        timeout,
                        now,
                    );
                assert(is_prefix(p.subrange(0, i), s)) by {
                    assert(p.subrange(0, i) =~= s.subrange(0, i));
                }
                assert(gc_keep(pre, p.subrange(0, i), timeout, now));
            } else {
                assert(p.subrange(0, 0) =~= Seq::<Seq<u8>>::empty());
            }
        }
    }
    assert forall|p: Seq<Seq<u8>>| #[trigger] post.dom().contains(p) implies node_ok(post[p], p) by {
        assert(pre.dom().contains(p));
        assert(node_ok(pre[p], p));
    }
    assert forall|p: Seq<Seq<u8>>, p2: Seq<Seq<u8>>|
        #[trigger] post.dom().contains(p) && #[trigger] post.dom().contains(p2) && is_prefix(p, p2)
            && p.len() < p2.len() implies match (post[p].file_walk, post[p2].file_walk) {
        (Some(dp), Some(w)) => (dp.depth as int) < p2.len() - p.len() + w.depth,
        _ => true,
    } by {
        if post[p].file_walk is Some && post[p2].file_walk is Some {
            assert(post[p] == pre[p]);
            assert(post[p2] == pre[p2]);
            assert(pre.dom().contains(p) && pre.dom().contains(p2));
            assert(match (pre[p].file_walk, pre[p2].file_walk) {
                (Some(dp), Some(w)) => (dp.depth as int) < p2.len() - p.len() + w.depth,
                _ => true,
            });
        }
    }
}

/// At the start of a promotion round, the advanced children computed on
/// the current tree equal those computed on the insertion's start state.
proof fn lemma_round_advanced(
    pre: TreeModel,
    created: TreeModel,
    m0: TreeModel,
    k: WalkType,
    q: Seq<Seq<u8>>,
    d: usize,
    dep: usize,
    thr: usize,
)
    requires
        created == with_path_nodes(pre, q),
        d <= dep,
        if dep == d {
            m0 == created
        } else {
            round_done(pre, m0, k, q, (dep - 1) as usize, thr)
        },
    ensures
        advanced_set(m0, k, q, dep as nat) == advanced_set(pre, k, q, dep as nat),
{
    if dep == d {
        assert forall|p: Seq<Seq<u8>>|
            #![trigger m0.dom().contains(p)]
            #![trigger pre.dom().contains(p)]
            strictly_under(q, p) implies (m0.dom().contains(p) == pre.dom().contains(p)) && (
        m0.dom().contains(p) ==> m0[p].walk_of(k) == pre[p].walk_of(k)) by {
            if is_prefix(p, q) {
                assert(p.len() <= q.len());
                assert(p.len() > q.len());
            }
        }
        lemma_advanced_same_subtree(m0, pre, k, q, dep as nat);
    } else {
        lemma_advanced_after_prune(pre, m0, k, q, (dep - 1) as usize, thr, dep as nat);
    }
}

/// A child advanced past frontier `dep` witnesses a stored walk whose
/// depth bound leaves headroom for one more promotion.
proof fn lemma_depth_headroom(pre: TreeModel, k: WalkType, q: Seq<Seq<u8>>, c: Seq<u8>, dep: usize)
    requires
        tree_wf(pre),
        subtree_advanced(pre, k, q, c, dep as nat),
    ensures
        q.len() + dep + 1 <= usize::MAX,
{
    let qq = choose|qq: Seq<Seq<u8>>|
        #[trigger] pre.dom().contains(qq) && is_prefix(q.push(c), qq) && sub_level(q, qq) <= dep
            as nat + 1 && (pre[qq].walk_of(k) matches Some(w) && sub_level(q, qq) + w.depth >= dep
            as nat + 1);
    assert(node_ok(pre[qq], qq));
    let w = pre[qq].walk_of(k)->Some_0;
    assert(qq.len() + w.depth <= usize::MAX) by {
        match k {
            WalkType::File => {},
            WalkType::Directory => {},
        }
    }
}

/// One promotion round — walk set at `q`, subtree pruned at frontier
/// `dep` (state `m0` to `m3`), then emptied records dropped (`m3` to
/// `m4`) — relates to the insertion's start `pre` as [`round_done`]
/// describes.
proof fn lemma_round_assemble(
    pre: TreeModel,
    created: TreeModel,
    m0: TreeModel,
    m3: TreeModel,
    m4: TreeModel,
    k: WalkType,
    q: Seq<Seq<u8>>,
    d: usize,
    dep: usize,
    thr: usize,
    advset: Set<Seq<u8>>,
)
    requires
        created == with_path_nodes(pre, q),
        d <= dep,
        if dep == d {
            m0 == created
        } else {
            round_done(pre, m0, k, q, (dep - 1) as usize, thr)
        },
        m0.dom().contains(q),
        m3.dom() == m0.dom(),
        m3[q] == (match k {
            WalkType::File => NodeView {
                advanced_file_children: advset,
                ..m0[q].with_walk(k, Some(Walk { depth: dep }))
            },
            WalkType::Directory => NodeView {
                advanced_dir_children: advset,
                ..m0[q].with_walk(k, Some(Walk { depth: dep }))
            },
        }),
        forall|p: Seq<Seq<u8>>|
            #[trigger] m0.dom().contains(p) && p != q ==> m3[p] == (if strictly_under(q, p) {
                pruned_node(m0[p], k, sub_level(q, p), dep as nat)
            } else {
                m0[p]
            }),
        advset == advanced_set(pre, k, q, dep as nat),
        m4.dom().subset_of(m3.dom()),
        forall|p: Seq<Seq<u8>>|
            #[trigger] m4.dom().contains(p) ==> m3.dom().contains(p) && m4[p] == m3[p],
        forall|p: Seq<Seq<u8>>|
            #[trigger] m3.dom().contains(p) && !strictly_under(q, p) ==> m4.dom().contains(p),
        forall|p: Seq<Seq<u8>>|
            #[trigger] m3.dom().contains(p) && !m4.dom().contains(p) ==> strictly_under(q, p)
                && sub_level(q, p) <= dep as nat + 1 && m3[p].removable(thr),
    ensures
        round_done(pre, m4, k, q, dep, thr),
{
    assert(m4[q] == m3[q]) by {
        assert(m3.dom().contains(q));
        assert(m4.dom().contains(q));
    }
    if dep == d {
        assert(m0[q] == created[q]);
        assert(m4[q] =~= round_rnode(pre, k, q, dep));
    } else {
        assert(m0[q] == round_rnode(pre, k, q, (dep - 1) as usize));
        lemma_with_walk_compose(created[q], k, (dep - 1) as usize, dep);
        assert(m4[q] =~= round_rnode(pre, k, q, dep));
    }
    assert(m4.dom().subset_of(created.dom())) by {
        assert forall|p: Seq<Seq<u8>>| m4.dom().contains(p) implies created.dom().contains(p) by {
            assert(m3.dom().contains(p));
            assert(m0.dom().contains(p));
            if dep != d {
                assert(m0.dom().subset_of(created.dom()));
            }
        }
    }
    assert forall|p: Seq<Seq<u8>>|
        #[trigger] created.dom().contains(p) && !strictly_under(q, p) implies m4.dom().contains(p)
        && (p != q ==> m4[p] == created[p]) by {
        if dep != d {
            assert(round_done(pre, m0, k, q, (dep - 1) as usize, thr));
        }
        assert(m0.dom().contains(p));
        if p != q {
            assert(m0[p] == created[p]);
            assert(m3[p] == m0[p]);
            assert(m3.dom().contains(p));
            assert(m4.dom().contains(p));
            assert(m4[p] == m3[p]);
        } else {
            assert(m3.dom().contains(q));
            assert(m4.dom().contains(q));
        }
    }
    assert forall|p: Seq<Seq<u8>>|
        #[trigger] m4.dom().contains(p) && strictly_under(q, p) implies pre.dom().contains(p)
        && m4[p] == pruned_node(pre[p], k, sub_level(q, p), dep as nat) by {
        assert(m3.dom().contains(p));
        assert(m4[p] == m3[p]);
        assert(p != q);
        assert(m0.dom().contains(p));
        assert(m3[p] == pruned_node(m0[p], k, sub_level(q, p), dep as nat));
        if dep == d {
            assert(created.dom().contains(p));
            assert(pre.dom().contains(p)) by {
                if !pre.dom().contains(p) {
                    assert(is_prefix(p, q));
                    assert(p.len() <= q.len());
                    assert(strictly_under(q, p));
                    assert(p.len() > q.len());
                }
            }
            assert(m0[p] == pre[p]);
        } else {
            assert(round_done(pre, m0, k, q, (dep - 1) as usize, thr));
            assert(m0[p] == pruned_node(pre[p], k, sub_level(q, p), (dep - 1) as nat));
            lemma_pruned_compose(pre[p], k, sub_level(q, p), (dep - 1) as nat, dep as nat);
        }
    }
    assert forall|p: Seq<Seq<u8>>|
        #[trigger] created.dom().contains(p) && strictly_under(q, p) && !m4.dom().contains(
        p,
    ) implies sub_level(q, p) <= dep as nat + 1 && pruned_node(
        pre[p],
        k,
        sub_level(q, p),
        dep as nat,
    ).removable(thr) by {
        if m3.dom().contains(p) {
            assert(p != q);
            assert(m0.dom().contains(p));
            assert(m3[p] == pruned_node(m0[p], k, sub_level(q, p), dep as nat));
            if dep == d {
                assert(pre.dom().contains(p)) by {
                    if !pre.dom().contains(p) {
                        assert(is_prefix(p, q));
                        assert(p.len() <= q.len());
                        assert(p.len() > q.len());
                    }
                }
                assert(m0[p] == pre[p]);
            } else {
                assert(round_done(pre, m0, k, q, (dep - 1) as usize, thr));
                assert(m0[p] == pruned_node(pre[p], k, sub_level(q, p), (dep - 1) as nat));
                lemma_pruned_compose(pre[p], k, sub_level(q, p), (dep - 1) as nat, dep as nat);
            }
            assert(m3[p].removable(thr));
        } else {
            assert(!m0.dom().contains(p));
            assert(dep != d) by {
                if dep == d {
                    assert(m0.dom().contains(p));
                }
            }
            assert(round_done(pre, m0, k, q, (dep - 1) as usize, thr));
            lemma_removable_later(pre[p], k, sub_level(q, p), (dep - 1) as nat, dep as nat, thr);
        }
    }
}

/// A completed insertion preserves tree well-formedness.
proof fn lemma_insert_wf(
    pre: TreeModel,
    created: TreeModel,
    post: TreeModel,
    k: WalkType,
    q: Seq<Seq<u8>>,
    d: usize,
    thr: usize,
    fd: usize,
)
    requires
        tree_wf(pre),
        created == with_path_nodes(pre, q),
        tree_wf(created),
        !covered(pre, k, q, d as nat),
        insert_result(pre, post, k, q, d, thr, fd),
        prefix_closed(post),
        post.dom().finite(),
        q.len() + fd <= usize::MAX,
    ensures
        tree_wf(post),
{
    let rnode = round_rnode(pre, k, q, fd);
    assert(post.dom().contains(Seq::<Seq<u8>>::empty())) by {
        assert(created.dom().contains(Seq::<Seq<u8>>::empty()));
        assert(!strictly_under(q, Seq::<Seq<u8>>::empty()));
    }
    assert(!covers(pre, k, q, q, d as nat));
    assert forall|p: Seq<Seq<u8>>| #[trigger] post.dom().contains(p) implies node_ok(post[p], p) by {
        if p == q {
            assert(post[q] == rnode);
            assert(node_ok(created[q], q));
            match k {
                WalkType::File => {
                    assert(rnode.file_walk == Some(Walk { depth: fd }));
                },
                WalkType::Directory => {
                    assert(rnode.dir_walk == Some(Walk { depth: fd }));
                    match created[q].file_walk {
                        Some(f) => {
                            assert(pre.dom().contains(q)) by {
                                if !pre.dom().contains(q) {
                                    assert(created[q] == NodeView::empty());
                                }
                            }
                            assert(created[q] == pre[q]);
                            assert(pre[q].dominating(k) == Some(f));
                            assert(is_prefix(q, q)) by {
                                assert(q =~= q.subrange(0, q.len() as int));
                            }
                            assert(f.depth < d);
                        },
                        None => {},
                    }
                },
            }
        } else if strictly_under(q, p) {
            assert(pre.dom().contains(p) && post[p] == pruned_node(
                pre[p],
                k,
                sub_level(q, p),
                fd as nat,
            ));
            assert(node_ok(pre[p], p));
        } else {
            assert(created.dom().contains(p)) by {
                assert(post.dom().subset_of(created.dom()));
            }
            assert(post[p] == created[p]);
            assert(node_ok(created[p], p));
        }
    }
    assert forall|p: Seq<Seq<u8>>, p2: Seq<Seq<u8>>|
        #[trigger] post.dom().contains(p) && #[trigger] post.dom().contains(p2) && is_prefix(p, p2)
            && p.len() < p2.len() implies match (post[p].file_walk, post[p2].file_walk) {
        (Some(dp), Some(w)) => (dp.depth as int) < p2.len() - p.len() + w.depth,
        _ => true,
    } by {
        assert(post.dom().subset_of(created.dom()));
        assert(created.dom().contains(p) && created.dom().contains(p2));
        // The file walk of any record other than `q` comes from `pre`.
        assert(p != p2);
        let fp = post[p].file_walk;
        let fp2 = post[p2].file_walk;
        if fp is Some && fp2 is Some {
            if p2 == q {
                assert(!strictly_under(q, p)) by {
                    assert(p.len() < q.len());
                }
                assert(post[p] == created[p]);
                assert(pre.dom().contains(p)) by {
                    if !pre.dom().contains(p) {
                        assert(created[p] == NodeView::empty());
                    }
                }
                assert(created[p] == pre[p]);
                assert(!covers(pre, k, p, q, d as nat));
                match k {
                    WalkType::File => {
                        assert(post[q] == round_rnode(pre, k, q, fd));
                        assert(fp2 == Some(Walk { depth: fd }));
                        assert(pre[p].dominating(k) == fp);
                        assert((fp->Some_0.depth as int) < q.len() - p.len() + d);
                        assert(d <= fd);
                    },
                    WalkType::Directory => {
                        assert(post[q].file_walk == created[q].file_walk);
                        assert(pre.dom().contains(q)) by {
                            if !pre.dom().contains(q) {
                                assert(created[q] == NodeView::empty());
                            }
                        }
                        assert(created[q] == pre[q]);
                        assert(match (pre[p].file_walk, pre[q].file_walk) {
                            (Some(dp), Some(w)) => (dp.depth as int) < q.len() - p.len() + w.depth,
                            _ => true,
                        });
                    },
                }
            } else if p == q {
                assert(strictly_under(q, p2)) by {
                    assert(is_prefix(q, p2));
                }
                assert(pre.dom().contains(p2) && post[p2] == pruned_node(
                    pre[p2],
                    k,
                    sub_level(q, p2),
                    fd as nat,
                ));
                match k {
                    WalkType::File => {
                        assert(post[q] == round_rnode(pre, k, q, fd));
                        assert(fp == Some(Walk { depth: fd }));
                        let w = pre[p2].file_walk->Some_0;
                        assert(post[p2].file_walk == pre[p2].file_walk);
                        assert(sub_level(q, p2) + w.depth > fd) by {
                            if sub_level(q, p2) + w.depth <= fd {
                                assert(post[p2] == pre[p2].with_walk(k, None));
                                assert(post[p2].file_walk is None);
                            }
                        }
                    },
                    WalkType::Directory => {
                        assert(post[q].file_walk == created[q].file_walk);
                        assert(post[p2].file_walk == pre[p2].file_walk);
                        assert(pre.dom().contains(q)) by {
                            if !pre.dom().contains(q) {
                                assert(created[q] == NodeView::empty());
                            }
                        }
                        assert(created[q] == pre[q]);
                        assert(match (pre[q].file_walk, pre[p2].file_walk) {
                            (Some(dp), Some(w)) => (dp.depth as int) < p2.len() - q.len() + w.depth,
                            _ => true,
                        });
                    },
                }
            } else {
                // Both ends keep their `pre` file walk.
                lemma_post_file_from_pre(pre, created, post, k, q, d, thr, fd, p);
                lemma_post_file_from_pre(pre, created, post, k, q, d, thr, fd, p2);
                assert(match (pre[p].file_walk, pre[p2].file_walk) {
                    (Some(dp), Some(w)) => (dp.depth as int) < p2.len() - p.len() + w.depth,
                    _ => true,
                });
            }
        }
    }
}

/// Away from the insertion root, a file walk still present after the
/// insertion is inherited unchanged from `pre`.
proof fn lemma_post_file_from_pre(
    pre: TreeModel,
    created: TreeModel,
    post: TreeModel,
    k: WalkType,
    q: Seq<Seq<u8>>,
    d: usize,
    thr: usize,
    fd: usize,
    p: Seq<Seq<u8>>,
)
    requires
        created == with_path_nodes(pre, q),
        insert_result(pre, post, k, q, d, thr, fd),
        post.dom().contains(p),
        p != q,
        post[p].file_walk is Some,
    ensures
        pre.dom().contains(p),
        post[p].file_walk == pre[p].file_walk,
{
    assert(post.dom().subset_of(with_path_nodes(pre, q).dom()));
    assert(with_path_nodes(pre, q).dom().contains(p));
    if strictly_under(q, p) {
        assert(pre.dom().contains(p) && post[p] == pruned_node(
            pre[p],
            k,
            sub_level(q, p),
            fd as nat,
        ));
        match pre[p].walk_of(k) {
            Some(w) => {
                if sub_level(q, p) + w.depth <= fd {
                    assert(post[p] == pre[p].with_walk(k, None));
                    match k {
                        WalkType::File => {
                            assert(post[p].file_walk is None);
                        },
                        WalkType::Directory => {},
                    }
                }
            },
            None => {},
        }
    } else {
        assert(post[p] == with_path_nodes(pre, q)[p]);
        assert(pre.dom().contains(p)) by {
            if !pre.dom().contains(p) {
                assert(post[p] == NodeView::empty());
            }
        }
    }
}

/// Changes that leave every node's walks in place preserve tree
/// well-formedness.
pub proof fn lemma_wf_same_walks(m0: TreeModel, m1: TreeModel)
    requires
        tree_wf(m0),
        m1.dom() == m0.dom(),
        forall|p: Seq<Seq<u8>>|
            #[trigger] m0.dom().contains(p) ==> m1[p].file_walk == m0[p].file_walk && m1[p].dir_walk
                == m0[p].dir_walk,
    ensures
        tree_wf(m1),
{
    assert forall|p: Seq<Seq<u8>>| #[trigger] m1.dom().contains(p) implies node_ok(m1[p], p) by {
        assert(node_ok(m0[p], p));
    }
    assert forall|p: Seq<Seq<u8>>, q: Seq<Seq<u8>>|
        #[trigger] m1.dom().contains(p) && #[trigger] m1.dom().contains(q) && is_prefix(p, q)
            && p.len() < q.len() implies match (m1[p].file_walk, m1[q].file_walk) {
        (Some(dp), Some(w)) => (dp.depth as int) < q.len() - p.len() + w.depth,
        _ => true,
    } by {
        assert(m0.dom().contains(p) && m0.dom().contains(q));
        assert(match (m0[p].file_walk, m0[q].file_walk) {
            (Some(dp), Some(w)) => (dp.depth as int) < q.len() - p.len() + w.depth,
            _ => true,
        });
    }
}

/// The walk trie. Records live in an arena; the record at index `i` is the
/// node for `path_at(i)`.
pub struct WalkTree {
    paths: Vec<Vec<Vec<u8>>>,
    nodes: Vec<WalkNode>,
}

impl View for WalkTree {
    type V = TreeModel;

    closed spec fn view(&self) -> TreeModel {
        Map::new(
            |p: Seq<Seq<u8>>|
                exists|i: int| 0 <= i < self.paths@.len() && self.paths@[i].deep_view() == p,
            |p: Seq<Seq<u8>>|
                self.nodes@[choose|i: int|
                    0 <= i < self.paths@.len() && self.paths@[i].deep_view() == p]@,
        )
    }
}

impl WalkTree {
    /// Number of records in the arena.
    pub closed spec fn entry_count(&self) -> nat {
        self.paths@.len() as nat
    }

    /// The path of the record at index `i`.
    pub closed spec fn path_at(&self, i: int) -> Seq<Seq<u8>> {
        self.paths@[i].deep_view()
    }

    /// The node state of the record at index `i`.
    pub closed spec fn node_at(&self, i: int) -> NodeView {
        self.nodes@[i]@
    }

    /// Arena representation invariant: the two columns line up, paths are
    /// distinct, and each record keeps its own invariant.
    pub closed spec fn rep_inv(&self) -> bool {
        &&& self.paths@.len() == self.nodes@.len()
        &&& forall|i: int, j: int|
            0 <= i < j < self.paths@.len() ==> #[trigger] self.paths@[i].deep_view()
                != #[trigger] self.paths@[j].deep_view()
        &&& forall|i: int| 0 <= i < self.nodes@.len() ==> (#[trigger] self.nodes@[i]).inv()
    }

    /// A tree fit for use: sound arena plus a well-formed model.
    pub open spec fn wf(&self) -> bool {
        &&& self.rep_inv()
        &&& tree_wf(self@)
    }

    /// Each arena record is present in the model under its path.
    pub proof fn lemma_entry(&self, i: int)
        requires
            self.rep_inv(),
            0 <= i < self.entry_count(),
        ensures
            self@.dom().contains(self.path_at(i)),
            self@[self.path_at(i)] == self.node_at(i),
    {
        let p = self.path_at(i);
        assert(self@.dom().contains(p));
        let j = choose|j: int| 0 <= j < self.paths@.len() && self.paths@[j].deep_view() == p;
        if i != j {
            if i < j {
                assert(self.paths@[i].deep_view() != self.paths@[j].deep_view());
            } else {
                assert(self.paths@[j].deep_view() != self.paths@[i].deep_view());
            }
        }
    }

    /// Each model entry is backed by an arena record.
    pub proof fn lemma_view_entry(&self, p: Seq<Seq<u8>>) -> (i: int)
        requires
            self.rep_inv(),
            self@.dom().contains(p),
        ensures
            0 <= i < self.entry_count(),
            self.path_at(i) == p,
            self.node_at(i) == self@[p],
    {
        let i = choose|i: int| 0 <= i < self.paths@.len() && self.paths@[i].deep_view() == p;
        self.lemma_entry(i);
        i
    }

    /// The model's domain is finite.
    pub proof fn lemma_dom_finite(&self)
        requires
            self.rep_inv(),
        ensures
            self@.dom().finite(),
    {
        let s = Seq::new(self.paths@.len(), |i: int| self.paths@[i].deep_view());
        broadcast use seq_to_set_is_finite;

        assert(self@.dom() =~= s.to_set()) by {
            assert forall|p: Seq<Seq<u8>>| self@.dom().contains(p) implies s.to_set().contains(p) by {
                let i = choose|i: int|
                    0 <= i < self.paths@.len() && self.paths@[i].deep_view() == p;
                assert(s[i] == p);
            }
            assert forall|p: Seq<Seq<u8>>| s.to_set().contains(p) implies self@.dom().contains(p) by {
                let i = choose|i: int| 0 <= i < s.len() && s[i] == p;
                assert(self.paths@[i].deep_view() == p);
            }
        }
    }

    /// Replacing the node of one record updates the model at its path.
    proof fn lemma_view_after_node_update(t0: WalkTree, t1: WalkTree, i: int)
        requires
            t0.rep_inv(),
            0 <= i < t0.entry_count(),
            t1.paths@ == t0.paths@,
            t1.nodes@.len() == t0.nodes@.len(),
            forall|j: int| 0 <= j < t0.nodes@.len() && j != i ==> t1.nodes@[j] == t0.nodes@[j],
            t1.nodes@[i].inv(),
        ensures
            t1.rep_inv(),
            t1@ == t0@.insert(t0.path_at(i), t1.node_at(i)),
            t1@.dom() == t0@.dom(),
    {
        assert(t1.rep_inv());
        assert(t1@ =~= t0@.insert(t0.path_at(i), t1.node_at(i))) by {
            assert forall|p: Seq<Seq<u8>>| t1@.dom().contains(p) == t0@.dom().contains(p) by {}
            assert forall|p: Seq<Seq<u8>>| t1@.dom().contains(p) implies t1@[p] == t0@.insert(
                t0.path_at(i),
                t1.node_at(i),
            )[p] by {
                let j = choose|j: int|
                    0 <= j < t1.paths@.len() && t1.paths@[j].deep_view() == p;
                t0.lemma_entry(j);
                t1.lemma_entry(j);
                if p == t0.path_at(i) {
                    if j != i {
                        if i < j {
                            assert(t0.paths@[i].deep_view() != t0.paths@[j].deep_view());
                        } else {
                            assert(t0.paths@[j].deep_view() != t0.paths@[i].deep_view());
                        }
                    }
                }
            }
        }
        assert(t1@.dom() =~= t0@.dom());
    }

    /// Appending a record for a new path inserts it into the model.
    proof fn lemma_view_after_push(t0: WalkTree, t1: WalkTree)
        requires
            t0.rep_inv(),
            t1.paths@.len() == t0.paths@.len() + 1,
            t1.paths@ == t0.paths@.push(t1.paths@[t0.paths@.len() as int]),
            t1.nodes@ == t0.nodes@.push(t1.nodes@[t0.nodes@.len() as int]),
            !t0@.dom().contains(t1.path_at(t0.entry_count() as int)),
            t1.nodes@[t0.nodes@.len() as int].inv(),
        ensures
            t1.rep_inv(),
            t1@ == t0@.insert(
                t1.path_at(t0.entry_count() as int),
                t1.node_at(t0.entry_count() as int),
            ),
    {
        let c = t0.paths@.len() as int;
        let np = t1.path_at(c);
        assert(t1.rep_inv()) by {
            assert forall|i: int, j: int| 0 <= i < j < t1.paths@.len() implies #[trigger] t1.paths@[i].deep_view() != #[trigger] t1.paths@[j].deep_view() by {
                if j < c {
                    assert(t0.paths@[i].deep_view() != t0.paths@[j].deep_view());
                } else {
                    t0.lemma_entry(i);
                    assert(t0@.dom().contains(t0.path_at(i)));
                }
            }
        }
        assert(t1@ =~= t0@.insert(np, t1.node_at(c))) by {
            assert forall|p: Seq<Seq<u8>>| t1@.dom().contains(p) implies t0@.insert(
                np,
                t1.node_at(c),
            ).dom().contains(p) by {
                let j = choose|j: int|
                    0 <= j < t1.paths@.len() && t1.paths@[j].deep_view() == p;
                if j < c {
                    t0.lemma_entry(j);
                }
            }
            assert forall|p: Seq<Seq<u8>>| t0@.insert(np, t1.node_at(c)).dom().contains(
                p,
            ) implies t1@.dom().contains(p) by {
                if p == np {
                    assert(t1.paths@[c].deep_view() == p);
                } else {
                    let j = t0.lemma_view_entry(p);
                    assert(t1.paths@[j].deep_view() == p);
                }
            }
            assert forall|p: Seq<Seq<u8>>| t1@.dom().contains(p) implies t1@[p] == t0@.insert(
                np,
                t1.node_at(c),
            )[p] by {
                let j = choose|j: int|
                    0 <= j < t1.paths@.len() && t1.paths@[j].deep_view() == p;
                t1.lemma_entry(j);
                if j < c {
                    t0.lemma_entry(j);
                    assert(p != np) by {
                        t0.lemma_entry(j);
                    }
                } else {
                    assert(p == np);
                }
            }
        }
    }

    /// Stores `walk` as the kind-`walk_type` walk of record `i`, with
    /// domination applied.
    fn node_set_walk(&mut self, i: usize, walk_type: WalkType, walk: Option<Walk>)
        requires
            old(self).rep_inv(),
            i < old(self).entry_count(),
        ensures
            final(self).rep_inv(),
            final(self).entry_count() == old(self).entry_count(),
            forall|j: int| 0 <= j < final(self).entry_count() ==> final(self).path_at(j) == old(self).path_at(j),
            forall|j: int|
                0 <= j < final(self).entry_count() && j != i ==> final(self).node_at(j) == old(self).node_at(j),
            final(self).node_at(i as int) == old(self).node_at(i as int).with_walk(walk_type, walk),
            final(self)@ == old(self)@.insert(old(self).path_at(i as int), final(self).node_at(i as int)),
            final(self)@.dom() == old(self)@.dom(),
    {
        let mut tmp = WalkNode::new();
        self.nodes.set_and_swap(i, &mut tmp);
        tmp.set_walk_for_type(walk_type, walk);
        self.nodes.set_and_swap(i, &mut tmp);
        proof {
            assert forall|j: int|
                0 <= j < self.nodes@.len() && j != i implies self.nodes@[j] == old(self).nodes@[j] by {}
            Self::lemma_view_after_node_update(*old(self), *self, i as int);
        }
    }

    /// Replaces the advanced-children set of record `i` for `walk_type`.
    fn node_set_advanced(&mut self, i: usize, walk_type: WalkType, names: Vec<Vec<u8>>)
        requires
            old(self).rep_inv(),
            i < old(self).entry_count(),
            names.deep_view().no_duplicates(),
        ensures
            final(self).rep_inv(),
            final(self).entry_count() == old(self).entry_count(),
            forall|j: int|
                0 <= j < final(self).entry_count() ==> final(self).path_at(j) == old(
                    self,
                ).path_at(j),
            forall|j: int|
                0 <= j < final(self).entry_count() && j != i ==> final(self).node_at(j) == old(
                    self,
                ).node_at(j),
            final(self).node_at(i as int) == (match walk_type {
                WalkType::File => NodeView {
                    advanced_file_children: names.deep_view().to_set(),
                    ..old(self).node_at(i as int)
                },
                WalkType::Directory => NodeView {
                    advanced_dir_children: names.deep_view().to_set(),
                    ..old(self).node_at(i as int)
                },
            }),
            final(self)@ == old(self)@.insert(
                old(self).path_at(i as int),
                final(self).node_at(i as int),
            ),
            final(self)@.dom() == old(self)@.dom(),
    {
        let mut tmp = WalkNode::new();
        self.nodes.set_and_swap(i, &mut tmp);
        tmp.set_advanced_children(walk_type, names);
        self.nodes.set_and_swap(i, &mut tmp);
        proof {
            Self::lemma_view_after_node_update(*old(self), *self, i as int);
        }
    }

    /// Prunes every kind-`walk_type` walk strictly below record `ri` that
    /// is fully contained within a walk of depth `depth` there, and
    /// returns the advanced child names found while doing so.
    fn prune_contained(&mut self, walk_type: WalkType, ri: usize, depth: usize) -> (adv: Vec<
        Vec<u8>,
    >)
        requires
            old(self).rep_inv(),
            ri < old(self).entry_count(),
        ensures
            final(self).rep_inv(),
            final(self).entry_count() == old(self).entry_count(),
            forall|j: int|
                0 <= j < final(self).entry_count() ==> final(self).path_at(j) == old(
                    self,
                ).path_at(j),
            forall|j: int|
                0 <= j < final(self).entry_count() ==> final(self).node_at(j) == (if strictly_under(
                    old(self).path_at(ri as int),
                    old(self).path_at(j),
                ) {
                    pruned_node(
                        old(self).node_at(j),
                        walk_type,
                        sub_level(old(self).path_at(ri as int), old(self).path_at(j)),
                        depth as nat,
                    )
                } else {
                    old(self).node_at(j)
                }),
            adv.deep_view().no_duplicates(),
            adv.deep_view().to_set() == advanced_set(
                old(self)@,
                walk_type,
                old(self).path_at(ri as int),
                depth as nat,
            ),
            final(self)@.dom() == old(self)@.dom(),
            forall|q: Seq<Seq<u8>>|
                #[trigger] old(self)@.dom().contains(q) ==> final(self)@[q] == (if strictly_under(
                    old(self).path_at(ri as int),
                    q,
                ) {
                    pruned_node(
                        old(self)@[q],
                        walk_type,
                        sub_level(old(self).path_at(ri as int), q),
                        depth as nat,
                    )
                } else {
                    old(self)@[q]
                }),
    {
        let ghost t0 = *old(self);
        let ghost r = t0.path_at(ri as int);
        let r_len = self.paths[ri].len();
        let mut adv: Vec<Vec<u8>> = Vec::new();
        let mut j: usize = 0;
        while j < self.paths.len()
            invariant
                self.rep_inv(),
                t0.rep_inv(),
                ri < t0.entry_count(),
                r == t0.path_at(ri as int),
                r_len == r.len(),
                self.entry_count() == t0.entry_count(),
                j <= self.entry_count(),
                forall|jj: int| 0 <= jj < self.entry_count() ==> self.path_at(jj) == t0.path_at(jj),
                forall|jj: int|
                    0 <= jj < self.entry_count() ==> self.node_at(jj) == (if jj < j
                        && strictly_under(r, t0.path_at(jj)) {
                        pruned_node(
                            t0.node_at(jj),
                            walk_type,
                            sub_level(r, t0.path_at(jj)),
                            depth as nat,
                        )
                    } else {
                        t0.node_at(jj)
                    }),
                adv.deep_view().no_duplicates(),
                adv.deep_view().to_set() =~= Set::new(
                    |c: Seq<u8>|
                        exists|jj: int| 0 <= jj < j && #[trigger] entry_advances(t0, walk_type, r, jj, depth as nat, c),
                ),
            decreases self.paths@.len() - j,
        {
            let plen = self.paths[j].len();
            let ghost adv_pre = adv.deep_view().to_set();
            if plen > r_len && matches_prefix(&self.paths[ri], &self.paths[j], r_len) {
                proof {
                    assert(self.path_at(ri as int) == r);
                    assert(strictly_under(r, t0.path_at(j as int)));
                }
                let lvl = plen - r_len;
                let ghost lvl_s = sub_level(r, t0.path_at(j as int));
                proof {
                    assert(t0.path_at(j as int).len() == plen);
                    assert(lvl_s == lvl as nat);
                }
                let w_opt = self.nodes[j].get_walk_for_type(walk_type);
                let mut advanced = false;
                match w_opt {
                    Some(w) => {
                        if lvl - 1 > depth {
                            // Too deep to be examined: untouched, not counted.
                        } else if lvl > depth {
                            advanced = true;
                        } else if w.depth > depth - lvl {
                            advanced = true;
                        } else {
                            self.node_set_walk(j, walk_type, None);
                        }
                    },
                    None => {},
                }
                if advanced {
                    let name = clone_bytes(&self.paths[j][r_len]);
                    proof {
                        lemma_path_deep_view(self.paths@[j as int], r_len as int);
                        assert(name@ == t0.path_at(j as int)[r_len as int]);
                        assert(entry_advances(t0, walk_type, r, j as int, depth as nat, name@));
                    }
                    crate::node::insert_distinct(&mut adv, name);
                }
                proof {
                    assert(self.node_at(j as int) == pruned_node(
                        t0.node_at(j as int),
                        walk_type,
                        lvl_s,
                        depth as nat,
                    ));
                }
            } else {
                proof {
                    if self.paths@[j as int].len() > r_len {
                        assert(!strictly_under(r, t0.path_at(j as int)));
                    } else {
                        assert(t0.path_at(j as int).len() <= r.len());
                        assert(!strictly_under(r, t0.path_at(j as int)));
                    }
                }
            }
            proof {
                assert(adv.deep_view().to_set() =~= Set::new(
                    |c: Seq<u8>|
                        exists|jj: int| 0 <= jj < j + 1 && #[trigger] entry_advances(t0, walk_type, r, jj, depth as nat, c),
                )) by {
                    assert forall|c: Seq<u8>| adv.deep_view().to_set().contains(c) implies exists|jj: int|
                        0 <= jj < j + 1 && #[trigger] entry_advances(t0, walk_type, r, jj, depth as nat, c) by {
                        if adv_pre.contains(c) {
                            let jj = choose|jj: int|
                                0 <= jj < j && #[trigger] entry_advances(t0, walk_type, r, jj, depth as nat, c);
                            assert(entry_advances(t0, walk_type, r, jj, depth as nat, c));
                        } else {
                            assert(entry_advances(t0, walk_type, r, j as int, depth as nat, c));
                        }
                    }
                    assert forall|c: Seq<u8>|
                        (exists|jj: int|
                            0 <= jj < j + 1 && #[trigger] entry_advances(t0, walk_type, r, jj, depth as nat, c)) implies adv.deep_view().to_set().contains(c) by {
                        let jj = choose|jj: int|
                            0 <= jj < j + 1 && #[trigger] entry_advances(t0, walk_type, r, jj, depth as nat, c);
                        if jj < j {
                            assert(adv_pre.contains(c));
                        }
                    }
                }
            }
            j = j + 1;
        }
        proof {
            assert(adv.deep_view().to_set() =~= advanced_set(t0@, walk_type, r, depth as nat)) by {
                assert forall|c: Seq<u8>| adv.deep_view().to_set().contains(c) implies #[trigger] subtree_advanced(
                    t0@,
                    walk_type,
                    r,
                    c,
                    depth as nat,
                ) by {
                    let jj = choose|jj: int|
                        0 <= jj < self.entry_count() && #[trigger] entry_advances(t0, walk_type, r, jj, depth as nat, c);
                    let q = t0.path_at(jj);
                    t0.lemma_entry(jj);
                    assert(is_prefix(r.push(c), q)) by {
                        assert(r.push(c) =~= q.subrange(0, r.len() as int + 1));
                    }
                }
                assert forall|c: Seq<u8>| #[trigger] subtree_advanced(t0@, walk_type, r, c, depth as nat) implies adv.deep_view().to_set().contains(c) by {
                    let q = choose|q: Seq<Seq<u8>>|
                        #[trigger] t0@.dom().contains(q) && is_prefix(r.push(c), q) && sub_level(r, q)
                            <= depth as nat + 1 && (t0@[q].walk_of(walk_type) matches Some(w)
                            && sub_level(r, q) + w.depth >= depth as nat + 1);
                    let jj = t0.lemma_view_entry(q);
                    assert(strictly_under(r, q)) by {
                        assert(r =~= q.subrange(0, r.len() as int));
                    }
                    assert(c == q[r.len() as int]) by {
                        assert(r.push(c) == q.subrange(0, r.len() as int + 1));
                        assert(q.subrange(0, r.len() as int + 1)[r.len() as int] == q[r.len() as int]);
                    }
                    assert(entry_advances(t0, walk_type, r, jj, depth as nat, c));
                }
            }
            assert(final(self)@.dom() =~= t0@.dom()) by {
                assert forall|q: Seq<Seq<u8>>| self@.dom().contains(q) implies t0@.dom().contains(q) by {
                    let jj = self.lemma_view_entry(q);
                    t0.lemma_entry(jj);
                }
                assert forall|q: Seq<Seq<u8>>| t0@.dom().contains(q) implies self@.dom().contains(q) by {
                    let jj = t0.lemma_view_entry(q);
                    self.lemma_entry(jj);
                }
            }
            assert forall|q: Seq<Seq<u8>>| #[trigger] t0@.dom().contains(q) implies self@[q] == (if strictly_under(r, q) {
                pruned_node(t0@[q], walk_type, sub_level(r, q), depth as nat)
            } else {
                t0@[q]
            }) by {
                let jj = t0.lemma_view_entry(q);
                self.lemma_entry(jj);
            }
        }
        adv
    }

    /// Dropping one record removes its path from the model.
    proof fn lemma_view_after_remove(t0: WalkTree, t1: WalkTree, i: int)
        requires
            t0.rep_inv(),
            0 <= i < t0.entry_count(),
            t1.paths@ == t0.paths@.remove(i),
            t1.nodes@ == t0.nodes@.remove(i),
        ensures
            t1.rep_inv(),
            t1@ == t0@.remove(t0.path_at(i)),
            t1.entry_count() == t0.entry_count() - 1,
    {
        assert(t1.rep_inv()) by {
            assert forall|a: int, b: int| 0 <= a < b < t1.paths@.len() implies #[trigger] t1.paths@[a].deep_view() != #[trigger] t1.paths@[b].deep_view() by {
                let a0 = if a < i { a } else { a + 1 };
                let b0 = if b < i { b } else { b + 1 };
                assert(t1.paths@[a] == t0.paths@[a0]);
                assert(t1.paths@[b] == t0.paths@[b0]);
                assert(t0.paths@[a0].deep_view() != t0.paths@[b0].deep_view());
            }
            assert forall|a: int| 0 <= a < t1.nodes@.len() implies (#[trigger] t1.nodes@[a]).inv() by {
                let a0 = if a < i { a } else { a + 1 };
                assert(t1.nodes@[a] == t0.nodes@[a0]);
            }
        }
        assert(t1@ =~= t0@.remove(t0.path_at(i))) by {
            assert forall|p: Seq<Seq<u8>>| t1@.dom().contains(p) implies t0@.remove(
                t0.path_at(i),
            ).dom().contains(p) by {
                let a = choose|a: int|
                    0 <= a < t1.paths@.len() && t1.paths@[a].deep_view() == p;
                let a0 = if a < i { a } else { a + 1 };
                assert(t1.paths@[a] == t0.paths@[a0]);
                t0.lemma_entry(a0);
                assert(p != t0.path_at(i)) by {
                    if a0 < i {
                        assert(t0.paths@[a0].deep_view() != t0.paths@[i].deep_view());
                    } else {
                        assert(t0.paths@[i].deep_view() != t0.paths@[a0].deep_view());
                    }
                }
            }
            assert forall|p: Seq<Seq<u8>>| t0@.remove(t0.path_at(i)).dom().contains(
                p,
            ) implies t1@.dom().contains(p) by {
                let a0 = t0.lemma_view_entry(p);
                let a = if a0 < i { a0 } else { a0 - 1 };
                assert(a0 != i);
                assert(t1.paths@[a] == t0.paths@[a0]);
            }
            assert forall|p: Seq<Seq<u8>>| t1@.dom().contains(p) implies t1@[p] == t0@.remove(
                t0.path_at(i),
            )[p] by {
                let a = choose|a: int|
                    0 <= a < t1.paths@.len() && t1.paths@[a].deep_view() == p;
                t1.lemma_entry(a);
                let a0 = if a < i { a } else { a + 1 };
                assert(t1.paths@[a] == t0.paths@[a0]);
                assert(t1.nodes@[a] == t0.nodes@[a0]);
                t0.lemma_entry(a0);
            }
        }
    }

    /// Finds a record strictly below `rvec`, within the examined depth,
    /// whose node is removable and which has no descendant record.
    fn find_removable(&self, rvec: &Vec<Vec<u8>>, threshold: usize, depth: usize) -> (r: Option<
        usize,
    >)
        requires
            self.rep_inv(),
        ensures
            match r {
                Some(j) => {
                    &&& (j as int) < self.entry_count()
                    &&& strictly_under(rvec.deep_view(), self.path_at(j as int))
                    &&& sub_level(rvec.deep_view(), self.path_at(j as int)) <= depth as nat + 1
                    &&& self.node_at(j as int).removable(threshold)
                    &&& !exists|jj: int|
                        0 <= jj < self.entry_count() && #[trigger] strictly_under(
                            self.path_at(j as int),
                            self.path_at(jj),
                        )
                },
                None => true,
            },
    {
        let r_len = rvec.len();
        let mut j: usize = 0;
        while j < self.paths.len()
            invariant
                self.rep_inv(),
                r_len == rvec.len(),
                j <= self.entry_count(),
            decreases self.paths@.len() - j,
        {
            let plen = self.paths[j].len();
            if plen > r_len && plen - r_len - 1 <= depth {
                if matches_prefix(rvec, &self.paths[j], r_len) {
                    proof {
                        assert(self.path_at(j as int).len() == plen);
                        assert(strictly_under(rvec.deep_view(), self.path_at(j as int)));
                        assert(sub_level(rvec.deep_view(), self.path_at(j as int)) <= depth as nat
                            + 1);
                    }
                    if self.nodes[j].removable(threshold) {
                        if !self.has_descendant(j) {
                            return Some(j);
                        }
                    }
                }
            }
            j = j + 1;
        }
        None
    }

    /// Repeatedly drops records strictly below `rvec` that have been
    /// emptied by pruning and have no descendants left, until none remain.
    fn remove_empty(&mut self, rvec: &Vec<Vec<u8>>, threshold: usize, depth: usize)
        requires
            old(self).rep_inv(),
        ensures
            final(self).rep_inv(),
            final(self)@.dom().subset_of(old(self)@.dom()),
            forall|q: Seq<Seq<u8>>|
                #[trigger] final(self)@.dom().contains(q) ==> old(self)@.dom().contains(q)
                    && final(self)@[q] == old(self)@[q],
            forall|q: Seq<Seq<u8>>|
                #[trigger] old(self)@.dom().contains(q) && !strictly_under(rvec.deep_view(), q)
                    ==> final(self)@.dom().contains(q),
            forall|q: Seq<Seq<u8>>|
                #[trigger] old(self)@.dom().contains(q) && !final(self)@.dom().contains(q)
                    ==> strictly_under(rvec.deep_view(), q) && sub_level(rvec.deep_view(), q)
                    <= depth as nat + 1 && old(self)@[q].removable(threshold),
            prefix_closed(old(self)@) ==> prefix_closed(final(self)@),
    {
        let ghost t1 = *old(self);
        let ghost r = rvec.deep_view();
        let mut cont = true;
        while cont
            invariant
                self.rep_inv(),
                self@.dom().subset_of(t1@.dom()),
                forall|q: Seq<Seq<u8>>|
                    #[trigger] self@.dom().contains(q) ==> t1@.dom().contains(q) && self@[q]
                        == t1@[q],
                forall|q: Seq<Seq<u8>>|
                    #[trigger] t1@.dom().contains(q) && !strictly_under(r, q) ==> self@.dom().contains(
                        q,
                    ),
                forall|q: Seq<Seq<u8>>|
                    #[trigger] t1@.dom().contains(q) && !self@.dom().contains(q) ==> strictly_under(
                        r,
                        q,
                    ) && sub_level(r, q) <= depth as nat + 1 && t1@[q].removable(threshold),
                prefix_closed(t1@) ==> prefix_closed(self@),
                r == rvec.deep_view(),
            decreases self.paths@.len() + (if cont {
                1int
            } else {
                0int
            }),
        {
            match self.find_removable(rvec, threshold, depth) {
                Some(j) => {
                    let ghost tc = *self;
                    let ghost pj = self.path_at(j as int);
                    proof {
                        tc.lemma_entry(j as int);
                    }
                    self.paths.remove(j);
                    self.nodes.remove(j);
                    proof {
                        Self::lemma_view_after_remove(tc, *self, j as int);
                        assert(self@ == tc@.remove(pj));
                        if prefix_closed(t1@) {
                            assert(prefix_closed(self@)) by {
                                assert forall|p: Seq<Seq<u8>>, i: int|
                                    #[trigger] self@.dom().contains(p) && 0 <= i
                                        <= p.len() implies self@.dom().contains(
                                    #[trigger] p.subrange(0, i),
                                ) by {
                                    assert(tc@.dom().contains(p));
                                    assert(tc@.dom().contains(p.subrange(0, i)));
                                    if p.subrange(0, i) == pj {
                                        assert(i < p.len()) by {
                                            if i == p.len() {
                                                assert(p.subrange(0, i) =~= p);
                                            }
                                        }
                                        assert(is_prefix(pj, p));
                                        assert(strictly_under(pj, p));
                                        let jj = tc.lemma_view_entry(p);
                                        assert(strictly_under(tc.path_at(j as int), tc.path_at(jj)));
                                        assert(false);
                                    }
                                }
                            }
                        }
                    }
                },
                None => {
                    cont = false;
                },
            }
        }
    }

    /// Whether any record lies strictly inside the subtree of record `i`.
    fn has_descendant(&self, i: usize) -> (r: bool)
        requires
            self.rep_inv(),
            i < self.entry_count(),
        ensures
            r == exists|j: int|
                0 <= j < self.entry_count() && #[trigger] strictly_under(
                    self.path_at(i as int),
                    self.path_at(j),
                ),
    {
        let n = self.paths[i].len();
        let mut j: usize = 0;
        while j < self.paths.len()
            invariant
                self.rep_inv(),
                i < self.entry_count(),
                n == self.paths@[i as int].len(),
                j <= self.paths@.len(),
                forall|jj: int|
                    0 <= jj < j ==> !strictly_under(self.path_at(i as int), #[trigger] self.path_at(jj)),
            decreases self.paths@.len() - j,
        {
            if self.paths[j].len() > n && matches_prefix(&self.paths[i], &self.paths[j], n) {
                proof {
                    assert(self.path_at(i as int).len() == n);
                    assert(strictly_under(self.path_at(i as int), self.path_at(j as int)));
                }
                return true;
            }
            proof {
                assert(self.path_at(j as int).len() == self.paths@[j as int].len());
                assert(!strictly_under(self.path_at(i as int), self.path_at(j as int)));
            }
            j = j + 1;
        }
        false
    }

    /// Records an access time on record `i`.
    pub fn touch(&mut self, i: usize, now: u64)
        requires
            old(self).rep_inv(),
            i < old(self).entry_count(),
        ensures
            final(self).rep_inv(),
            final(self).entry_count() == old(self).entry_count(),
            forall|j: int| 0 <= j < final(self).entry_count() ==> final(self).path_at(j) == old(self).path_at(j),
            forall|j: int|
                0 <= j < final(self).entry_count() && j != i ==> final(self).node_at(j) == old(self).node_at(j),
            final(self).node_at(i as int) == (NodeView {
                last_access: Some(now),
                ..old(self).node_at(i as int)
            }),
            final(self)@ == old(self)@.insert(old(self).path_at(i as int), final(self).node_at(i as int)),
            old(self).wf() ==> final(self).wf(),
    {
        let mut tmp = WalkNode::new();
        self.nodes.set_and_swap(i, &mut tmp);
        tmp.touch(now);
        self.nodes.set_and_swap(i, &mut tmp);
        proof {
            Self::lemma_view_after_node_update(*old(self), *self, i as int);
            if old(self).wf() {
                lemma_wf_same_walks(old(self)@, self@);
            }
        }
    }

    /// Records one observed name on record `i` ahead of confirmation.
    pub fn record_observation(&mut self, i: usize, walk_type: WalkType, name: Vec<u8>)
        requires
            old(self).rep_inv(),
            i < old(self).entry_count(),
        ensures
            final(self).rep_inv(),
            final(self).entry_count() == old(self).entry_count(),
            forall|j: int| 0 <= j < final(self).entry_count() ==> final(self).path_at(j) == old(self).path_at(j),
            forall|j: int|
                0 <= j < final(self).entry_count() && j != i ==> final(self).node_at(j) == old(self).node_at(j),
            final(self).node_at(i as int) == (match walk_type {
                WalkType::File => NodeView {
                    seen_files: old(self).node_at(i as int).seen_files.insert(name@),
                    ..old(self).node_at(i as int)
                },
                WalkType::Directory => NodeView {
                    seen_dirs: old(self).node_at(i as int).seen_dirs.insert(name@),
                    ..old(self).node_at(i as int)
                },
            }),
            final(self)@ == old(self)@.insert(old(self).path_at(i as int), final(self).node_at(i as int)),
            old(self).wf() ==> final(self).wf(),
    {
        let mut tmp = WalkNode::new();
        self.nodes.set_and_swap(i, &mut tmp);
        tmp.record_observation(walk_type, name);
        self.nodes.set_and_swap(i, &mut tmp);
        proof {
            Self::lemma_view_after_node_update(*old(self), *self, i as int);
            if old(self).wf() {
                lemma_wf_same_walks(old(self)@, self@);
            }
        }
    }

    /// Stores total file/directory count hints on record `i`.
    pub fn set_hints(&mut self, i: usize, total_files: Option<usize>, total_dirs: Option<usize>)
        requires
            old(self).rep_inv(),
            i < old(self).entry_count(),
        ensures
            final(self).rep_inv(),
            final(self).entry_count() == old(self).entry_count(),
            forall|j: int| 0 <= j < final(self).entry_count() ==> final(self).path_at(j) == old(self).path_at(j),
            forall|j: int|
                0 <= j < final(self).entry_count() && j != i ==> final(self).node_at(j) == old(self).node_at(j),
            final(self).node_at(i as int) == (NodeView {
                total_files,
                total_dirs,
                ..old(self).node_at(i as int)
            }),
            final(self)@ == old(self)@.insert(old(self).path_at(i as int), final(self).node_at(i as int)),
            old(self).wf() ==> final(self).wf(),
    {
        let mut tmp = WalkNode::new();
        self.nodes.set_and_swap(i, &mut tmp);
        tmp.set_hints(total_files, total_dirs);
        self.nodes.set_and_swap(i, &mut tmp);
        proof {
            Self::lemma_view_after_node_update(*old(self), *self, i as int);
            if old(self).wf() {
                lemma_wf_same_walks(old(self)@, self@);
            }
        }
    }

    /// Whether record `i` counts as walked for `walk_type` under the given
    /// confirmation threshold.
    pub fn is_walked(&self, i: usize, walk_type: WalkType, dir_walk_threshold: usize) -> (r: bool)
        requires
            self.rep_inv(),
            i < self.entry_count(),
        ensures
            r == {
                ||| self.node_at(i as int).seen_of(walk_type).len() >= dir_walk_threshold
                ||| (self.node_at(i as int).total_of(walk_type) matches Some(t) && t
                    < dir_walk_threshold)
            },
    {
        self.nodes[i].is_walked(walk_type, dir_walk_threshold)
    }

    /// The last recorded access time of record `i`.
    pub fn last_access(&self, i: usize) -> (r: Option<u64>)
        requires
            self.rep_inv(),
            i < self.entry_count(),
        ensures
            r == self.node_at(i as int).last_access,
    {
        self.nodes[i].last_access()
    }

    /// A fresh tree: only the root record, in its initial state.
    pub fn new() -> (r: WalkTree)
        ensures
            r.wf(),
            r@ == Map::<Seq<Seq<u8>>, NodeView>::empty().insert(
                Seq::<Seq<u8>>::empty(),
                NodeView::empty(),
            ),
            r.entry_count() == 1,
    {
        let mut paths: Vec<Vec<Vec<u8>>> = Vec::new();
        paths.push(Vec::new());
        let mut nodes: Vec<WalkNode> = Vec::new();
        nodes.push(WalkNode::new());
        let r = WalkTree { paths, nodes };
        proof {
            assert(r.paths@[0].deep_view() =~= Seq::<Seq<u8>>::empty());
            assert(r@ =~= Map::<Seq<Seq<u8>>, NodeView>::empty().insert(
                Seq::<Seq<u8>>::empty(),
                NodeView::empty(),
            ));
            r.lemma_entry(0);
            assert forall|p: Seq<Seq<u8>>, i: int|
                #[trigger] r@.dom().contains(p) && 0 <= i <= p.len() implies r@.dom().contains(
                #[trigger] p.subrange(0, i),
            ) by {
                assert(p =~= Seq::<Seq<u8>>::empty());
                assert(p.subrange(0, i) =~= Seq::<Seq<u8>>::empty());
            }
        }
        r
    }

    /// Finds the record holding the first `n` components of `path`, if any.
    fn find_prefix(&self, path: &Vec<Vec<u8>>, n: usize) -> (r: Option<usize>)
        requires
            self.rep_inv(),
            n <= path.len(),
        ensures
            match r {
                Some(i) => 0 <= i < self.entry_count() && self.path_at(i as int)
                    == path.deep_view().subrange(0, n as int),
                None => !self@.dom().contains(path.deep_view().subrange(0, n as int)),
            },
    {
        let q = Ghost(path.deep_view().subrange(0, n as int));
        let mut i: usize = 0;
        while i < self.paths.len()
            invariant
                self.rep_inv(),
                n <= path.len(),
                q@ == path.deep_view().subrange(0, n as int),
                i <= self.paths@.len(),
                forall|j: int| 0 <= j < i ==> self.path_at(j) != q@,
            decreases self.paths@.len() - i,
        {
            if matches_prefix(&self.paths[i], path, n) {
                return Some(i);
            }
            i = i + 1;
        }
        proof {
            if self@.dom().contains(q@) {
                let j = self.lemma_view_entry(q@);
            }
        }
        None
    }

    /// Returns the arena index of the record for `walk_root`, if present.
    pub fn get_node(&self, walk_root: &Vec<Vec<u8>>) -> (r: Option<usize>)
        requires
            self.rep_inv(),
        ensures
            match r {
                Some(i) => 0 <= i < self.entry_count() && self.path_at(i as int)
                    == walk_root.deep_view() && self@.dom().contains(walk_root.deep_view()),
                None => !self@.dom().contains(walk_root.deep_view()),
            },
    {
        let r = self.find_prefix(walk_root, walk_root.len());
        proof {
            assert(walk_root.deep_view().subrange(0, walk_root.len() as int)
                =~= walk_root.deep_view());
            match r {
                Some(i) => self.lemma_entry(i as int),
                None => (),
            }
        }
        r
    }

    /// Finds the record whose dominating walk of kind `walk_type` covers
    /// `dir`, searching root-to-leaf. Returns the record index and the
    /// length of its path.
    pub fn get_containing_node(&self, walk_type: WalkType, dir: &Vec<Vec<u8>>) -> (r: Option<
        (usize, usize),
    >)
        requires
            self.wf(),
        ensures
            match r {
                Some(pr) => {
                    &&& pr.1 <= dir.len()
                    &&& (pr.0 as int) < self.entry_count()
                    &&& self.path_at(pr.0 as int) == dir.deep_view().subrange(0, pr.1 as int)
                    &&& (lookup_from(self@, walk_type, dir.deep_view(), 0) matches Some(fr) && fr.0
                        == pr.1 && self.node_at(pr.0 as int).dominating(walk_type) == Some(fr.1))
                },
                None => lookup_from(self@, walk_type, dir.deep_view(), 0) is None,
            },
    {
        let ghost q = dir.deep_view();
        let mut n: usize = 0;
        while n <= dir.len()
            invariant
                self.wf(),
                n <= dir.len(),
                q == dir.deep_view(),
                lookup_from(self@, walk_type, q, 0) == lookup_from(self@, walk_type, q, n as nat),
            decreases dir.len() - n,
        {
            match self.find_prefix(dir, n) {
                None => {
                    proof {
                        lemma_lookup_from_missing(self@, walk_type, q, n as nat);
                    }
                    return None;
                },
                Some(i) => {
                    proof {
                        self.lemma_entry(i as int);
                    }
                    let dw = self.nodes[i].get_dominating_walk(walk_type);
                    match dw {
                        Some(w) => {
                            let rem = dir.len() - n;
                            if w.depth >= rem {
                                proof {
                                    assert(lookup_from(self@, walk_type, q, n as nat) == Some(
                                        (n as nat, w),
                                    ));
                                }
                                return Some((i, n));
                            }
                        },
                        None => {},
                    }
                    if n == dir.len() {
                        proof {
                            assert(lookup_from(self@, walk_type, q, n as nat) is None);
                        }
                        return None;
                    }
                    proof {
                        assert(lookup_from(self@, walk_type, q, n as nat) == lookup_from(
                            self@,
                            walk_type,
                            q,
                            n as nat + 1,
                        ));
                    }
                    n = n + 1;
                },
            }
        }
        proof {
            assert(false);
        }
        None
    }

    /// The dominating walk covering `path`, if any: the walk of the
    /// root-most node whose coverage reaches `path`.
    pub fn lookup(&self, walk_type: WalkType, path: &Vec<Vec<u8>>) -> (r: Option<Walk>)
        requires
            self.wf(),
        ensures
            r == lookup_spec(self@, walk_type, path.deep_view()),
    {
        match self.get_containing_node(walk_type, path) {
            Some((i, _n)) => self.nodes[i].get_dominating_walk(walk_type),
            None => None,
        }
    }

    /// Returns the record for the first `n` components of `dir`, creating
    /// it empty if missing.
    fn ensure_prefix(&mut self, dir: &Vec<Vec<u8>>, n: usize) -> (r: usize)
        requires
            old(self).rep_inv(),
            n <= dir.len(),
        ensures
            final(self).rep_inv(),
            (r as int) < final(self).entry_count(),
            final(self).path_at(r as int) == dir.deep_view().subrange(0, n as int),
            final(self).entry_count() >= old(self).entry_count(),
            forall|j: int|
                0 <= j < old(self).entry_count() ==> final(self).path_at(j) == old(self).path_at(j)
                    && final(self).node_at(j) == old(self).node_at(j),
            if old(self)@.dom().contains(dir.deep_view().subrange(0, n as int)) {
                final(self)@ == old(self)@ && final(self).entry_count() == old(self).entry_count()
            } else {
                final(self)@ == old(self)@.insert(
                    dir.deep_view().subrange(0, n as int),
                    NodeView::empty(),
                ) && final(self).entry_count() == old(self).entry_count() + 1
            },
    {
        let ghost p = dir.deep_view().subrange(0, n as int);
        match self.find_prefix(dir, n) {
            Some(i) => {
                proof {
                    self.lemma_entry(i as int);
                    assert(self@ =~= old(self)@);
                }
                i
            },
            None => {
                let pv = prefix_of(dir, n);
                self.paths.push(pv);
                self.nodes.push(WalkNode::new());
                proof {
                    Self::lemma_view_after_push(*old(self), *self);
                }
                self.paths.len() - 1
            },
        }
    }

    /// Returns the record for `dir`, creating it (and every missing
    /// ancestor record) empty if absent.
    pub fn get_or_create_node(&mut self, dir: &Vec<Vec<u8>>) -> (r: usize)
        requires
            old(self).wf(),
        ensures
            final(self).wf(),
            (r as int) < final(self).entry_count(),
            final(self).path_at(r as int) == dir.deep_view(),
            final(self)@ == with_path_nodes(old(self)@, dir.deep_view()),
            final(self).entry_count() >= old(self).entry_count(),
            forall|j: int|
                0 <= j < old(self).entry_count() ==> final(self).path_at(j) == old(self).path_at(j)
                    && final(self).node_at(j) == old(self).node_at(j),
    {
        let ghost m0 = self@;
        let ghost q = dir.deep_view();
        proof {
            assert(self@ =~= with_path_below(m0, q, 0));
        }
        let mut n: usize = 0;
        while n < dir.len()
            invariant
                self.rep_inv(),
                n <= dir.len(),
                q == dir.deep_view(),
                self@ == with_path_below(m0, q, n as int),
                self.entry_count() >= old(self).entry_count(),
                forall|j: int|
                    0 <= j < old(self).entry_count() ==> self.path_at(j) == old(self).path_at(j)
                        && self.node_at(j) == old(self).node_at(j),
            decreases dir.len() - n,
        {
            let ghost pre = self@;
            self.ensure_prefix(dir, n);
            proof {
                lemma_path_below_step(m0, pre, self@, q, n as int);
            }
            n = n + 1;
        }
        let ghost pre = self@;
        let r = self.ensure_prefix(dir, dir.len());
        proof {
            assert(q.subrange(0, dir.len() as int) =~= q);
            lemma_path_below_step(m0, pre, self@, q, dir.len() as int);
            assert(self@ =~= with_path_nodes(m0, q)) by {
                assert forall|p: Seq<Seq<u8>>| with_path_nodes(m0, q).dom().contains(
                    p,
                ) implies with_path_below(m0, q, dir.len() as int + 1).dom().contains(p) by {
                    if !m0.dom().contains(p) {
                        assert(is_prefix(p, q));
                        assert(p.len() <= q.len());
                    }
                }
            }
            lemma_wf_with_path_nodes(m0, q);
        }
        r
    }

    /// Finds the record whose walk already covers `dir`, or creates (if
    /// absent) and returns the record exactly at `dir`: the single
    /// traversal used on every access event.
    pub fn get_or_create_owning_node(&mut self, walk_type: WalkType, dir: &Vec<Vec<u8>>) -> (r: (
        usize,
        usize,
    ))
        requires
            old(self).wf(),
        ensures
            final(self).wf(),
            (r.0 as int) < final(self).entry_count(),
            r.1 <= dir.len(),
            final(self).path_at(r.0 as int) == dir.deep_view().subrange(0, r.1 as int),
            match lookup_from(old(self)@, walk_type, dir.deep_view(), 0) {
                Some(fr) => final(self)@ == old(self)@ && r.1 == fr.0 && final(self).node_at(
                    r.0 as int,
                ).dominating(walk_type) == Some(fr.1),
                None => {
                    &&& final(self)@ == with_path_nodes(old(self)@, dir.deep_view())
                    &&& r.1 == dir.len()
                    &&& forall|j: int|
                        0 <= j < old(self).entry_count() ==> final(self).path_at(j) == old(
                            self,
                        ).path_at(j) && final(self).node_at(j) == old(self).node_at(j)
                },
            },
    {
        match self.get_containing_node(walk_type, dir) {
            Some(pr) => pr,
            None => {
                let i = self.get_or_create_node(dir);
                proof {
                    assert(dir.deep_view().subrange(0, dir.len() as int) =~= dir.deep_view());
                }
                (i, dir.len())
            },
        }
    }

    /// Whether record `i` is expired at `now` under `timeout`.
    fn node_is_expired(&self, i: usize, timeout: u64, now: u64) -> (r: bool)
        requires
            self.rep_inv(),
            i < self.entry_count(),
        ensures
            r == expired(self.node_at(i as int), timeout, now),
    {
        match self.nodes[i].last_access() {
            None => true,
            Some(la) => now >= la && now - la >= timeout,
        }
    }

    /// Clears every expired record in place.
    fn clear_expired(&mut self, timeout: u64, now: u64)
        requires
            old(self).rep_inv(),
        ensures
            final(self).rep_inv(),
            final(self).entry_count() == old(self).entry_count(),
            forall|j: int|
                0 <= j < final(self).entry_count() ==> final(self).path_at(j) == old(
                    self,
                ).path_at(j),
            final(self)@.dom() == old(self)@.dom(),
            forall|p: Seq<Seq<u8>>|
                #[trigger] old(self)@.dom().contains(p) ==> final(self)@[p] == (if expired(
                    old(self)@[p],
                    timeout,
                    now,
                ) {
                    NodeView::empty()
                } else {
                    old(self)@[p]
                }),
    {
        let ghost t0 = *old(self);
        let mut i: usize = 0;
        while i < self.nodes.len()
            invariant
                self.rep_inv(),
                t0.rep_inv(),
                self.entry_count() == t0.entry_count(),
                i <= self.entry_count(),
                forall|j: int| 0 <= j < self.entry_count() ==> self.path_at(j) == t0.path_at(j),
                forall|j: int|
                    0 <= j < self.entry_count() ==> self.node_at(j) == (if j < i && expired(
                        t0.node_at(j),
                        timeout,
                        now,
                    ) {
                        NodeView::empty()
                    } else {
                        t0.node_at(j)
                    }),
            decreases self.nodes@.len() - i,
        {
            let ghost before = *self;
            let expired_now = self.node_is_expired(i, timeout, now);
            if expired_now {
                let mut tmp = WalkNode::new();
                self.nodes.set_and_swap(i, &mut tmp);
            }
            proof {
                assert forall|j: int| 0 <= j < self.entry_count() implies self.node_at(j) == (if j
                    <= i && expired(t0.node_at(j), timeout, now) {
                    NodeView::empty()
                } else {
                    t0.node_at(j)
                }) by {
                    if j == i {
                        if expired_now {
                            assert(self.node_at(j) == NodeView::empty());
                            assert(expired(before.node_at(j), timeout, now));
                            assert(before.node_at(j) == t0.node_at(j));
                        } else {
                            assert(self.node_at(j) == before.node_at(j));
                            assert(before.node_at(j) == t0.node_at(j));
                            assert(!expired(t0.node_at(j), timeout, now));
                        }
                    } else {
                        assert(self.node_at(j) == before.node_at(j));
                    }
                }
            }
            i = i + 1;
        }
        proof {
            assert(self@.dom() =~= t0@.dom()) by {
                assert forall|p: Seq<Seq<u8>>| self@.dom().contains(p) implies t0@.dom().contains(
                    p,
                ) by {
                    let jj = self.lemma_view_entry(p);
                    t0.lemma_entry(jj);
                }
                assert forall|p: Seq<Seq<u8>>| t0@.dom().contains(p) implies self@.dom().contains(
                    p,
                ) by {
                    let jj = t0.lemma_view_entry(p);
                    self.lemma_entry(jj);
                }
            }
            assert forall|p: Seq<Seq<u8>>| #[trigger] t0@.dom().contains(p) implies self@[p] == (
            if expired(t0@[p], timeout, now) {
                NodeView::empty()
            } else {
                t0@[p]
            }) by {
                let jj = t0.lemma_view_entry(p);
                self.lemma_entry(jj);
            }
        }
    }

    /// Whether any record at or below record `i` has not expired.
    fn subtree_alive(&self, i: usize, timeout: u64, now: u64) -> (r: bool)
        requires
            self.rep_inv(),
            i < self.entry_count(),
        ensures
            r == exists|j: int|
                0 <= j < self.entry_count() && is_prefix(
                    self.path_at(i as int),
                    #[trigger] self.path_at(j),
                ) && !expired(self.node_at(j), timeout, now),
    {
        let n = self.paths[i].len();
        let mut j: usize = 0;
        while j < self.paths.len()
            invariant
                self.rep_inv(),
                i < self.entry_count(),
                n == self.paths@[i as int].len(),
                j <= self.entry_count(),
                forall|jj: int|
                    0 <= jj < j ==> !(is_prefix(self.path_at(i as int), #[trigger] self.path_at(jj))
                        && !expired(self.node_at(jj), timeout, now)),
            decreases self.paths@.len() - j,
        {
            if self.paths[j].len() >= n && matches_prefix(&self.paths[i], &self.paths[j], n) {
                proof {
                    assert(self.path_at(i as int).len() == n);
                    assert(self.path_at(j as int).len() == self.paths@[j as int].len());
                    assert(is_prefix(self.path_at(i as int), self.path_at(j as int)));
                }
                if !self.node_is_expired(j, timeout, now) {
                    return true;
                }
            } else {
                proof {
                    assert(self.path_at(j as int).len() == self.paths@[j as int].len());
                    if self.paths@[j as int].len() >= n {
                        assert(!is_prefix(self.path_at(i as int), self.path_at(j as int)));
                    } else {
                        assert(!is_prefix(self.path_at(i as int), self.path_at(j as int)));
                    }
                }
            }
            j = j + 1;
        }
        false
    }

    /// Finds a non-root record with no live node at or below it.
    fn find_unkept(&self, timeout: u64, now: u64) -> (r: Option<usize>)
        requires
            self.rep_inv(),
        ensures
            match r {
                Some(i) => {
                    &&& (i as int) < self.entry_count()
                    &&& self.path_at(i as int).len() > 0
                    &&& !exists|j: int|
                        0 <= j < self.entry_count() && is_prefix(
                            self.path_at(i as int),
                            #[trigger] self.path_at(j),
                        ) && !expired(self.node_at(j), timeout, now)
                },
                None => forall|i: int|
                    0 <= i < self.entry_count() ==> #[trigger] self.path_at(i).len() == 0 || exists|
                        j: int,
                    |
                        0 <= j < self.entry_count() && is_prefix(
                            self.path_at(i),
                            #[trigger] self.path_at(j),
                        ) && !expired(self.node_at(j), timeout, now),
            },
    {
        let mut i: usize = 0;
        while i < self.paths.len()
            invariant
                self.rep_inv(),
                i <= self.entry_count(),
                forall|ii: int|
                    0 <= ii < i ==> #[trigger] self.path_at(ii).len() == 0 || exists|j: int|
                        0 <= j < self.entry_count() && is_prefix(
                            self.path_at(ii),
                            #[trigger] self.path_at(j),
                        ) && !expired(self.node_at(j), timeout, now),
            decreases self.paths@.len() - i,
        {
            if self.paths[i].len() > 0 {
                if !self.subtree_alive(i, timeout, now) {
                    proof {
                        assert(self.path_at(i as int).len() == self.paths@[i as int].len());
                    }
                    return Some(i);
                }
            } else {
                proof {
                    assert(self.path_at(i as int).len() == self.paths@[i as int].len());
                }
            }
            i = i + 1;
        }
        None
    }

    /// Removes every record not accessed within `timeout` of `now` whose
    /// whole subtree is likewise idle; an idle record with a live
    /// descendant is retained but cleared, and the root is only ever
    /// cleared. Returns the number of records deleted and the number
    /// remaining (root included).
    #[verifier::rlimit(100)]
    pub fn gc(&mut self, timeout: u64, now: u64) -> (r: (usize, usize))
        requires
            old(self).wf(),
        ensures
            final(self).wf(),
            gc_post(old(self)@, final(self)@, timeout, now),
            r.0 + r.1 == old(self).entry_count(),
            r.1 == final(self).entry_count(),
    {
        let ghost pre = self@;
        let total = self.paths.len();
        self.clear_expired(timeout, now);
        let ghost mid = *self;
        let mut cont = true;
        while cont
            invariant
                self.rep_inv(),
                mid.rep_inv(),
                self@.dom().subset_of(mid@.dom()),
                forall|p: Seq<Seq<u8>>|
                    #[trigger] self@.dom().contains(p) ==> mid@.dom().contains(p) && self@[p]
                        == mid@[p],
                forall|s: Seq<Seq<u8>>|
                    #[trigger] mid@.dom().contains(s) && !expired(mid@[s], timeout, now)
                        ==> self@.dom().contains(s),
                forall|p: Seq<Seq<u8>>|
                    #[trigger] mid@.dom().contains(p) && !self@.dom().contains(p) ==> p.len() > 0
                        && !gc_keep(mid@, p, timeout, now),
                self.entry_count() <= mid.entry_count(),
                !cont ==> forall|ii: int|
                    0 <= ii < self.entry_count() ==> #[trigger] self.path_at(ii).len() == 0
                        || exists|j: int|
                        0 <= j < self.entry_count() && is_prefix(
                            self.path_at(ii),
                            #[trigger] self.path_at(j),
                        ) && !expired(self.node_at(j), timeout, now),
            decreases self.paths@.len() + (if cont {
                1int
            } else {
                0int
            }),
        {
            match self.find_unkept(timeout, now) {
                Some(i) => {
                    let ghost tc = *self;
                    let ghost pj = self.path_at(i as int);
                    proof {
                        tc.lemma_entry(i as int);
                    }
                    self.paths.remove(i);
                    self.nodes.remove(i);
                    proof {
                        Self::lemma_view_after_remove(tc, *self, i as int);
                        assert(is_prefix(tc.path_at(i as int), tc.path_at(i as int))) by {
                            assert(pj =~= pj.subrange(0, pj.len() as int));
                        }
                        assert(expired(tc.node_at(i as int), timeout, now));
                        assert(mid@[pj] == tc@[pj]);
                        assert(expired(mid@[pj], timeout, now));
                        assert(!gc_keep(mid@, pj, timeout, now)) by {
                            if gc_keep(mid@, pj, timeout, now) {
                                let s = choose|s: Seq<Seq<u8>>|
                                    #[trigger] mid@.dom().contains(s) && is_prefix(pj, s)
                                        && !expired(mid@[s], timeout, now);
                                assert(tc@.dom().contains(s));
                                let j = tc.lemma_view_entry(s);
                                assert(is_prefix(tc.path_at(i as int), tc.path_at(j)));
                                assert(!expired(tc.node_at(j), timeout, now));
                            }
                        }
                    }
                },
                None => {
                    cont = false;
                },
            }
        }
        proof {
            assert(mid@.dom() == pre.dom());
            assert forall|s: Seq<Seq<u8>>| #[trigger] pre.dom().contains(s) implies (!expired(
                mid@[s],
                timeout,
                now,
            ) <==> (!expired(pre[s], timeout, now))) && (!expired(pre[s], timeout, now) ==> mid@[s]
                == pre[s]) by {
                assert(mid@[s] == (if expired(pre[s], timeout, now) {
                    NodeView::empty()
                } else {
                    pre[s]
                }));
            }
            assert(self@.dom().contains(Seq::<Seq<u8>>::empty())) by {
                assert(pre.dom().contains(Seq::<Seq<u8>>::empty()));
                if !self@.dom().contains(Seq::<Seq<u8>>::empty()) {
                    assert(Seq::<Seq<u8>>::empty().len() > 0);
                }
            }
            assert(self@.dom() =~= Set::new(
                |p: Seq<Seq<u8>>|
                    pre.dom().contains(p) && (p.len() == 0 || gc_keep(pre, p, timeout, now)),
            )) by {
                assert forall|p: Seq<Seq<u8>>| self@.dom().contains(p) implies pre.dom().contains(p)
                    && (p.len() == 0 || gc_keep(pre, p, timeout, now)) by {
                    if p.len() > 0 {
                        let ii = self.lemma_view_entry(p);
                        assert(self.path_at(ii).len() == 0 || exists|j: int|
                            0 <= j < self.entry_count() && is_prefix(
                                self.path_at(ii),
                                #[trigger] self.path_at(j),
                            ) && !expired(self.node_at(j), timeout, now));
                        let j = choose|j: int|
                            0 <= j < self.entry_count() && is_prefix(
                                self.path_at(ii),
                                #[trigger] self.path_at(j),
                            ) && !expired(self.node_at(j), timeout, now);
                        self.lemma_entry(j);
                        let s = self.path_at(j);
                        assert(mid@.dom().contains(s) && self@[s] == mid@[s]);
                        assert(!expired(mid@[s], timeout, now));
                        assert(gc_keep(pre, p, timeout, now)) by {
                            assert(pre.dom().contains(s) && is_prefix(p, s) && !expired(
                                pre[s],
                                timeout,
                                now,
                            ));
                        }
                    }
                }
                assert forall|p: Seq<Seq<u8>>|
                    pre.dom().contains(p) && (p.len() == 0 || gc_keep(
                        pre,
                        p,
                        timeout,
                        now,
                    )) implies self@.dom().contains(p) by {
                    if p.len() == 0 {
                        assert(p =~= Seq::<Seq<u8>>::empty());
                    } else {
                        let s = choose|s: Seq<Seq<u8>>|
                            #[trigger] pre.dom().contains(s) && is_prefix(p, s) && !expired(
                                pre[s],
                                timeout,
                                now,
                            );
                        assert(mid@.dom().contains(s) && !expired(mid@[s], timeout, now));
                        if !self@.dom().contains(p) {
                            assert(!gc_keep(mid@, p, timeout, now));
                            assert(mid@.dom().contains(s) && is_prefix(p, s) && !expired(
                                mid@[s],
                                timeout,
                                now,
                            ));
                        }
                    }
                }
            }
            assert forall|p: Seq<Seq<u8>>| #[trigger] self@.dom().contains(p) implies self@[p] == (
            if expired(pre[p], timeout, now) {
                NodeView::empty()
            } else {
                pre[p]
            }) by {
                assert(self@[p] == mid@[p]);
            }
            assert(gc_post(pre, self@, timeout, now));
            self.lemma_dom_finite();
            lemma_gc_wf(pre, self@, timeout, now);
        }
        let remaining = self.paths.len();
        (total - remaining, remaining)
    }

    /// Finds a record whose dominating walk of kind `walk_type` covers a
    /// would-be walk of depth `d` at `walk_root`.
    fn find_covering(&self, walk_type: WalkType, walk_root: &Vec<Vec<u8>>, d: usize) -> (r: Option<
        usize,
    >)
        requires
            self.rep_inv(),
        ensures
            match r {
                Some(i) => (i as int) < self.entry_count() && covers(
                    self@,
                    walk_type,
                    self.path_at(i as int),
                    walk_root.deep_view(),
                    d as nat,
                ),
                None => !covered(self@, walk_type, walk_root.deep_view(), d as nat),
            },
    {
        let ghost q = walk_root.deep_view();
        let mut n: usize = 0;
        while n <= walk_root.len()
            invariant
                self.rep_inv(),
                n <= walk_root.len(),
                q == walk_root.deep_view(),
                forall|l: int|
                    0 <= l < n ==> !covers(self@, walk_type, #[trigger] q.subrange(0, l), q, d as nat),
            decreases walk_root.len() - n,
        {
            match self.find_prefix(walk_root, n) {
                Some(i) => {
                    proof {
                        self.lemma_entry(i as int);
                    }
                    match self.nodes[i].get_dominating_walk(walk_type) {
                        Some(w) => {
                            let rem = walk_root.len() - n;
                            if w.depth >= rem && w.depth - rem >= d {
                                proof {
                                    assert(covers(self@, walk_type, self.path_at(i as int), q, d as nat));
                                }
                                return Some(i);
                            }
                        },
                        None => {},
                    }
                },
                None => {},
            }
            proof {
                assert(!covers(self@, walk_type, q.subrange(0, n as int), q, d as nat));
            }
            if n == walk_root.len() {
                proof {
                    assert forall|p: Seq<Seq<u8>>| !covers(self@, walk_type, p, q, d as nat) by {
                        if covers(self@, walk_type, p, q, d as nat) {
                            assert(is_prefix(p, q));
                            assert(p =~= q.subrange(0, p.len() as int));
                            assert(!covers(self@, walk_type, q.subrange(0, p.len() as int), q, d as nat));
                        }
                    }
                }
                return None;
            }
            n = n + 1;
        }
        proof {
            assert(false);
        }
        None
    }

    /// Stores the kind-`walk_type` walk of depth `dep` on record `ri`,
    /// prunes the contained walks strictly below it, and replaces its
    /// advanced children with the names found. Returns their number.
    fn round_mutate(&mut self, walk_type: WalkType, ri: usize, dep: usize) -> (res: (
        usize,
        Ghost<Set<Seq<u8>>>,
    ))
        requires
            old(self).rep_inv(),
            ri < old(self).entry_count(),
        ensures
            final(self).rep_inv(),
            final(self)@.dom() == old(self)@.dom(),
            final(self)@[old(self).path_at(ri as int)] == (match walk_type {
                WalkType::File => NodeView {
                    advanced_file_children: res.1@,
                    ..old(self)@[old(self).path_at(ri as int)].with_walk(
                        walk_type,
                        Some(Walk { depth: dep }),
                    )
                },
                WalkType::Directory => NodeView {
                    advanced_dir_children: res.1@,
                    ..old(self)@[old(self).path_at(ri as int)].with_walk(
                        walk_type,
                        Some(Walk { depth: dep }),
                    )
                },
            }),
            forall|p: Seq<Seq<u8>>|
                #[trigger] old(self)@.dom().contains(p) && p != old(self).path_at(ri as int)
                    ==> final(self)@[p] == (if strictly_under(old(self).path_at(ri as int), p) {
                    pruned_node(
                        old(self)@[p],
                        walk_type,
                        sub_level(old(self).path_at(ri as int), p),
                        dep as nat,
                    )
                } else {
                    old(self)@[p]
                }),
            res.1@ == advanced_set(
                old(self)@,
                walk_type,
                old(self).path_at(ri as int),
                dep as nat,
            ),
            res.1@.finite(),
            res.0 == res.1@.len(),
            final(self).entry_count() == old(self).entry_count(),
            forall|j: int|
                0 <= j < final(self).entry_count() ==> final(self).path_at(j) == old(
                    self,
                ).path_at(j),
    {
        let ghost q = old(self).path_at(ri as int);
        let ghost t0 = *self;
        self.node_set_walk(ri, walk_type, Some(Walk { depth: dep }));
        let ghost t1 = *self;
        let adv = self.prune_contained(walk_type, ri, dep);
        let ghost t2 = *self;
        let ghost advset = adv.deep_view().to_set();
        let count = adv.len();
        proof {
            crate::node::vec_set_len_matches(&adv);
        }
        self.node_set_advanced(ri, walk_type, adv);
        proof {
            t0.lemma_entry(ri as int);
            t2.lemma_entry(ri as int);
            assert(t1@.dom() =~= t0@.dom());
            assert(self@.dom() =~= t2@.dom());
            assert(t1@ == t0@.insert(q, t0@[q].with_walk(walk_type, Some(Walk { depth: dep }))));
            assert(t2@[q] == t1@[q]) by {
                assert(!strictly_under(q, q));
                assert(t1@.dom().contains(q));
            }
            assert forall|p: Seq<Seq<u8>>|
                #[trigger] t0@.dom().contains(p) && p != q implies self@[p] == (if strictly_under(
                q,
                p,
            ) {
                pruned_node(t0@[p], walk_type, sub_level(q, p), dep as nat)
            } else {
                t0@[p]
            }) by {
                assert(t1@.dom().contains(p));
                assert(t1@[p] == t0@[p]);
                assert(t2@[p] == (if strictly_under(q, p) {
                    pruned_node(t1@[p], walk_type, sub_level(q, p), dep as nat)
                } else {
                    t1@[p]
                }));
                assert(self@[p] == t2@[p]);
            }
            assert(advset == advanced_set(t1@, walk_type, q, dep as nat));
            assert forall|p: Seq<Seq<u8>>|
                #![trigger t1@.dom().contains(p)]
                #![trigger t0@.dom().contains(p)]
                strictly_under(q, p) implies (t1@.dom().contains(p) == t0@.dom().contains(p)) && (
            t1@.dom().contains(p) ==> t1@[p].walk_of(walk_type) == t0@[p].walk_of(walk_type)) by {
                assert(p != q);
            }
            lemma_advanced_same_subtree(t1@, t0@, walk_type, q, dep as nat);
        }
        (count, Ghost(advset))
    }

    /// Finishes a promotion round after the walk has been stored and the
    /// subtree pruned (state `m0` at the round's start): drops emptied
    /// records and returns the index of the record at `walk_root`.
    #[verifier::rlimit(100)]
    fn round_cleanup(
        &mut self,
        walk_type: WalkType,
        walk_root: &Vec<Vec<u8>>,
        dep: usize,
        threshold: usize,
        Ghost(pre): Ghost<TreeModel>,
        Ghost(created): Ghost<TreeModel>,
        Ghost(d): Ghost<usize>,
        Ghost(advset): Ghost<Set<Seq<u8>>>,
        Ghost(m0): Ghost<TreeModel>,
    ) -> (r: usize)
        requires
            old(self).rep_inv(),
            prefix_closed(old(self)@),
            created == with_path_nodes(pre, walk_root.deep_view()),
            d <= dep,
            if dep == d {
                m0 == created
            } else {
                round_done(
                    pre,
                    m0,
                    walk_type,
                    walk_root.deep_view(),
                    (dep - 1) as usize,
                    threshold,
                )
            },
            m0.dom().contains(walk_root.deep_view()),
            advset == advanced_set(pre, walk_type, walk_root.deep_view(), dep as nat),
            old(self)@.dom() == m0.dom(),
            old(self)@[walk_root.deep_view()] == (match walk_type {
                WalkType::File => NodeView {
                    advanced_file_children: advset,
                    ..m0[walk_root.deep_view()].with_walk(walk_type, Some(Walk { depth: dep }))
                },
                WalkType::Directory => NodeView {
                    advanced_dir_children: advset,
                    ..m0[walk_root.deep_view()].with_walk(walk_type, Some(Walk { depth: dep }))
                },
            }),
            forall|p: Seq<Seq<u8>>|
                #[trigger] m0.dom().contains(p) && p != walk_root.deep_view() ==> old(self)@[p] == (
                if strictly_under(walk_root.deep_view(), p) {
                    pruned_node(m0[p], walk_type, sub_level(walk_root.deep_view(), p), dep as nat)
                } else {
                    m0[p]
                }),
        ensures
            final(self).rep_inv(),
            prefix_closed(final(self)@),
            round_done(pre, final(self)@, walk_type, walk_root.deep_view(), dep, threshold),
            (r as int) < final(self).entry_count(),
            final(self).path_at(r as int) == walk_root.deep_view(),
    {
        let ghost q = walk_root.deep_view();
        let ghost t3 = *self;
        self.remove_empty(walk_root, threshold, dep);
        let ghost t4 = *self;
        proof {
            assert(t4@.dom().contains(q)) by {
                assert(t3@.dom().contains(q));
                assert(!strictly_under(q, q));
            }
        }
        let ri2 = match self.get_node(walk_root) {
            Some(x) => x,
            None => {
                proof {
                    assert(false);
                }
                0
            },
        };
        proof {
            lemma_round_assemble(
                pre,
                created,
                m0,
                t3@,
                t4@,
                walk_type,
                q,
                d,
                dep,
                threshold,
                advset,
            );
        }
        ri2
    }

    /// One round of walk insertion at promoted depth `dep`, against the
    /// insertion's starting state `pre`: walk stored, subtree pruned,
    /// advanced children recorded, emptied records dropped. Returns the
    /// number of advanced children and the record's index afterwards.
    #[verifier::rlimit(100)]
    fn insert_round(
        &mut self,
        walk_type: WalkType,
        walk_root: &Vec<Vec<u8>>,
        ri: usize,
        dep: usize,
        threshold: usize,
        Ghost(pre): Ghost<TreeModel>,
        Ghost(created): Ghost<TreeModel>,
        Ghost(d): Ghost<usize>,
    ) -> (res: (usize, usize))
        requires
            old(self).rep_inv(),
            prefix_closed(old(self)@),
            tree_wf(pre),
            created == with_path_nodes(pre, walk_root.deep_view()),
            d <= dep,
            if dep == d {
                old(self)@ == created
            } else {
                round_done(
                    pre,
                    old(self)@,
                    walk_type,
                    walk_root.deep_view(),
                    (dep - 1) as usize,
                    threshold,
                )
            },
            ri < old(self).entry_count(),
            old(self).path_at(ri as int) == walk_root.deep_view(),
        ensures
            final(self).rep_inv(),
            prefix_closed(final(self)@),
            round_done(pre, final(self)@, walk_type, walk_root.deep_view(), dep, threshold),
            res.0 == advanced_set(pre, walk_type, walk_root.deep_view(), dep as nat).len(),
            res.0 >= 1 ==> walk_root.deep_view().len() + dep + 1 <= usize::MAX,
            (res.1 as int) < final(self).entry_count(),
            final(self).path_at(res.1 as int) == walk_root.deep_view(),
    {
        let ghost q = walk_root.deep_view();
        let ghost t0 = *self;
        let rm = self.round_mutate(walk_type, ri, dep);
        let count = rm.0;
        let ghost advset = rm.1@;
        let ghost t3 = *self;
        proof {
            t0.lemma_entry(ri as int);
            lemma_round_advanced(pre, created, t0@, walk_type, q, d, dep, threshold);
            assert(advset == advanced_set(pre, walk_type, q, dep as nat));
            if count >= 1 {
                assert(!advset.is_empty()) by {
                    if advset.is_empty() {
                        assert(advset == Set::<Seq<u8>>::empty());
                        assert(advset.len() == 0);
                    }
                }
                let c_wit = advset.choose();
                assert(advset.contains(c_wit));
                assert(subtree_advanced(pre, walk_type, q, c_wit, dep as nat));
                lemma_depth_headroom(pre, walk_type, q, c_wit, dep);
            }
            assert(prefix_closed(t3@)) by {
                assert forall|p: Seq<Seq<u8>>, i: int|
                    #[trigger] t3@.dom().contains(p) && 0 <= i <= p.len() implies t3@.dom().contains(
                    #[trigger] p.subrange(0, i),
                ) by {
                    assert(t0@.dom().contains(p));
                }
            }
        }
        let ri2 = self.round_cleanup(
            walk_type,
            walk_root,
            dep,
            threshold,
            Ghost(pre),
            Ghost(created),
            Ghost(d),
            Ghost(advset),
            Ghost(t0@),
        );
        (count, ri2)
    }

    /// Inserts a walk of kind `walk_type` and depth `walk.depth` rooted at
    /// `walk_root`. A walk already covered by a dominating walk is not
    /// inserted; otherwise missing records are created, contained walks
    /// below the root are pruned, and the walk is promoted one level at a
    /// time while at least `threshold` distinct children keep walk state
    /// past the pruning frontier. Returns the index of the covering
    /// record, or of the record at `walk_root`.
    #[verifier::rlimit(100)]
    pub fn insert_walk(
        &mut self,
        walk_type: WalkType,
        walk_root: &Vec<Vec<u8>>,
        walk: Walk,
        threshold: usize,
    ) -> (r: usize)
        requires
            old(self).wf(),
            threshold >= 1,
            walk_root.len() + walk.depth <= usize::MAX,
        ensures
            final(self).wf(),
            insert_post(
                old(self)@,
                final(self)@,
                walk_type,
                walk_root.deep_view(),
                walk.depth,
                threshold,
            ),
            (r as int) < final(self).entry_count(),
            !covered(old(self)@, walk_type, walk_root.deep_view(), walk.depth as nat)
                ==> final(self).path_at(r as int) == walk_root.deep_view(),
    {
        let ghost pre = self@;
        let ghost q = walk_root.deep_view();
        match self.find_covering(walk_type, walk_root, walk.depth) {
            Some(i) => {
                proof {
                    assert(covered(pre, walk_type, q, walk.depth as nat));
                }
                return i;
            },
            None => {},
        }
        let mut ri = self.get_or_create_node(walk_root);
        let ghost created = self@;
        proof {
            lemma_wf_with_path_nodes(pre, q);
        }
        let mut dep: usize = walk.depth;
        loop
            invariant_except_break
                self.rep_inv(),
                tree_wf(pre),
                tree_wf(created),
                created == with_path_nodes(pre, q),
                prefix_closed(self@),
                threshold >= 1,
                q == walk_root.deep_view(),
                walk_root.len() + dep <= usize::MAX,
                walk.depth <= dep,
                (ri as int) < self.entry_count(),
                self.path_at(ri as int) == q,
                !covered(pre, walk_type, q, walk.depth as nat),
                forall|e: int|
                    walk.depth <= e < dep ==> #[trigger] advanced_set(
                        pre,
                        walk_type,
                        q,
                        e as nat,
                    ).len() >= threshold,
                if dep == walk.depth {
                    self@ == created
                } else {
                    round_done(pre, self@, walk_type, q, (dep - 1) as usize, threshold)
                },
            ensures
                self.rep_inv(),
                prefix_closed(self@),
                walk.depth <= dep,
                walk_root.len() + dep <= usize::MAX,
                (ri as int) < self.entry_count(),
                self.path_at(ri as int) == q,
                round_done(pre, self@, walk_type, q, dep, threshold),
                advanced_set(pre, walk_type, q, dep as nat).len() < threshold,
                forall|e: int|
                    walk.depth <= e < dep ==> #[trigger] advanced_set(
                        pre,
                        walk_type,
                        q,
                        e as nat,
                    ).len() >= threshold,
            decreases usize::MAX - dep,
        {
            let res = self.insert_round(
                walk_type,
                walk_root,
                ri,
                dep,
                threshold,
                Ghost(pre),
                Ghost(created),
                Ghost(walk.depth),
            );
            let count = res.0;
            ri = res.1;
            if count >= threshold {
                dep = dep + 1;
            } else {
                break;
            }
        }
        proof {
            assert(insert_result(pre, self@, walk_type, q, walk.depth, threshold, dep));
            assert(insert_post(pre, self@, walk_type, q, walk.depth, threshold)) by {
                assert(!covered(pre, walk_type, q, walk.depth as nat));
            }
            self.lemma_dom_finite();
            assert(q.len() == walk_root.len());
            lemma_insert_wf(pre, created, self@, walk_type, q, walk.depth, threshold, dep);
        }
        ri
    }

    /// All walks of kind `walk_type`, as (path, walk) pairs, parents
    /// before children, each walk once.
    pub fn list_walks(&self, walk_type: WalkType) -> (r: Vec<(Vec<Vec<u8>>, Walk)>)
        requires
            self.rep_inv(),
        ensures
            forall|i: int|
                0 <= i < r@.len() ==> self@.dom().contains(#[trigger] r@[i].0.deep_view())
                    && self@[r@[i].0.deep_view()].walk_of(walk_type) == Some(r@[i].1),
            forall|p: Seq<Seq<u8>>|
                #[trigger] self@.dom().contains(p) && self@[p].walk_of(walk_type) is Some
                    ==> exists|i: int| 0 <= i < r@.len() && #[trigger] r@[i].0.deep_view() == p,
            forall|i: int, j: int|
                0 <= i < j < r@.len() ==> (#[trigger] r@[i]).0.deep_view() != (
                #[trigger] r@[j]).0.deep_view(),
            forall|i: int, j: int|
                0 <= i < j < r@.len() ==> #[trigger] r@[i].0@.len() <= #[trigger] r@[j].0@.len(),
    {
        let mut maxlen: usize = 0;
        let mut i: usize = 0;
        while i < self.paths.len()
            invariant
                self.rep_inv(),
                i <= self.entry_count(),
                forall|j: int| 0 <= j < i ==> #[trigger] self.paths@[j]@.len() <= maxlen,
            decreases self.paths@.len() - i,
        {
            if self.paths[i].len() > maxlen {
                maxlen = self.paths[i].len();
            }
            i = i + 1;
        }
        let mut r: Vec<(Vec<Vec<u8>>, Walk)> = Vec::new();
        let ghost mut wit: Seq<int> = Seq::empty();
        let mut l: usize = 0;
        loop
            invariant_except_break
                self.rep_inv(),
                l <= maxlen,
                forall|j: int| 0 <= j < self.entry_count() ==> #[trigger] self.paths@[j]@.len() <= maxlen,
                wit.len() == r@.len(),
                forall|x: int|
                    0 <= x < r@.len() ==> 0 <= #[trigger] wit[x] < self.entry_count()
                        && self.path_at(wit[x]) == r@[x].0.deep_view(),
                forall|x: int, y: int| 0 <= x < y < wit.len() ==> wit[x] != wit[y],
                forall|i: int|
                    0 <= i < r@.len() ==> self@.dom().contains(#[trigger] r@[i].0.deep_view())
                        && self@[r@[i].0.deep_view()].walk_of(walk_type) == Some(r@[i].1),
                forall|i: int| 0 <= i < r@.len() ==> #[trigger] r@[i].0@.len() < l,
                forall|i: int, j: int| 0 <= i < j < r@.len() ==> #[trigger] r@[i].0@.len() <= #[trigger] r@[j].0@.len(),
                forall|p: Seq<Seq<u8>>|
                    #[trigger] self@.dom().contains(p) && self@[p].walk_of(walk_type) is Some
                        && p.len() < l ==> exists|i: int|
                        0 <= i < r@.len() && #[trigger] r@[i].0.deep_view() == p,
                forall|i: int| 0 <= i < r@.len() ==> #[trigger] r@[i].0@.len() == r@[i].0.deep_view().len(),
            ensures
                forall|i: int|
                    0 <= i < r@.len() ==> self@.dom().contains(#[trigger] r@[i].0.deep_view())
                        && self@[r@[i].0.deep_view()].walk_of(walk_type) == Some(r@[i].1),
                forall|p: Seq<Seq<u8>>|
                    #[trigger] self@.dom().contains(p) && self@[p].walk_of(walk_type) is Some
                        ==> exists|i: int| 0 <= i < r@.len() && #[trigger] r@[i].0.deep_view() == p,
                wit.len() == r@.len(),
                forall|x: int|
                    0 <= x < r@.len() ==> 0 <= #[trigger] wit[x] < self.entry_count()
                        && self.path_at(wit[x]) == r@[x].0.deep_view(),
                forall|x: int, y: int| 0 <= x < y < wit.len() ==> wit[x] != wit[y],
                forall|i: int, j: int|
                    0 <= i < j < r@.len() ==> #[trigger] r@[i].0@.len() <= #[trigger] r@[j].0@.len(),
            decreases maxlen - l,
        {
            let ghost r_pre = r@;
            let mut j: usize = 0;
            while j < self.paths.len()
                invariant
                    self.rep_inv(),
                    j <= self.entry_count(),
                    l <= maxlen,
                    wit.len() == r@.len(),
                    forall|x: int|
                        0 <= x < r@.len() ==> 0 <= #[trigger] wit[x] < self.entry_count()
                            && self.path_at(wit[x]) == r@[x].0.deep_view(),
                    forall|x: int, y: int| 0 <= x < y < wit.len() ==> wit[x] != wit[y],
                    forall|x: int| r_pre.len() <= x < r@.len() ==> #[trigger] wit[x] < j,
                    forall|i: int|
                        0 <= i < r@.len() ==> self@.dom().contains(#[trigger] r@[i].0.deep_view())
                            && self@[r@[i].0.deep_view()].walk_of(walk_type) == Some(r@[i].1),
                    forall|i: int| 0 <= i < r_pre.len() ==> r@[i] == r_pre[i],
                    r@.len() >= r_pre.len(),
                    forall|i: int| r_pre.len() <= i < r@.len() ==> #[trigger] r@[i].0@.len() == l,
                    forall|i: int| 0 <= i < r_pre.len() ==> #[trigger] r@[i].0@.len() < l,
                    forall|i: int, j2: int| 0 <= i < j2 < r@.len() ==> #[trigger] r@[i].0@.len() <= #[trigger] r@[j2].0@.len(),
                    forall|jj: int|
                        0 <= jj < j && #[trigger] self.path_at(jj).len() == l && self.node_at(
                            jj,
                        ).walk_of(walk_type) is Some ==> exists|i: int|
                            0 <= i < r@.len() && #[trigger] r@[i].0.deep_view() == self.path_at(jj),
                    forall|i: int| 0 <= i < r@.len() ==> #[trigger] r@[i].0@.len() == r@[i].0.deep_view().len(),
                decreases self.paths@.len() - j,
            {
                if self.paths[j].len() == l {
                    match self.nodes[j].get_walk_for_type(walk_type) {
                        Some(w) => {
                            proof {
                                self.lemma_entry(j as int);
                            }
                            let p = crate::bytepath::clone_path(&self.paths[j]);
                            let ghost r_old = r@;
                            r.push((p, w));
                            proof {
                                wit = wit.push(j as int);
                                assert(r@[r_old.len() as int].0.deep_view() == self.path_at(
                                    j as int,
                                ));
                                assert forall|x: int, y: int|
                                    0 <= x < y < wit.len() implies wit[x] != wit[y] by {
                                    if y == wit.len() - 1 {
                                        if x < r_pre.len() {
                                            if wit[x] == j {
                                                assert(self.path_at(wit[x]).len()
                                                    == r@[x].0.deep_view().len());
                                                assert(r@[x].0@.len() < l);
                                                assert(self.path_at(j as int).len() == l);
                                            }
                                        } else {
                                            assert(wit[x] < j);
                                        }
                                    }
                                }
                                assert forall|jj: int|
                                    0 <= jj < j + 1 && #[trigger] self.path_at(jj).len() == l
                                        && self.node_at(jj).walk_of(walk_type) is Some implies exists|
                                    i: int,
                                |
                                    0 <= i < r@.len() && #[trigger] r@[i].0.deep_view()
                                        == self.path_at(jj) by {
                                    if jj < j {
                                        let i = choose|i: int|
                                            0 <= i < r_old.len() && #[trigger] r_old[i].0.deep_view()
                                                == self.path_at(jj);
                                        assert(r@[i].0.deep_view() == self.path_at(jj));
                                    }
                                }
                            }
                        },
                        None => {},
                    }
                }
                proof {
                    assert(self.path_at(j as int).len() == self.paths@[j as int]@.len());
                }
                j = j + 1;
            }
            proof {
                assert forall|p: Seq<Seq<u8>>|
                    #[trigger] self@.dom().contains(p) && self@[p].walk_of(walk_type) is Some
                        && p.len() < l + 1 implies exists|i: int|
                    0 <= i < r@.len() && #[trigger] r@[i].0.deep_view() == p by {
                    if p.len() == l {
                        let jj = self.lemma_view_entry(p);
                        assert(self.path_at(jj).len() == l);
                    } else {
                        let i = choose|i: int|
                            0 <= i < r_pre.len() && #[trigger] r_pre[i].0.deep_view() == p;
                        assert(r@[i].0.deep_view() == p);
                    }
                }
            }
            if l == maxlen {
                proof {
                    assert forall|p: Seq<Seq<u8>>|
                        #[trigger] self@.dom().contains(p) && self@[p].walk_of(walk_type)
                            is Some implies exists|i: int|
                        0 <= i < r@.len() && #[trigger] r@[i].0.deep_view() == p by {
                        let jj = self.lemma_view_entry(p);
                        assert(self.paths@[jj]@.len() <= maxlen);
                        assert(p.len() <= maxlen);
                    }
                }
                break;
            }
            l = l + 1;
        }
        proof {
            assert forall|x: int, y: int|
                0 <= x < y < r@.len() implies (#[trigger] r@[x]).0.deep_view() != (
            #[trigger] r@[y]).0.deep_view() by {
                assert(wit[x] != wit[y]);
                if wit[x] < wit[y] {
                    assert(self.paths@[wit[x]].deep_view() != self.paths@[wit[y]].deep_view());
                } else {
                    assert(self.paths@[wit[y]].deep_view() != self.paths@[wit[x]].deep_view());
                }
            }
        }
        r
    }

    /// Visits every record of the tree: each path with its depth (its
    /// number of components), parents before children, each record once.
    pub fn iter(&self) -> (r: Vec<(Vec<Vec<u8>>, usize)>)
        requires
            self.rep_inv(),
        ensures
            forall|i: int|
                0 <= i < r@.len() ==> self@.dom().contains(#[trigger] r@[i].0.deep_view())
                    && r@[i].1 == r@[i].0@.len(),
            forall|p: Seq<Seq<u8>>|
                #[trigger] self@.dom().contains(p) ==> exists|i: int|
                    0 <= i < r@.len() && #[trigger] r@[i].0.deep_view() == p,
            forall|i: int, j: int|
                0 <= i < j < r@.len() ==> (#[trigger] r@[i]).0.deep_view() != (
                #[trigger] r@[j]).0.deep_view(),
            forall|i: int, j: int|
                0 <= i < j < r@.len() ==> #[trigger] r@[i].0@.len() <= #[trigger] r@[j].0@.len(),
    {
        let mut maxlen: usize = 0;
        let mut i: usize = 0;
        while i < self.paths.len()
            invariant
                self.rep_inv(),
                i <= self.entry_count(),
                forall|j: int| 0 <= j < i ==> #[trigger] self.paths@[j]@.len() <= maxlen,
            decreases self.paths@.len() - i,
        {
            if self.paths[i].len() > maxlen {
                maxlen = self.paths[i].len();
            }
            i = i + 1;
        }
        let mut r: Vec<(Vec<Vec<u8>>, usize)> = Vec::new();
        let ghost mut wit: Seq<int> = Seq::empty();
        let mut l: usize = 0;
        loop
            invariant_except_break
                self.rep_inv(),
                l <= maxlen,
                forall|j: int| 0 <= j < self.entry_count() ==> #[trigger] self.paths@[j]@.len() <= maxlen,
                wit.len() == r@.len(),
                forall|x: int|
                    0 <= x < r@.len() ==> 0 <= #[trigger] wit[x] < self.entry_count()
                        && self.path_at(wit[x]) == r@[x].0.deep_view(),
                forall|x: int, y: int| 0 <= x < y < wit.len() ==> wit[x] != wit[y],
                forall|i: int|
                    0 <= i < r@.len() ==> self@.dom().contains(#[trigger] r@[i].0.deep_view())
                        && r@[i].1 == r@[i].0@.len(),
                forall|i: int| 0 <= i < r@.len() ==> #[trigger] r@[i].0@.len() < l,
                forall|i: int, j: int| 0 <= i < j < r@.len() ==> #[trigger] r@[i].0@.len() <= #[trigger] r@[j].0@.len(),
                forall|p: Seq<Seq<u8>>|
                    #[trigger] self@.dom().contains(p) && p.len() < l ==> exists|i: int|
                        0 <= i < r@.len() && #[trigger] r@[i].0.deep_view() == p,
                forall|i: int| 0 <= i < r@.len() ==> #[trigger] r@[i].0@.len() == r@[i].0.deep_view().len(),
            ensures
                forall|i: int|
                    0 <= i < r@.len() ==> self@.dom().contains(#[trigger] r@[i].0.deep_view())
                        && r@[i].1 == r@[i].0@.len(),
                forall|p: Seq<Seq<u8>>|
                    #[trigger] self@.dom().contains(p) ==> exists|i: int|
                        0 <= i < r@.len() && #[trigger] r@[i].0.deep_view() == p,
                wit.len() == r@.len(),
                forall|x: int|
                    0 <= x < r@.len() ==> 0 <= #[trigger] wit[x] < self.entry_count()
                        && self.path_at(wit[x]) == r@[x].0.deep_view(),
                forall|x: int, y: int| 0 <= x < y < wit.len() ==> wit[x] != wit[y],
                forall|i: int, j: int|
                    0 <= i < j < r@.len() ==> #[trigger] r@[i].0@.len() <= #[trigger] r@[j].0@.len(),
            decreases maxlen - l,
        {
            let ghost r_pre = r@;
            let mut j: usize = 0;
            while j < self.paths.len()
                invariant
                    self.rep_inv(),
                    j <= self.entry_count(),
                    l <= maxlen,
                    wit.len() == r@.len(),
                    forall|x: int|
                        0 <= x < r@.len() ==> 0 <= #[trigger] wit[x] < self.entry_count()
                            && self.path_at(wit[x]) == r@[x].0.deep_view(),
                    forall|x: int, y: int| 0 <= x < y < wit.len() ==> wit[x] != wit[y],
                    forall|x: int| r_pre.len() <= x < r@.len() ==> #[trigger] wit[x] < j,
                    forall|i: int|
                        0 <= i < r@.len() ==> self@.dom().contains(#[trigger] r@[i].0.deep_view())
                            && r@[i].1 == r@[i].0@.len(),
                    forall|i: int| 0 <= i < r_pre.len() ==> r@[i] == r_pre[i],
                    r@.len() >= r_pre.len(),
                    forall|i: int| r_pre.len() <= i < r@.len() ==> #[trigger] r@[i].0@.len() == l,
                    forall|i: int| 0 <= i < r_pre.len() ==> #[trigger] r@[i].0@.len() < l,
                    forall|i: int, j2: int| 0 <= i < j2 < r@.len() ==> #[trigger] r@[i].0@.len() <= #[trigger] r@[j2].0@.len(),
                    forall|jj: int|
                        0 <= jj < j && #[trigger] self.path_at(jj).len() == l ==> exists|i: int|
                            0 <= i < r@.len() && #[trigger] r@[i].0.deep_view() == self.path_at(jj),
                    forall|i: int| 0 <= i < r@.len() ==> #[trigger] r@[i].0@.len() == r@[i].0.deep_view().len(),
                decreases self.paths@.len() - j,
            {
                if self.paths[j].len() == l {
                    proof {
                        self.lemma_entry(j as int);
                    }
                    let p = crate::bytepath::clone_path(&self.paths[j]);
                    let ghost r_old = r@;
                    let d = self.paths[j].len();
                    r.push((p, d));
                    proof {
                        wit = wit.push(j as int);
                        assert(r@[r_old.len() as int].0.deep_view() == self.path_at(j as int));
                        assert forall|x: int, y: int|
                            0 <= x < y < wit.len() implies wit[x] != wit[y] by {
                            if y == wit.len() - 1 {
                                if x < r_pre.len() {
                                    if wit[x] == j {
                                        assert(self.path_at(wit[x]).len()
                                            == r@[x].0.deep_view().len());
                                        assert(r@[x].0@.len() < l);
                                        assert(self.path_at(j as int).len() == l);
                                    }
                                } else {
                                    assert(wit[x] < j);
                                }
                            }
                        }
                        assert forall|jj: int|
                            0 <= jj < j + 1 && #[trigger] self.path_at(jj).len() == l implies exists|
                            i: int,
                        | 0 <= i < r@.len() && #[trigger] r@[i].0.deep_view() == self.path_at(
                            jj,
                        ) by {
                            if jj < j {
                                let i = choose|i: int|
                                    0 <= i < r_old.len() && #[trigger] r_old[i].0.deep_view()
                                        == self.path_at(jj);
                                assert(r@[i].0.deep_view() == self.path_at(jj));
                            }
                        }
                    }
                }
                proof {
                    assert(self.path_at(j as int).len() == self.paths@[j as int]@.len());
                }
                j = j + 1;
            }
            proof {
                assert forall|p: Seq<Seq<u8>>|
                    #[trigger] self@.dom().contains(p) && p.len() < l + 1 implies exists|i: int|
                    0 <= i < r@.len() && #[trigger] r@[i].0.deep_view() == p by {
                    if p.len() == l {
                        let jj = self.lemma_view_entry(p);
                        assert(self.path_at(jj).len() == l);
                    } else {
                        let i = choose|i: int|
                            0 <= i < r_pre.len() && #[trigger] r_pre[i].0.deep_view() == p;
                        assert(r@[i].0.deep_view() == p);
                    }
                }
            }
            if l == maxlen {
                proof {
                    assert forall|p: Seq<Seq<u8>>| #[trigger] self@.dom().contains(p) implies exists|
                        i: int,
                    | 0 <= i < r@.len() && #[trigger] r@[i].0.deep_view() == p by {
                        let jj = self.lemma_view_entry(p);
                        assert(self.paths@[jj]@.len() <= maxlen);
                        assert(p.len() <= maxlen);
                    }
                }
                break;
            }
            l = l + 1;
        }
        proof {
            assert forall|x: int, y: int|
                0 <= x < y < r@.len() implies (#[trigger] r@[x]).0.deep_view() != (
            #[trigger] r@[y]).0.deep_view() by {
                assert(wit[x] != wit[y]);
                if wit[x] < wit[y] {
                    assert(self.paths@[wit[x]].deep_view() != self.paths@[wit[y]].deep_view());
                } else {
                    assert(self.paths@[wit[y]].deep_view() != self.paths@[wit[x]].deep_view());
                }
            }
        }
        r
    }

    /// The immediate children of the node at `dir` that hold a walk of
    /// kind `walk_type`, as (name, walk) pairs, each child once.
    pub fn child_walks(&self, walk_type: WalkType, dir: &Vec<Vec<u8>>) -> (r: Vec<(Vec<u8>, Walk)>)
        requires
            self.rep_inv(),
        ensures
            forall|i: int|
                0 <= i < r@.len() ==> {
                    let child = dir.deep_view().push(#[trigger] r@[i].0@);
                    self@.dom().contains(child) && self@[child].walk_of(walk_type) == Some(r@[i].1)
                },
            forall|c: Seq<u8>|
                #[trigger] self@.dom().contains(dir.deep_view().push(c)) && self@[dir.deep_view().push(
                    c,
                )].walk_of(walk_type) is Some ==> exists|i: int| 0 <= i < r@.len() && r@[i].0@ == c,
            forall|i: int, j: int| 0 <= i < j < r@.len() ==> (#[trigger] r@[i]).0@ != (#[trigger] r@[j]).0@,
    {
        let ghost q = dir.deep_view();
        let n = dir.len();
        let mut r: Vec<(Vec<u8>, Walk)> = Vec::new();
        let ghost mut wit: Seq<int> = Seq::empty();
        let mut j: usize = 0;
        while j < self.paths.len()
            invariant
                self.rep_inv(),
                j <= self.entry_count(),
                n == dir.len(),
                q == dir.deep_view(),
                wit.len() == r@.len(),
                forall|x: int|
                    0 <= x < r@.len() ==> 0 <= #[trigger] wit[x] < j && self.path_at(wit[x])
                        == q.push(r@[x].0@),
                forall|x: int, y: int| 0 <= x < y < wit.len() ==> wit[x] < wit[y],
                forall|i: int|
                    0 <= i < r@.len() ==> {
                        let child = q.push(#[trigger] r@[i].0@);
                        self@.dom().contains(child) && self@[child].walk_of(walk_type) == Some(
                            r@[i].1,
                        )
                    },
                forall|jj: int|
                    0 <= jj < j && #[trigger] self.path_at(jj).len() == q.len() + 1 && is_prefix(
                        q,
                        self.path_at(jj),
                    ) && self.node_at(jj).walk_of(walk_type) is Some ==> exists|i: int|
                        0 <= i < r@.len() && q.push(#[trigger] r@[i].0@) == self.path_at(jj),
            decreases self.paths@.len() - j,
        {
            let plen = self.paths[j].len();
            let ghost r_old = r@;
            if plen > n && plen - n == 1 && matches_prefix(dir, &self.paths[j], n) {
                match self.nodes[j].get_walk_for_type(walk_type) {
                    Some(w) => {
                        proof {
                            self.lemma_entry(j as int);
                        }
                        let name = clone_bytes(&self.paths[j][n]);
                        proof {
                            lemma_path_deep_view(self.paths@[j as int], n as int);
                            assert(q.push(name@) =~= self.path_at(j as int));
                        }
                        r.push((name, w));
                        proof {
                            wit = wit.push(j as int);
                            assert(q.push(r@[r@.len() - 1].0@) == self.path_at(j as int));
                            assert forall|jj: int|
                                0 <= jj < j + 1 && #[trigger] self.path_at(jj).len() == q.len() + 1
                                    && is_prefix(q, self.path_at(jj)) && self.node_at(jj).walk_of(
                                walk_type,
                            ) is Some implies exists|i: int|
                                0 <= i < r@.len() && q.push(#[trigger] r@[i].0@) == self.path_at(
                                    jj,
                                ) by {
                                if jj < j {
                                    let i = choose|i: int|
                                        0 <= i < r_old.len() && q.push(#[trigger] r_old[i].0@)
                                            == self.path_at(jj);
                                    assert(r@[i] == r_old[i]);
                                    assert(q.push(r@[i].0@) == self.path_at(jj));
                                }
                            }
                        }
                    },
                    None => {},
                }
            } else {
                proof {
                    assert(self.path_at(j as int).len() == self.paths@[j as int]@.len());
                    if self.path_at(j as int).len() == q.len() + 1 && is_prefix(
                        q,
                        self.path_at(j as int),
                    ) {
                        assert(plen == n + 1);
                        assert(q =~= self.path_at(j as int).subrange(0, n as int));
                        assert(false);
                    }
                }
            }
            j = j + 1;
        }
        proof {
            assert forall|x: int, y: int|
                0 <= x < y < r@.len() implies (#[trigger] r@[x]).0@ != (#[trigger] r@[y]).0@ by {
                assert(wit[x] < wit[y]);
                assert(self.paths@[wit[x]].deep_view() != self.paths@[wit[y]].deep_view());
                if r@[x].0@ == r@[y].0@ {
                    assert(self.path_at(wit[x]) == q.push(r@[x].0@));
                    assert(self.path_at(wit[y]) == q.push(r@[y].0@));
                }
            }
            assert forall|c: Seq<u8>|
                #[trigger] self@.dom().contains(q.push(c)) && self@[q.push(c)].walk_of(walk_type)
                    is Some implies exists|i: int| 0 <= i < r@.len() && r@[i].0@ == c by {
                let jj = self.lemma_view_entry(q.push(c));
                assert(self.path_at(jj).len() == q.len() + 1);
                assert(is_prefix(q, self.path_at(jj))) by {
                    assert(q =~= q.push(c).subrange(0, q.len() as int));
                }
                let i = choose|i: int|
                    0 <= i < r@.len() && q.push(#[trigger] r@[i].0@) == self.path_at(jj);
                assert(q.push(r@[i].0@) == q.push(c));
                assert(r@[i].0@ == q.push(r@[i].0@)[q.len() as int]);
            }
        }
        r
    }

    /// The dominating walk of kind `walk_type` rooted exactly at
    /// `walk_root`, if that node exists and has one.
    pub fn get_walk(&self, walk_type: WalkType, walk_root: &Vec<Vec<u8>>) -> (r: Option<Walk>)
        requires
            self.rep_inv(),
        ensures
            r == (if self@.dom().contains(walk_root.deep_view()) {
                self@[walk_root.deep_view()].dominating(walk_type)
            } else {
                None::<Walk>
            }),
    {
        match self.get_node(walk_root) {
            Some(i) => {
                proof {
                    self.lemma_entry(i as int);
                }
                self.nodes[i].get_dominating_walk(walk_type)
            },
            None => None,
        }
    }
}

} // verus!
