//! Byte-string path components and component-sequence paths.
//!
//! A path component is a `Vec<u8>`; a path is a `Vec<Vec<u8>>`, compared
//! component-wise. In specifications a path is its deep view, a
//! `Seq<Seq<u8>>`, so that ancestor/descendant relations are plain sequence
//! prefix relations.

use vstd::prelude::*;

verus! {

/// `a` is an ancestor-or-self of `b`: every component of `a` matches the
/// corresponding leading component of `b`.
pub open spec fn is_prefix(a: Seq<Seq<u8>>, b: Seq<Seq<u8>>) -> bool {
    a.len() <= b.len() && a == b.subrange(0, a.len() as int)
}

/// The deep view of a byte vector is its plain view.
pub broadcast proof fn lemma_bytes_deep_view(v: Vec<u8>)
    ensures
        #[trigger] v.deep_view() == v@,
{
    assert(v.deep_view() =~= v@);
}

/// Each element of a path's deep view is the view of that component.
pub broadcast proof fn lemma_path_deep_view(p: Vec<Vec<u8>>, i: int)
    requires
        0 <= i < p.len(),
    ensures
        #[trigger] p.deep_view()[i] == p@[i]@,
{
    lemma_bytes_deep_view(p@[i]);
}

/// Clones one path component, keeping its view.
pub fn clone_bytes(b: &Vec<u8>) -> (r: Vec<u8>)
    ensures
        r@ == b@,
{
    let r = b.clone();
    proof {
        assert(r@ =~= b@);
    }
    r
}

/// Clones a path, keeping its deep view.
pub fn clone_path(p: &Vec<Vec<u8>>) -> (r: Vec<Vec<u8>>)
    ensures
        r.deep_view() == p.deep_view(),
{
    let r = prefix_of(p, p.len());
    proof {
        assert(p.deep_view().subrange(0, p.len() as int) =~= p.deep_view());
    }
    r
}

/// Compares two path components by content.
pub fn bytes_eq(a: &Vec<u8>, b: &Vec<u8>) -> (r: bool)
    ensures
        r == (a@ == b@),
{
    if a.len() != b.len() {
        return false;
    }
    let mut i: usize = 0;
    while i < a.len()
        invariant
            a.len() == b.len(),
            i <= a.len(),
            forall|j: int| 0 <= j < i ==> a@[j] == b@[j],
        decreases a.len() - i,
    {
        if a[i] != b[i] {
            return false;
        }
        i = i + 1;
    }
    proof {
        assert(a@ =~= b@);
    }
    true
}

/// Reports whether `a` equals the first `n` components of `b`.
pub fn matches_prefix(a: &Vec<Vec<u8>>, b: &Vec<Vec<u8>>, n: usize) -> (r: bool)
    requires
        n <= b.len(),
    ensures
        r == (a.deep_view() == b.deep_view().subrange(0, n as int)),
{
    if a.len() != n {
        proof {
            assert(a.deep_view().len() == a.len());
        }
        return false;
    }
    let mut i: usize = 0;
    while i < n
        invariant
            a.len() == n <= b.len(),
            i <= n,
            forall|j: int| 0 <= j < i ==> a.deep_view()[j] == b.deep_view()[j],
        decreases n - i,
    {
        let eq = bytes_eq(&a[i], &b[i]);
        proof {
            lemma_path_deep_view(*a, i as int);
            lemma_path_deep_view(*b, i as int);
        }
        if !eq {
            proof {
                assert(a.deep_view()[i as int] != b.deep_view()[i as int]);
                assert(b.deep_view().subrange(0, n as int)[i as int] == b.deep_view()[i as int]);
            }
            return false;
        }
        i = i + 1;
    }
    proof {
        assert(a.deep_view() =~= b.deep_view().subrange(0, n as int));
    }
    true
}

/// `p` is a leading run of `a`'s bytes.
pub open spec fn bytes_prefix(p: Seq<u8>, a: Seq<u8>) -> bool {
    p.len() <= a.len() && a.subrange(0, p.len() as int) == p
}

/// Reports whether `a` begins with the bytes of `p`.
pub fn bytes_starts_with(a: &Vec<u8>, p: &Vec<u8>) -> (r: bool)
    ensures
        r == bytes_prefix(p@, a@),
{
    if p.len() > a.len() {
        return false;
    }
    let mut i: usize = 0;
    while i < p.len()
        invariant
            p.len() <= a.len(),
            i <= p.len(),
            forall|j: int| 0 <= j < i ==> a@[j] == p@[j],
        decreases p.len() - i,
    {
        if a[i] != p[i] {
            proof {
                assert(a@.subrange(0, p@.len() as int)[i as int] != p@[i as int]);
            }
            return false;
        }
        i = i + 1;
    }
    proof {
        assert(a@.subrange(0, p@.len() as int) =~= p@);
    }
    true
}

/// Returns the first `n` components of `p` as an owned path.
pub fn prefix_of(p: &Vec<Vec<u8>>, n: usize) -> (r: Vec<Vec<u8>>)
    requires
        n <= p.len(),
    ensures
        r.deep_view() == p.deep_view().subrange(0, n as int),
{
    let mut r: Vec<Vec<u8>> = Vec::new();
    let mut i: usize = 0;
    while i < n
        invariant
            n <= p.len(),
            i <= n,
            r.len() == i,
            forall|j: int| 0 <= j < i ==> r@[j]@ == #[trigger] p@[j]@,
        decreases n - i,
    {
        r.push(clone_bytes(&p[i]));
        i = i + 1;
    }
    proof {
        assert forall|j: int| 0 <= j < n implies r.deep_view()[j] == p.deep_view().subrange(
            0,
            n as int,
        )[j] by {
            lemma_path_deep_view(r, j);
            lemma_path_deep_view(*p, j);
        }
        assert(r.deep_view() =~= p.deep_view().subrange(0, n as int));
    }
    r
}

} // verus!
