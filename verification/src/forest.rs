//! Trusted surface over `petgraph::unionfind::UnionFind`, the disjoint-set
//! forest that the board uses to track growing chains of same-color stones.
//!
//! The forest over indices `0..n` is modeled by a map that sends every index
//! to the representative of its class: two indices belong to one class
//! exactly when the map agrees on them.

use vstd::prelude::*;

use petgraph::unionfind::UnionFind;

verus! {

#[verifier::external_type_specification]
#[verifier::external_body]
#[verifier::reject_recursive_types(K)]
pub struct ExUnionFind<K>(petgraph::unionfind::UnionFind<K>);

/// The contents of the forest: each index in `0..uf_len(u)` mapped to the
/// index that currently represents its class.
pub uninterp spec fn uf_roots(u: UnionFind<u16>) -> Map<int, int>;

/// The number of indices the forest was created over.
pub uninterp spec fn uf_len(u: UnionFind<u16>) -> int;

/// Relies on `petgraph::unionfind::UnionFind::new`: a forest of `n` singleton
/// classes, each index its own representative.
#[verifier::external_body]
pub(crate) fn uf_new(n: usize) -> (r: UnionFind<u16>)
    requires
        n <= 0x10000,
    ensures
        uf_len(r) == n as int,
        forall|i: int| 0 <= i < n ==> #[trigger] uf_roots(r)[i] == i,
{
    petgraph::unionfind::UnionFind::new(n)
}

/// Relies on `petgraph::unionfind::UnionFind::find`: the representative of
/// `i`'s class, read without changing the forest. It panics only on an index
/// out of bounds, which the precondition excludes.
#[verifier::external_body]
pub(crate) fn uf_find(u: &UnionFind<u16>, i: u16) -> (r: u16)
    requires
        (i as int) < uf_len(*u),
    ensures
        r as int == uf_roots(*u)[i as int],
{
    u.find(i)
}

/// Relies on `petgraph::unionfind::UnionFind::union`: merges the classes of
/// `a` and `b` into one whose representative is one of the two old
/// representatives (which of the two is the forest's own balancing choice,
/// visible afterwards as the new root of `a`), leaves every other class
/// unchanged, and reports whether the two classes were distinct. It panics
/// only on an index out of bounds, which the precondition excludes.
#[verifier::external_body]
pub(crate) fn uf_union(u: &mut UnionFind<u16>, a: u16, b: u16) -> (r: bool)
    requires
        (a as int) < uf_len(*old(u)),
        (b as int) < uf_len(*old(u)),
    ensures
        uf_len(*final(u)) == uf_len(*old(u)),
        r == (uf_roots(*old(u))[a as int] != uf_roots(*old(u))[b as int]),
        uf_roots(*final(u))[a as int] == uf_roots(*old(u))[a as int] || uf_roots(*final(u))[
            a as int
        ] == uf_roots(*old(u))[b as int],
        forall|i: int|
            0 <= i < uf_len(*old(u)) ==> #[trigger] uf_roots(*final(u))[i] == (
            if uf_roots(*old(u))[i] == uf_roots(*old(u))[a as int] || uf_roots(*old(u))[i]
                == uf_roots(*old(u))[b as int] {
                uf_roots(*final(u))[a as int]
            } else {
                uf_roots(*old(u))[i]
            }),
{
    u.union(a, b)
}

} // verus!
