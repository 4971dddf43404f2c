//! Reachability in a heap graph: which cells a set of roots keeps alive.
use vstd::prelude::*;

verus! {

/// A heap graph maps the address of each live cell to the addresses it references.
pub type Graph = Map<usize, Seq<usize>>;

/// An edge from a live cell to an address it references.
pub open spec fn edge(g: Graph, a: usize, b: usize) -> bool {
    g.contains_key(a) && g[a].contains(b)
}

/// A path that starts at a root and follows edges.
pub open spec fn is_path(g: Graph, roots: Seq<usize>, p: Seq<usize>) -> bool {
    &&& p.len() > 0
    &&& roots.contains(p[0])
    &&& forall|i: int| 0 <= i < p.len() - 1 ==> #[trigger] edge(g, p[i], p[i + 1])
}

/// An address is reachable when a path from a root ends at it.
pub open spec fn reachable(g: Graph, roots: Seq<usize>, a: usize) -> bool {
    exists|p: Seq<usize>| is_path(g, roots, p) && p.last() == a
}

/// `small` is part of `big`: each of its cells is in `big` with the same references.
pub open spec fn subgraph(small: Graph, big: Graph) -> bool {
    forall|a: usize| #[trigger] small.contains_key(a) ==> big.contains_key(a) && big[a] == small[a]
}

pub proof fn lemma_path_prefix(g: Graph, roots: Seq<usize>, p: Seq<usize>, k: int)
    requires
        is_path(g, roots, p),
        0 < k <= p.len(),
    ensures
        is_path(g, roots, p.take(k)),
        p.take(k).last() == p[k - 1],
{
    let q = p.take(k);
    assert forall|i: int| 0 <= i < q.len() - 1 implies #[trigger] edge(g, q[i], q[i + 1]) by {
        assert(edge(g, p[i], p[i + 1]));
    }
}

/// Every root is reachable.
pub proof fn lemma_root_reachable(g: Graph, roots: Seq<usize>, r: usize)
    requires
        roots.contains(r),
    ensures
        reachable(g, roots, r),
{
    let p = seq![r];
    assert(is_path(g, roots, p) && p.last() == r);
}

/// Following an edge from a reachable cell gives a reachable cell.
pub proof fn lemma_reachable_step(g: Graph, roots: Seq<usize>, a: usize, b: usize)
    requires
        reachable(g, roots, a),
        edge(g, a, b),
    ensures
        reachable(g, roots, b),
{
    let p = choose|p: Seq<usize>| is_path(g, roots, p) && p.last() == a;
    let q = p.push(b);
    assert forall|i: int| 0 <= i < q.len() - 1 implies #[trigger] edge(g, q[i], q[i + 1]) by {
        if i < p.len() - 1 {
            assert(q[i] == p[i] && q[i + 1] == p[i + 1]);
        } else {
            assert(q[i] == a && q[i + 1] == b);
        }
    }
    assert(is_path(g, roots, q) && q.last() == b);
}

/// A set that holds every root and is closed under edges holds every reachable address.
pub proof fn lemma_reachable_closed(g: Graph, roots: Seq<usize>, s: spec_fn(usize) -> bool, a: usize)
    requires
        forall|r: usize| roots.contains(r) ==> #[trigger] s(r),
        forall|x: usize, y: usize| #[trigger] s(x) && #[trigger] edge(g, x, y) ==> s(y),
        reachable(g, roots, a),
    ensures
        s(a),
{
    let p = choose|p: Seq<usize>| is_path(g, roots, p) && p.last() == a;
    lemma_path_closed(g, roots, s, p);
}

proof fn lemma_path_closed(g: Graph, roots: Seq<usize>, s: spec_fn(usize) -> bool, p: Seq<usize>)
    requires
        forall|r: usize| roots.contains(r) ==> #[trigger] s(r),
        forall|x: usize, y: usize| #[trigger] s(x) && #[trigger] edge(g, x, y) ==> s(y),
        is_path(g, roots, p),
    ensures
        s(p.last()),
    decreases p.len(),
{
    if p.len() == 1 {
        assert(s(p[0]));
    } else {
        let n = p.len() as int;
        lemma_path_prefix(g, roots, p, n - 1);
        lemma_path_closed(g, roots, s, p.take(n - 1));
        let i = n - 2;
        assert(edge(g, p[i], p[i + 1]));
        assert(p.take(n - 1).last() == p[i]);
    }
}

/// Reachability carries over to a larger graph with the same roots.
pub proof fn lemma_reachable_grow(small: Graph, big: Graph, roots: Seq<usize>, a: usize)
    requires
        subgraph(small, big),
        reachable(small, roots, a),
    ensures
        reachable(big, roots, a),
{
    let p = choose|p: Seq<usize>| is_path(small, roots, p) && p.last() == a;
    assert forall|i: int| 0 <= i < p.len() - 1 implies #[trigger] edge(big, p[i], p[i + 1]) by {
        assert(edge(small, p[i], p[i + 1]));
    }
    assert(is_path(big, roots, p));
}

/// Reachability carries over to a smaller graph that keeps every reachable cell.
pub proof fn lemma_reachable_shrink(small: Graph, big: Graph, roots: Seq<usize>, a: usize)
    requires
        subgraph(small, big),
        forall|x: usize| #[trigger] reachable(big, roots, x) && big.contains_key(x) ==> small.contains_key(x),
        reachable(big, roots, a),
    ensures
        reachable(small, roots, a),
{
    let p = choose|p: Seq<usize>| is_path(big, roots, p) && p.last() == a;
    assert forall|i: int| 0 <= i < p.len() - 1 implies #[trigger] edge(small, p[i], p[i + 1]) by {
        assert(edge(big, p[i], p[i + 1]));
        lemma_path_prefix(big, roots, p, i + 1);
        assert(reachable(big, roots, p[i]));
    }
    assert(is_path(small, roots, p));
}

/// Reachability carries over when roots are added.
pub proof fn lemma_reachable_more_roots(g: Graph, roots: Seq<usize>, more: Seq<usize>, a: usize)
    requires
        forall|r: usize| roots.contains(r) ==> more.contains(r),
        reachable(g, roots, a),
    ensures
        reachable(g, more, a),
{
    let p = choose|p: Seq<usize>| is_path(g, roots, p) && p.last() == a;
    assert(is_path(g, more, p));
}

} // verus!
