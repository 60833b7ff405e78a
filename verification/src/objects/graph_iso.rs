use vstd::prelude::*;
use vstd::set_lib::lemma_map_size;
use crate::objects::components::{joined, edge_joins};
use crate::objects::graph_hash::{hash_of, adj_count, second_count, second_neighbour, degree_hist, second_hist};
use crate::objects::graph_template::GraphTemplateVertex;

verus! {

/// No two edges join the same two vertices: the graph is no multigraph.
pub open spec fn no_parallel_edges(e: Seq<(usize, usize)>) -> bool {
    forall|i: int, j: int| 0 <= i < j < e.len() ==> !edge_joins(#[trigger] e[j], (#[trigger] e[i]).0 as int, e[i].1 as int)
}

/// `f` and `g` are maps of `0..n` into itself, each undoing the other.
pub open spec fn inverse_maps(n: nat, f: Seq<usize>, g: Seq<usize>) -> bool {
    &&& f.len() == n
    &&& g.len() == n
    &&& forall|x: int| 0 <= x < n ==> (#[trigger] f[x]) < n && g[f[x] as int] == x
    &&& forall|y: int| 0 <= y < n ==> (#[trigger] g[y]) < n && f[g[y] as int] == y
}

/// `f` takes the adjacency of `e0` on `0..n` to that of `e1`: two vertices are joined in `e0`
/// exactly when their images are joined in `e1`.
pub open spec fn maps_adjacency(n: nat, e0: Seq<(usize, usize)>, e1: Seq<(usize, usize)>, f: Seq<usize>) -> bool {
    forall|a: int, b: int| 0 <= a < n && 0 <= b < n ==> (joined(e0, a, b) <==> #[trigger] joined(e1, f[a] as int, f[b] as int))
}

/// The graphs on `0..n0` and `0..n1` are isomorphic: a bijection of the vertices takes the
/// adjacency of one to that of the other.
pub open spec fn plain_iso(n0: nat, e0: Seq<(usize, usize)>, n1: nat, e1: Seq<(usize, usize)>) -> bool {
    n0 == n1 && exists|f: Seq<usize>, g: Seq<usize>| #[trigger] inverse_maps(n0, f, g) && maps_adjacency(n0, e0, e1, f)
}

/// The graphs with vertex types `w0` and `w1` are isomorphic: a bijection of the vertices
/// takes the adjacency of one to that of the other and keeps the vertex types.
pub open spec fn typed_iso(w0: Seq<GraphTemplateVertex>, e0: Seq<(usize, usize)>, w1: Seq<GraphTemplateVertex>, e1: Seq<(usize, usize)>) -> bool {
    w0.len() == w1.len() && exists|f: Seq<usize>, g: Seq<usize>| #[trigger] inverse_maps(w0.len(), f, g)
        && maps_adjacency(w0.len(), e0, e1, f)
        && forall|x: int| 0 <= x < w0.len() ==> w1[(#[trigger] f[x]) as int] == w0[x]
}

/// The identity map is a bijection that keeps every adjacency.
pub proof fn lemma_identity_iso(n: nat, e: Seq<(usize, usize)>)
    requires
        n <= usize::MAX,
    ensures
        inverse_maps(n, Seq::new(n, |x: int| x as usize), Seq::new(n, |x: int| x as usize)),
        maps_adjacency(n, e, e, Seq::new(n, |x: int| x as usize)),
{
}

/// Inverting a bijection that keeps adjacency gives one.
pub proof fn lemma_inverse_iso(n: nat, e0: Seq<(usize, usize)>, e1: Seq<(usize, usize)>, f: Seq<usize>, g: Seq<usize>)
    requires
        inverse_maps(n, f, g),
        maps_adjacency(n, e0, e1, f),
    ensures
        inverse_maps(n, g, f),
        maps_adjacency(n, e1, e0, g),
{
    assert forall|a: int, b: int| 0 <= a < n && 0 <= b < n implies (joined(e1, a, b) <==> #[trigger] joined(e0, g[a] as int, g[b] as int)) by {
        let x = g[a] as int;
        let y = g[b] as int;
        assert(joined(e0, x, y) <==> joined(e1, f[x] as int, f[y] as int));
    }
}

/// Composing bijections that keep adjacency gives one.
pub proof fn lemma_compose_iso(
    n: nat,
    e0: Seq<(usize, usize)>,
    e1: Seq<(usize, usize)>,
    e2: Seq<(usize, usize)>,
    f1: Seq<usize>,
    g1: Seq<usize>,
    f2: Seq<usize>,
    g2: Seq<usize>,
)
    requires
        inverse_maps(n, f1, g1),
        inverse_maps(n, f2, g2),
        maps_adjacency(n, e0, e1, f1),
        maps_adjacency(n, e1, e2, f2),
    ensures
        inverse_maps(n, Seq::new(n, |x: int| f2[f1[x] as int]), Seq::new(n, |y: int| g1[g2[y] as int])),
        maps_adjacency(n, e0, e2, Seq::new(n, |x: int| f2[f1[x] as int])),
{
    let f = Seq::new(n, |x: int| f2[f1[x] as int]);
    let g = Seq::new(n, |y: int| g1[g2[y] as int]);
    assert forall|x: int| 0 <= x < n implies (#[trigger] f[x]) < n && g[f[x] as int] == x by {
        assert(f1[x] < n);
        assert(g2[f2[f1[x] as int] as int] == f1[x]);
    }
    assert forall|y: int| 0 <= y < n implies (#[trigger] g[y]) < n && f[g[y] as int] == y by {
        assert(g2[y] < n);
        assert(f1[g1[g2[y] as int] as int] == g2[y]);
    }
    assert forall|a: int, b: int| 0 <= a < n && 0 <= b < n implies (joined(e0, a, b) <==> #[trigger] joined(e2, f[a] as int, f[b] as int)) by {
        assert(joined(e0, a, b) <==> joined(e1, f1[a] as int, f1[b] as int));
        assert(f1[a] < n && f1[b] < n);
        assert(joined(e1, f1[a] as int, f1[b] as int) <==> joined(e2, f2[f1[a] as int] as int, f2[f1[b] as int] as int));
    }
}

/// The number of `x` in `0..i` for which `p` holds.
pub open spec fn count_true(p: spec_fn(int) -> bool, i: int) -> nat
    decreases i,
{
    if i <= 0 {
        0
    } else {
        count_true(p, i - 1) + if p(i - 1) { 1nat } else { 0nat }
    }
}

/// The set of `x` in `0..i` for which `p` holds.
pub open spec fn true_set(p: spec_fn(int) -> bool, i: int) -> Set<int> {
    Set::new(|x: int| 0 <= x < i && p(x))
}

proof fn lemma_count_set(p: spec_fn(int) -> bool, i: int)
    requires
        i >= 0,
    ensures
        true_set(p, i).finite(),
        true_set(p, i).len() == count_true(p, i),
    decreases i,
{
    if i == 0 {
        assert(true_set(p, i) =~= Set::<int>::empty());
    } else {
        lemma_count_set(p, i - 1);
        if p(i - 1) {
            assert(true_set(p, i) =~= true_set(p, i - 1).insert(i - 1));
        } else {
            assert(true_set(p, i) =~= true_set(p, i - 1));
        }
    }
}

/// Renaming by a bijection does not change a count: if `p` holds at `x` exactly when `q`
/// holds at `f[x]`, both hold equally often on `0..n`.
proof fn lemma_count_perm(p: spec_fn(int) -> bool, q: spec_fn(int) -> bool, n: nat, f: Seq<usize>, g: Seq<usize>)
    requires
        inverse_maps(n, f, g),
        forall|x: int| 0 <= x < n ==> p(x) == q(#[trigger] f[x] as int),
    ensures
        count_true(p, n as int) == count_true(q, n as int),
{
    lemma_count_set(p, n as int);
    lemma_count_set(q, n as int);
    let sp = true_set(p, n as int);
    let sq = true_set(q, n as int);
    let m = |x: int| f[x] as int;
    assert forall|y: int| #[trigger] sq.contains(y) <==> sp.map(m).contains(y) by {
        if sq.contains(y) {
            let x = g[y] as int;
            assert(f[x] == y);
            assert(sp.contains(x));
            assert(m(x) == y);
        }
        if sp.map(m).contains(y) {
            let x = choose|x: int| sp.contains(x) && m(x) == y;
            assert(f[x] < n);
        }
    }
    assert(sp.map(m) =~= sq);
    assert forall|x1: int, x2: int| sp.contains(x1) && sp.contains(x2) && #[trigger] m(x1) == #[trigger] m(x2) implies x1 == x2 by {
        assert(g[f[x1] as int] == x1 && g[f[x2] as int] == x2);
    }
    lemma_map_size(sp, sq, m);
}

proof fn lemma_adj_count_is_count(e: Seq<(usize, usize)>, v: int, i: int)
    ensures
        adj_count(e, v, i) == count_true(|u: int| joined(e, v, u), i),
    decreases i,
{
    if i > 0 {
        lemma_adj_count_is_count(e, v, i - 1);
    }
}

proof fn lemma_second_count_is_count(e: Seq<(usize, usize)>, n: nat, v: int, i: int)
    ensures
        second_count(e, n, v, i) == count_true(|w: int| second_neighbour(e, n, v, w), i),
    decreases i,
{
    if i > 0 {
        lemma_second_count_is_count(e, n, v, i - 1);
    }
}

proof fn lemma_degree_hist_is_count(e: Seq<(usize, usize)>, n: nat, k: int, i: int)
    ensures
        degree_hist(e, n, k, i) == count_true(|v: int| adj_count(e, v, n as int) == k, i),
    decreases i,
{
    if i > 0 {
        lemma_degree_hist_is_count(e, n, k, i - 1);
    }
}

proof fn lemma_second_hist_is_count(e: Seq<(usize, usize)>, n: nat, k: int, i: int)
    ensures
        second_hist(e, n, k, i) == count_true(|v: int| second_count(e, n, v, n as int) == k, i),
    decreases i,
{
    if i > 0 {
        lemma_second_hist_is_count(e, n, k, i - 1);
    }
}

/// Isomorphic graphs have the same hash: each count that `hash_of` makes is the same under a
/// bijection that keeps adjacency.
pub proof fn lemma_hash_of_iso(n: nat, e0: Seq<(usize, usize)>, e1: Seq<(usize, usize)>, f: Seq<usize>, g: Seq<usize>)
    requires
        inverse_maps(n, f, g),
        maps_adjacency(n, e0, e1, f),
    ensures
        hash_of(n, e0) == hash_of(n, e1),
{
    lemma_inverse_iso(n, e0, e1, f, g);
    // neighbour counts
    assert forall|v: int| 0 <= v < n implies adj_count(e0, v, n as int) == #[trigger] adj_count(e1, f[v] as int, n as int) by {
        lemma_adj_count_is_count(e0, v, n as int);
        lemma_adj_count_is_count(e1, f[v] as int, n as int);
        let p = |u: int| joined(e0, v, u);
        let q = |u: int| joined(e1, f[v] as int, u);
        assert forall|x: int| 0 <= x < n implies p(x) == q(#[trigger] f[x] as int) by {
            assert(joined(e0, v, x) <==> joined(e1, f[v] as int, f[x] as int));
        }
        lemma_count_perm(p, q, n, f, g);
    }
    // second neighbours
    assert forall|v: int, w: int| 0 <= v < n && 0 <= w < n implies
        (second_neighbour(e0, n, v, w) <==> #[trigger] second_neighbour(e1, n, f[v] as int, f[w] as int)) by {
        if second_neighbour(e0, n, v, w) {
            let u = choose|u: int| 0 <= u < n && #[trigger] joined(e0, v, u) && joined(e0, w, u);
            assert(joined(e1, f[v] as int, f[u] as int));
            assert(joined(e1, f[w] as int, f[u] as int));
            assert(f[u] < n);
        }
        if second_neighbour(e1, n, f[v] as int, f[w] as int) {
            let u = choose|u: int| 0 <= u < n && #[trigger] joined(e1, f[v] as int, u) && joined(e1, f[w] as int, u);
            let x = g[u] as int;
            assert(f[x] == u);
            assert(joined(e0, v, x) <==> joined(e1, f[v] as int, f[x] as int));
            assert(joined(e0, w, x) <==> joined(e1, f[w] as int, f[x] as int));
            assert(joined(e0, v, x) && joined(e0, w, x));
        }
    }
    assert forall|v: int| 0 <= v < n implies second_count(e0, n, v, n as int) == #[trigger] second_count(e1, n, f[v] as int, n as int) by {
        lemma_second_count_is_count(e0, n, v, n as int);
        lemma_second_count_is_count(e1, n, f[v] as int, n as int);
        let p = |w: int| second_neighbour(e0, n, v, w);
        let q = |w: int| second_neighbour(e1, n, f[v] as int, w);
        assert forall|x: int| 0 <= x < n implies p(x) == q(#[trigger] f[x] as int) by {
            assert(second_neighbour(e0, n, v, x) <==> second_neighbour(e1, n, f[v] as int, f[x] as int));
        }
        lemma_count_perm(p, q, n, f, g);
    }
    // the histograms
    let h0 = hash_of(n, e0);
    let h1 = hash_of(n, e1);
    assert forall|k: int| 0 <= k < h0.len() implies h0[k] == h1[k] by {
        lemma_degree_hist_is_count(e0, n, k, n as int);
        lemma_degree_hist_is_count(e1, n, k, n as int);
        let p = |v: int| adj_count(e0, v, n as int) == k;
        let q = |v: int| adj_count(e1, v, n as int) == k;
        assert forall|x: int| 0 <= x < n implies p(x) == q(#[trigger] f[x] as int) by {
            assert(adj_count(e0, x, n as int) == adj_count(e1, f[x] as int, n as int));
        }
        lemma_count_perm(p, q, n, f, g);
        lemma_second_hist_is_count(e0, n, k - n, n as int);
        lemma_second_hist_is_count(e1, n, k - n, n as int);
        let p2 = |v: int| second_count(e0, n, v, n as int) == k - n;
        let q2 = |v: int| second_count(e1, n, v, n as int) == k - n;
        assert forall|x: int| 0 <= x < n implies p2(x) == q2(#[trigger] f[x] as int) by {
            assert(second_count(e0, n, x, n as int) == second_count(e1, n, f[x] as int, n as int));
        }
        lemma_count_perm(p2, q2, n, f, g);
    }
    assert(h0 =~= h1);
}

} // verus!
