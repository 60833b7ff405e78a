use vstd::prelude::*;
use fixedbitset::FixedBitSet;
use petgraph::graph::{NodeIndex, UnGraph};
use petgraph::visit::GetAdjacencyMatrix;
use crate::objects::components::joined;
use crate::objects::embedded_graph::{bits_of, bits_len, bits_contains, lemma_cell_bound};
use crate::objects::graph::Graph;

verus! {

/// `petgraph`'s `GetAdjacencyMatrix::adjacency_matrix` for the undirected graph with the
/// vertices `0..n` and the given edges: as its source shows, a set of `n * n` bits in which bit
/// `a * n + b` is set exactly when an edge joins `a` and `b`, one way round or the other.
#[verifier::external_body]
fn adjacency_bits(n: usize, edges: &Vec<(usize, usize)>) -> (m: FixedBitSet)
    requires
        n * n <= usize::MAX,
        n <= u32::MAX,
        edges@.len() <= u32::MAX,
        forall|k: int| 0 <= k < edges@.len() ==> (#[trigger] edges@[k]).0 < n && edges@[k].1 < n,
    ensures
        bits_len(m) == n * n,
        forall|a: int, b: int| 0 <= a < n && 0 <= b < n ==>
            (bits_of(m).contains((a * n + b) as nat) <==> #[trigger] joined(edges@, a, b)),
{
    let mut g: UnGraph<(), ()> = UnGraph::default();
    let nodes: Vec<NodeIndex> = (0..n).map(|_| g.add_node(())).collect();
    for &(a, b) in edges.iter() {
        g.add_edge(nodes[a], nodes[b], ());
    }
    g.adjacency_matrix()
}

/// The number of vertices below `i` joined to `v`.
pub open spec fn adj_count(edges: Seq<(usize, usize)>, v: int, i: int) -> nat
    decreases i,
{
    if i <= 0 {
        0
    } else {
        adj_count(edges, v, i - 1) + if joined(edges, v, i - 1) { 1nat } else { 0nat }
    }
}

/// Vertex `w` shares a neighbour below `n` with `v`.
pub open spec fn second_neighbour(edges: Seq<(usize, usize)>, n: nat, v: int, w: int) -> bool {
    exists|u: int| 0 <= u < n && #[trigger] joined(edges, v, u) && joined(edges, w, u)
}

/// The number of vertices below `i` that share a neighbour below `n` with `v`.
pub open spec fn second_count(edges: Seq<(usize, usize)>, n: nat, v: int, i: int) -> nat
    decreases i,
{
    if i <= 0 {
        0
    } else {
        second_count(edges, n, v, i - 1) + if second_neighbour(edges, n, v, i - 1) { 1nat } else { 0nat }
    }
}

/// The number of vertices below `i` with `k` neighbours below `n`.
pub open spec fn degree_hist(edges: Seq<(usize, usize)>, n: nat, k: int, i: int) -> nat
    decreases i,
{
    if i <= 0 {
        0
    } else {
        degree_hist(edges, n, k, i - 1) + if adj_count(edges, i - 1, n as int) == k { 1nat } else { 0nat }
    }
}

/// The number of vertices below `i` with `k` second neighbours below `n`.
pub open spec fn second_hist(edges: Seq<(usize, usize)>, n: nat, k: int, i: int) -> nat
    decreases i,
{
    if i <= 0 {
        0
    } else {
        second_hist(edges, n, k, i - 1) + if second_count(edges, n, i - 1, n as int) == k { 1nat } else { 0nat }
    }
}

/// The invariant that `graph_hash` computes for a graph on `0..n`: at `k < n`, the number of
/// vertices with `k` neighbours; at `n + k`, the number with `k` second neighbours (at `n` both
/// counts add).
pub open spec fn hash_of(n: nat, edges: Seq<(usize, usize)>) -> Seq<usize> {
    Seq::new((2 * n + 1) as nat, |k: int|
        (degree_hist(edges, n, k, n as int) + if k >= n { second_hist(edges, n, k - n, n as int) } else { 0nat }) as usize)
}

proof fn lemma_count_bound(edges: Seq<(usize, usize)>, v: int, i: int)
    requires
        i >= 0,
    ensures
        adj_count(edges, v, i) <= i,
    decreases i,
{
    if i > 0 {
        lemma_count_bound(edges, v, i - 1);
    }
}

proof fn lemma_second_count_bound(edges: Seq<(usize, usize)>, n: nat, v: int, i: int)
    requires
        i >= 0,
    ensures
        second_count(edges, n, v, i) <= i,
    decreases i,
{
    if i > 0 {
        lemma_second_count_bound(edges, n, v, i - 1);
    }
}

proof fn lemma_hist_bound(edges: Seq<(usize, usize)>, n: nat, k: int, i: int)
    requires
        i >= 0,
    ensures
        degree_hist(edges, n, k, i) <= i,
    decreases i,
{
    if i > 0 {
        lemma_hist_bound(edges, n, k, i - 1);
    }
}

proof fn lemma_second_hist_bound(edges: Seq<(usize, usize)>, n: nat, k: int, i: int)
    requires
        i >= 0,
    ensures
        second_hist(edges, n, k, i) <= i,
    decreases i,
{
    if i > 0 {
        lemma_second_hist_bound(edges, n, k, i - 1);
    }
}

/// The adjacency matrix of the graph on `0..n` with `edges`.
pub open spec fn is_matrix(m: FixedBitSet, n: nat, edges: Seq<(usize, usize)>) -> bool {
    forall|x: int, y: int| 0 <= x < n && 0 <= y < n ==>
        (bits_of(m).contains((x * n + y) as nat) <==> #[trigger] joined(edges, x, y))
}

/// Whether `a` and `b` are joined, read from the matrix as `petgraph`'s `is_adjacent` reads it:
/// bit `n * a + b`.
fn matrix_adjacent(m: &FixedBitSet, n: usize, a: usize, b: usize, Ghost(edges): Ghost<Seq<(usize, usize)>>) -> (r: bool)
    requires
        a < n,
        b < n,
        n * n <= usize::MAX,
        is_matrix(*m, n as nat, edges),
    ensures
        r == joined(edges, a as int, b as int),
{
    proof {
        lemma_cell_bound(a as int, b as int, n as int);
    }
    bits_contains(m, a * n + b)
}

/// The number of neighbours of `v`.
fn count_neighbours(m: &FixedBitSet, n: usize, v: usize, Ghost(edges): Ghost<Seq<(usize, usize)>>) -> (r: usize)
    requires
        v < n,
        n * n <= usize::MAX,
        is_matrix(*m, n as nat, edges),
    ensures
        r == adj_count(edges, v as int, n as int),
{
    let mut c: usize = 0;
    let mut u: usize = 0;
    while u < n
        invariant
            v < n,
            n * n <= usize::MAX,
            is_matrix(*m, n as nat, edges),
            u <= n,
            c == adj_count(edges, v as int, u as int),
            c <= u,
        decreases n - u,
    {
        if matrix_adjacent(m, n, v, u, Ghost(edges)) {
            c = c + 1;
        }
        u = u + 1;
    }
    c
}

/// The number of vertices that share a neighbour with `v`.
fn count_second_neighbours(m: &FixedBitSet, n: usize, v: usize, Ghost(edges): Ghost<Seq<(usize, usize)>>) -> (r: usize)
    requires
        v < n,
        n * n <= usize::MAX,
        is_matrix(*m, n as nat, edges),
    ensures
        r == second_count(edges, n as nat, v as int, n as int),
{
    let mut c: usize = 0;
    let mut w: usize = 0;
    while w < n
        invariant
            v < n,
            n * n <= usize::MAX,
            is_matrix(*m, n as nat, edges),
            w <= n,
            c == second_count(edges, n as nat, v as int, w as int),
            c <= w,
        decreases n - w,
    {
        let mut found = false;
        let mut u: usize = 0;
        while u < n && !found
            invariant
                v < n,
                w < n,
                n * n <= usize::MAX,
                is_matrix(*m, n as nat, edges),
                u <= n,
                found ==> second_neighbour(edges, n as nat, v as int, w as int),
                !found ==> forall|x: int| 0 <= x < u ==> !(#[trigger] joined(edges, v as int, x) && joined(edges, w as int, x)),
            decreases n - u,
        {
            if matrix_adjacent(m, n, v, u, Ghost(edges)) && matrix_adjacent(m, n, w, u, Ghost(edges)) {
                found = true;
            }
            u = u + 1;
        }
        proof {
            if !found {
                assert(!second_neighbour(edges, n as nat, v as int, w as int));
            }
        }
        if found {
            c = c + 1;
        }
        w = w + 1;
    }
    c
}

impl<V> Graph<V> {
    /// A hash invariant under isomorphism: the numbers of vertices by number of neighbours,
    /// and by number of second neighbours, read from `petgraph`'s adjacency matrix.
    pub fn graph_hash(&self) -> (r: Vec<usize>)
        requires
            self.wf(),
            self.nv() * self.nv() <= usize::MAX,
            2 * self.nv() + 1 <= usize::MAX,
        ensures
            r@ == hash_of(self.nv(), self.edge_list()),
    {
        let n = self.num_verts();
        let ghost es = self.edge_list();
        let mut data: Vec<usize> = Vec::new();
        let mut k: usize = 0;
        while k < 2 * n + 1
            invariant
                k <= 2 * n + 1,
                2 * n + 1 <= usize::MAX,
                data.len() == k,
                forall|i: int| 0 <= i < k ==> #[trigger] data@[i] == 0,
            decreases 2 * n + 1 - k,
        {
            data.push(0);
            k = k + 1;
        }
        let edges = self.edges();
        let adj = adjacency_bits(n, &edges);
        let mut v: usize = 0;
        while v < n
            invariant
                n == self.nv(),
                es == self.edge_list(),
                n * n <= usize::MAX,
                2 * n + 1 <= usize::MAX,
                v <= n,
                data.len() == 2 * n + 1,
                is_matrix(adj, n as nat, es),
                forall|i: int| 0 <= i < 2 * n + 1 ==> #[trigger] data@[i] == degree_hist(es, n as nat, i, v as int),
            decreases n - v,
        {
            let deg = count_neighbours(&adj, n, v, Ghost(es));
            proof {
                lemma_count_bound(es, v as int, n as int);
                lemma_hist_bound(es, n as nat, deg as int, v as int);
            }
            data.set(deg, data[deg] + 1);
            v = v + 1;
        }
        let mut v: usize = 0;
        while v < n
            invariant
                n == self.nv(),
                es == self.edge_list(),
                n * n <= usize::MAX,
                2 * n + 1 <= usize::MAX,
                v <= n,
                data.len() == 2 * n + 1,
                is_matrix(adj, n as nat, es),
                forall|i: int| 0 <= i < 2 * n + 1 ==> #[trigger] data@[i] == degree_hist(es, n as nat, i, n as int)
                    + if i >= n { second_hist(es, n as nat, i - n, v as int) } else { 0nat },
            decreases n - v,
        {
            let deg2 = count_second_neighbours(&adj, n, v, Ghost(es));
            proof {
                lemma_second_count_bound(es, n as nat, v as int, n as int);
                lemma_second_hist_bound(es, n as nat, deg2 as int, v as int);
                lemma_hist_bound(es, n as nat, (n + deg2) as int, n as int);
            }
            data.set(n + deg2, data[n + deg2] + 1);
            v = v + 1;
        }
        proof {
            assert(data@ =~= hash_of(self.nv(), self.edge_list()));
        }
        data
    }
}

} // verus!
