use vstd::prelude::*;
use petgraph::graph::{NodeIndex, UnGraph};
use crate::CombEq;
use crate::objects::graph::Graph;
use crate::objects::graph_hash::hash_of;
use crate::objects::graph_template::GraphTemplateVertex;
use crate::collections::comb_map::clones_keep_hash;
use crate::collections::index::obeys_index_laws;
use crate::objects::graph_iso::{no_parallel_edges, plain_iso, typed_iso, inverse_maps, maps_adjacency, lemma_identity_iso,
    lemma_inverse_iso, lemma_compose_iso, lemma_hash_of_iso};

verus! {

/// What `petgraph::algo::is_isomorphic` answers for the undirected graphs with the vertices
/// `0..n0` and `0..n1` and the given edges.
pub uninterp spec fn petgraph_isomorphic(n0: nat, e0: Seq<(usize, usize)>, n1: nat, e1: Seq<(usize, usize)>) -> bool;

/// What `petgraph::algo::is_isomorphic_matching` answers for the undirected graphs with the
/// vertex types `w0` and `w1` and the given edges, when vertices match if their types are
/// equal and edges always match.
pub uninterp spec fn petgraph_isomorphic_typed(
    w0: Seq<GraphTemplateVertex>,
    e0: Seq<(usize, usize)>,
    w1: Seq<GraphTemplateVertex>,
    e1: Seq<(usize, usize)>,
) -> bool;

/// The graph is well formed and small enough for `graph_hash`.
pub open spec fn hashable<V>(g: Graph<V>) -> bool {
    g.wf() && g.nv() * g.nv() <= usize::MAX && 2 * g.nv() + 1 <= usize::MAX
}

/// `petgraph::algo::is_isomorphic` on the undirected graphs with the vertices `0..n0` and
/// `0..n1` and the given edges (VF2). Its answer is named. As its documentation says, for
/// graphs that are no multigraphs it is whether the graphs are isomorphic; on multigraphs it
/// is left unsaid. As its source shows, graphs with different numbers of vertices or of edges
/// are not isomorphic.
#[verifier::external_body]
fn iso_plain(n0: usize, e0: &Vec<(usize, usize)>, n1: usize, e1: &Vec<(usize, usize)>) -> (r: bool)
    requires
        n0 <= u32::MAX,
        n1 <= u32::MAX,
        e0@.len() <= u32::MAX,
        e1@.len() <= u32::MAX,
        forall|k: int| 0 <= k < e0@.len() ==> (#[trigger] e0@[k]).0 < n0 && e0@[k].1 < n0,
        forall|k: int| 0 <= k < e1@.len() ==> (#[trigger] e1@[k]).0 < n1 && e1@[k].1 < n1,
    ensures
        r == petgraph_isomorphic(n0 as nat, e0@, n1 as nat, e1@),
        r ==> n0 == n1 && e0@.len() == e1@.len(),
        no_parallel_edges(e0@) && no_parallel_edges(e1@) ==> (r == plain_iso(n0 as nat, e0@, n1 as nat, e1@)),
{
    let build = |n: usize, e: &Vec<(usize, usize)>| {
        let mut g: UnGraph<(), ()> = UnGraph::default();
        let v: Vec<NodeIndex> = (0..n).map(|_| g.add_node(())).collect();
        e.iter().for_each(|&(a, b)| { g.add_edge(v[a], v[b], ()); });
        g
    };
    petgraph::algo::is_isomorphic(&build(n0, e0), &build(n1, e1))
}

/// Two vertex types are the same.
pub fn same_type(a: &GraphTemplateVertex, b: &GraphTemplateVertex) -> (r: bool)
    ensures
        r == (*a == *b),
{
    *a == *b
}

/// Any two edges match.
pub fn any_edges(a: &(), b: &()) -> (r: bool)
    ensures
        r,
{
    true
}

/// `petgraph::algo::is_isomorphic_matching` on the undirected graphs with the vertex types
/// `w0`, `w1` and the given edges, vertices matching by `same_type` and edges by `any_edges`
/// (VF2). Its answer is named. As its documentation says, for graphs that are no multigraphs
/// it is whether a bijection keeps the adjacency and the matching (here: the vertex types);
/// on multigraphs it is left unsaid. As its source shows, graphs with different numbers of
/// vertices or of edges are not isomorphic.
#[verifier::external_body]
fn iso_typed(w0: &Vec<GraphTemplateVertex>, e0: &Vec<(usize, usize)>, w1: &Vec<GraphTemplateVertex>, e1: &Vec<(usize, usize)>) -> (r: bool)
    requires
        w0@.len() <= u32::MAX,
        w1@.len() <= u32::MAX,
        e0@.len() <= u32::MAX,
        e1@.len() <= u32::MAX,
        forall|k: int| 0 <= k < e0@.len() ==> (#[trigger] e0@[k]).0 < w0@.len() && e0@[k].1 < w0@.len(),
        forall|k: int| 0 <= k < e1@.len() ==> (#[trigger] e1@[k]).0 < w1@.len() && e1@[k].1 < w1@.len(),
    ensures
        r == petgraph_isomorphic_typed(w0@, e0@, w1@, e1@),
        r ==> w0@.len() == w1@.len() && e0@.len() == e1@.len(),
        no_parallel_edges(e0@) && no_parallel_edges(e1@) ==> (r == typed_iso(w0@, e0@, w1@, e1@)),
{
    let build = |w: &Vec<GraphTemplateVertex>, e: &Vec<(usize, usize)>| {
        let mut g: UnGraph<GraphTemplateVertex, ()> = UnGraph::default();
        let v: Vec<NodeIndex> = w.iter().map(|&t| g.add_node(t)).collect();
        e.iter().for_each(|&(a, b)| { g.add_edge(v[a], v[b], ()); });
        g
    };
    petgraph::algo::is_isomorphic_matching(&build(w0, e0), &build(w1, e1), |a, b| same_type(a, b), |a, b| any_edges(a, b))
}

impl<V> Graph<V> {
    /// Whether the graph is well formed.
    pub fn is_well_formed(&self) -> (r: bool)
        ensures
            r == self.wf(),
    {
        let n = self.num_verts();
        let m = self.num_edges();
        if n > 4294967295usize || m > 4294967295usize {
            return false;
        }
        let edges = self.edges();
        let mut k: usize = 0;
        while k < m
            invariant
                k <= m,
                m == self.ne(),
                n == self.nv(),
                edges@ == self.edge_list(),
                forall|j: int| 0 <= j < k ==> (#[trigger] self.edge_list()[j]).0 < n && self.edge_list()[j].1 < n,
            decreases m - k,
        {
            let (a, b) = edges[k];
            if a >= n || b >= n {
                return false;
            }
            k = k + 1;
        }
        true
    }

    /// Whether the graph is well formed and small enough for `graph_hash`.
    pub fn is_hashable(&self) -> (r: bool)
        ensures
            r == hashable(*self),
    {
        if !self.is_well_formed() {
            return false;
        }
        let n = self.num_verts();
        match n.checked_mul(n) {
            Some(_) => {},
            None => { return false; },
        }
        match n.checked_mul(2) {
            Some(d) => d < usize::MAX,
            None => false,
        }
    }
}

impl CombEq for Graph<()> {
    open spec fn spec_hash(&self) -> Seq<usize> {
        if hashable(*self) {
            hash_of(self.nv(), self.edge_list())
        } else {
            Seq::empty()
        }
    }

    /// Well formed and no multigraph.
    open spec fn spec_lawful(&self) -> bool {
        self.wf() && no_parallel_edges(self.edge_list())
    }

    open spec fn spec_iso(&self, other: &Self) -> bool {
        if self.spec_lawful() && other.spec_lawful() {
            plain_iso(self.nv(), self.edge_list(), other.nv(), other.edge_list())
        } else {
            self.wf() && other.wf() && petgraph_isomorphic(self.nv(), self.edge_list(), other.nv(), other.edge_list())
        }
    }

    /// `graph_hash`; empty for a graph that is not well formed or too large for it.
    fn hash(&self) -> (r: Vec<usize>) {
        if self.is_hashable() {
            self.graph_hash()
        } else {
            Vec::new()
        }
    }

    /// `petgraph::algo::is_isomorphic`; false for graphs that are not well formed.
    fn is_isomorphic(&self, other: &Self) -> (r: bool) {
        if !self.is_well_formed() || !other.is_well_formed() {
            return false;
        }
        iso_plain(self.num_verts(), &self.edges(), other.num_verts(), &other.edges())
    }
}

impl CombEq for Graph<GraphTemplateVertex> {
    open spec fn spec_hash(&self) -> Seq<usize> {
        if hashable(*self) {
            hash_of(self.nv(), self.edge_list())
        } else {
            Seq::empty()
        }
    }

    /// Well formed and no multigraph.
    open spec fn spec_lawful(&self) -> bool {
        self.wf() && no_parallel_edges(self.edge_list())
    }

    open spec fn spec_iso(&self, other: &Self) -> bool {
        if self.spec_lawful() && other.spec_lawful() {
            typed_iso(self.weights(), self.edge_list(), other.weights(), other.edge_list())
        } else {
            self.wf() && other.wf() && petgraph_isomorphic_typed(self.weights(), self.edge_list(), other.weights(), other.edge_list())
        }
    }

    /// `graph_hash`; empty for a template that is not well formed or too large for it.
    fn hash(&self) -> (r: Vec<usize>) {
        if self.is_hashable() {
            self.graph_hash()
        } else {
            Vec::new()
        }
    }

    /// `petgraph::algo::is_isomorphic_matching`, vertices matching by type; false for
    /// templates that are not well formed.
    fn is_isomorphic(&self, other: &Self) -> (r: bool) {
        if !self.is_well_formed() || !other.is_well_formed() {
            return false;
        }
        iso_typed(&self.weight_list(), &self.edges(), &other.weight_list(), &other.edges())
    }
}

/// A clone of a graph hashes like the graph: `clone` keeps the vertices and the edges.
pub proof fn lemma_graph_clones_keep_hash()
    ensures
        clones_keep_hash::<Graph<()>>(),
        clones_keep_hash::<Graph<GraphTemplateVertex>>(),
{
    assert forall|a: Graph<()>, b: Graph<()>| #[trigger] cloned(a, b) implies a.spec_hash() == b.spec_hash() by {
        if a != b {
            assert(b.weights() == a.weights() && b.edge_list() == a.edge_list());
        }
    }
    assert forall|a: Graph<GraphTemplateVertex>, b: Graph<GraphTemplateVertex>| #[trigger] cloned(a, b) implies a.spec_hash() == b.spec_hash() by {
        if a != b {
            assert(b.weights() == a.weights() && b.edge_list() == a.edge_list());
        }
    }
}

/// Graphs that are no multigraphs obey the laws of `CombEq`: isomorphism is reflexive,
/// symmetric and transitive, and isomorphic graphs have the same hash.
pub proof fn law_graph_comb_eq()
    ensures
        crate::obeys_comb_eq::<Graph<()>>(),
{
    assert forall|a: Graph<()>| #[trigger] a.spec_lawful() implies a.spec_iso(&a) by {
        lemma_identity_iso(a.nv(), a.edge_list());
        let id = Seq::new(a.nv(), |x: int| x as usize);
        assert(inverse_maps(a.nv(), id, id));
    }
    assert forall|a: Graph<()>, b: Graph<()>| #[trigger] a.spec_iso(&b) && a.spec_lawful() && b.spec_lawful() implies b.spec_iso(&a) by {
        let (f, g) = choose|f: Seq<usize>, g: Seq<usize>| #[trigger] inverse_maps(a.nv(), f, g) && maps_adjacency(a.nv(), a.edge_list(), b.edge_list(), f);
        lemma_inverse_iso(a.nv(), a.edge_list(), b.edge_list(), f, g);
        assert(inverse_maps(b.nv(), g, f));
    }
    assert forall|a: Graph<()>, b: Graph<()>, c: Graph<()>| #[trigger] a.spec_iso(&b) && #[trigger] b.spec_iso(&c)
        && a.spec_lawful() && b.spec_lawful() && c.spec_lawful() implies a.spec_iso(&c) by {
        let n = a.nv();
        let (f1, g1) = choose|f: Seq<usize>, g: Seq<usize>| #[trigger] inverse_maps(n, f, g) && maps_adjacency(n, a.edge_list(), b.edge_list(), f);
        let (f2, g2) = choose|f: Seq<usize>, g: Seq<usize>| #[trigger] inverse_maps(n, f, g) && maps_adjacency(n, b.edge_list(), c.edge_list(), f);
        lemma_compose_iso(n, a.edge_list(), b.edge_list(), c.edge_list(), f1, g1, f2, g2);
        let f = Seq::new(n, |x: int| f2[f1[x] as int]);
        let g = Seq::new(n, |y: int| g1[g2[y] as int]);
        assert(inverse_maps(n, f, g));
    }
    assert forall|a: Graph<()>, b: Graph<()>| #[trigger] a.spec_iso(&b) && a.spec_lawful() && b.spec_lawful() implies a.spec_hash() == b.spec_hash() by {
        let (f, g) = choose|f: Seq<usize>, g: Seq<usize>| #[trigger] inverse_maps(a.nv(), f, g) && maps_adjacency(a.nv(), a.edge_list(), b.edge_list(), f);
        lemma_hash_of_iso(a.nv(), a.edge_list(), b.edge_list(), f, g);
    }
}

/// Graph templates that are no multigraphs obey the laws of `CombEq`: isomorphism (keeping
/// vertex types) is reflexive, symmetric and transitive, and isomorphic templates have the
/// same hash.
pub proof fn law_template_comb_eq()
    ensures
        crate::obeys_comb_eq::<Graph<GraphTemplateVertex>>(),
{
    assert forall|a: Graph<GraphTemplateVertex>| #[trigger] a.spec_lawful() implies a.spec_iso(&a) by {
        lemma_identity_iso(a.nv(), a.edge_list());
        let id = Seq::new(a.nv(), |x: int| x as usize);
        assert(inverse_maps(a.nv(), id, id));
        assert forall|x: int| 0 <= x < a.nv() implies a.weights()[(#[trigger] id[x]) as int] == a.weights()[x] by {}
    }
    assert forall|a: Graph<GraphTemplateVertex>, b: Graph<GraphTemplateVertex>| #[trigger] a.spec_iso(&b) && a.spec_lawful() && b.spec_lawful() implies b.spec_iso(&a) by {
        let n = a.nv();
        let (f, g) = choose|f: Seq<usize>, g: Seq<usize>| #[trigger] inverse_maps(n, f, g) && maps_adjacency(n, a.edge_list(), b.edge_list(), f)
            && forall|x: int| 0 <= x < n ==> b.weights()[(#[trigger] f[x]) as int] == a.weights()[x];
        lemma_inverse_iso(n, a.edge_list(), b.edge_list(), f, g);
        assert forall|y: int| 0 <= y < n implies a.weights()[(#[trigger] g[y]) as int] == b.weights()[y] by {
            assert(f[g[y] as int] == y);
            assert(b.weights()[f[g[y] as int] as int] == a.weights()[g[y] as int]);
        }
        assert(inverse_maps(b.nv(), g, f));
    }
    assert forall|a: Graph<GraphTemplateVertex>, b: Graph<GraphTemplateVertex>, c: Graph<GraphTemplateVertex>|
        #[trigger] a.spec_iso(&b) && #[trigger] b.spec_iso(&c) && a.spec_lawful() && b.spec_lawful() && c.spec_lawful() implies a.spec_iso(&c) by {
        let n = a.nv();
        let (f1, g1) = choose|f: Seq<usize>, g: Seq<usize>| #[trigger] inverse_maps(n, f, g) && maps_adjacency(n, a.edge_list(), b.edge_list(), f)
            && forall|x: int| 0 <= x < n ==> b.weights()[(#[trigger] f[x]) as int] == a.weights()[x];
        let (f2, g2) = choose|f: Seq<usize>, g: Seq<usize>| #[trigger] inverse_maps(n, f, g) && maps_adjacency(n, b.edge_list(), c.edge_list(), f)
            && forall|x: int| 0 <= x < n ==> c.weights()[(#[trigger] f[x]) as int] == b.weights()[x];
        lemma_compose_iso(n, a.edge_list(), b.edge_list(), c.edge_list(), f1, g1, f2, g2);
        let f = Seq::new(n, |x: int| f2[f1[x] as int]);
        let g = Seq::new(n, |y: int| g1[g2[y] as int]);
        assert(inverse_maps(n, f, g));
        assert forall|x: int| 0 <= x < n implies c.weights()[(#[trigger] f[x]) as int] == a.weights()[x] by {
            assert(f1[x] < n);
            assert(c.weights()[f2[f1[x] as int] as int] == b.weights()[f1[x] as int]);
        }
    }
    assert forall|a: Graph<GraphTemplateVertex>, b: Graph<GraphTemplateVertex>| #[trigger] a.spec_iso(&b) && a.spec_lawful() && b.spec_lawful() implies a.spec_hash() == b.spec_hash() by {
        let n = a.nv();
        let (f, g) = choose|f: Seq<usize>, g: Seq<usize>| #[trigger] inverse_maps(n, f, g) && maps_adjacency(n, a.edge_list(), b.edge_list(), f)
            && forall|x: int| 0 <= x < n ==> b.weights()[(#[trigger] f[x]) as int] == a.weights()[x];
        lemma_hash_of_iso(n, a.edge_list(), b.edge_list(), f, g);
    }
}

/// Graphs and graph templates obey the laws that `CombIndex` asks: `CombEq`'s laws, and clones
/// that are the same graphs.
pub proof fn law_graph_index_laws()
    ensures
        obeys_index_laws::<Graph<()>>(),
        obeys_index_laws::<Graph<GraphTemplateVertex>>(),
{
    law_graph_comb_eq();
    law_template_comb_eq();
    assert forall|a: Graph<()>, b: Graph<()>| #[trigger] cloned(a, b) && a.spec_lawful() implies
        b.spec_lawful() && a.spec_iso(&b) && a.spec_hash() == b.spec_hash() by {
        if a != b {
            assert(b.weights() == a.weights() && b.edge_list() == a.edge_list());
        }
        assert(b.weights() == a.weights() && b.edge_list() == a.edge_list());
        lemma_identity_iso(a.nv(), a.edge_list());
        let id = Seq::new(a.nv(), |x: int| x as usize);
        assert(inverse_maps(a.nv(), id, id));
    }
    assert forall|a: Graph<GraphTemplateVertex>, b: Graph<GraphTemplateVertex>| #[trigger] cloned(a, b) && a.spec_lawful() implies
        b.spec_lawful() && a.spec_iso(&b) && a.spec_hash() == b.spec_hash() by {
        if a != b {
            assert(b.weights() == a.weights() && b.edge_list() == a.edge_list());
        }
        assert(b.weights() == a.weights() && b.edge_list() == a.edge_list());
        lemma_identity_iso(a.nv(), a.edge_list());
        let id = Seq::new(a.nv(), |x: int| x as usize);
        assert(inverse_maps(a.nv(), id, id));
        assert forall|x: int| 0 <= x < a.nv() implies b.weights()[(#[trigger] id[x]) as int] == a.weights()[x] by {}
    }
}

} // verus!
