use vstd::prelude::*;
use crate::CombGrad;
use crate::text::{decimal, comma_joined, lemma_comma_joined_push, push_decimal, string_of};
use petgraph::graph::{NodeIndex, UnGraph};
use crate::objects::components::{joined, edge_joins, are_components, tarjan_components, lists_of, scc_components, membership};

verus! {

/// An undirected multigraph with data on its vertices, stored as `petgraph`'s `UnGraph` stores
/// one: vertices `0..n` in the order in which they were added, and edges as ordered pairs of
/// vertices, in the order in which they were added (an edge from `a` to `b` is the same as one
/// from `b` to `a`; loops and parallel edges are allowed).
pub struct Graph<V = ()> {
    verts: Vec<V>,
    edges: Vec<(usize, usize)>,
}

impl<V> Graph<V> {
    /// The vertex data, by vertex.
    pub closed spec fn weights(self) -> Seq<V> {
        self.verts@
    }

    /// The edges, by edge index.
    pub closed spec fn edge_list(self) -> Seq<(usize, usize)> {
        self.edges@
    }

    /// The number of vertices.
    pub open spec fn nv(self) -> nat {
        self.weights().len()
    }

    /// The number of edges.
    pub open spec fn ne(self) -> nat {
        self.edge_list().len()
    }

    /// Every edge joins vertices of the graph, and there are no more vertices or edges than
    /// `petgraph`'s default 32-bit indices can number.
    pub open spec fn wf(self) -> bool {
        &&& self.nv() <= u32::MAX
        &&& self.ne() <= u32::MAX
        &&& forall|k: int| 0 <= k < self.ne() ==> (#[trigger] self.edge_list()[k]).0 < self.nv() && self.edge_list()[k].1 < self.nv()
    }
}

/// The far ends of the edges that start at `v`, the latest edge first.
pub open spec fn out_neighbours(edges: Seq<(usize, usize)>, v: usize) -> Seq<usize>
    decreases edges.len(),
{
    if edges.len() == 0 {
        Seq::empty()
    } else {
        out_neighbours(edges.drop_first(), v) + if edges[0].0 == v { seq![edges[0].1] } else { Seq::empty() }
    }
}

/// The starts of the edges that end at `v`, loops left out, the latest edge first.
pub open spec fn in_neighbours(edges: Seq<(usize, usize)>, v: usize) -> Seq<usize>
    decreases edges.len(),
{
    if edges.len() == 0 {
        Seq::empty()
    } else {
        in_neighbours(edges.drop_first(), v) + if edges[0].1 == v && edges[0].0 != v { seq![edges[0].0] } else { Seq::empty() }
    }
}

/// The neighbours of `v`, once for each edge, in the order in which `petgraph` lists them:
/// first the ends of the edges that start at `v`, then the starts of those that end there.
pub open spec fn neighbour_seq(edges: Seq<(usize, usize)>, v: usize) -> Seq<usize> {
    out_neighbours(edges, v) + in_neighbours(edges, v)
}

/// Every vertex that `neighbour_seq` lists is joined to `v` by an edge.
pub proof fn lemma_neighbours_joined(edges: Seq<(usize, usize)>, v: usize)
    ensures
        forall|i: int| 0 <= i < neighbour_seq(edges, v).len() ==> joined(edges, v as int, #[trigger] neighbour_seq(edges, v)[i] as int),
    decreases edges.len(),
{
    if edges.len() > 0 {
        let rest = edges.drop_first();
        lemma_neighbours_joined(rest, v);
        let o = out_neighbours(edges, v);
        let inn = in_neighbours(edges, v);
        let ro = out_neighbours(rest, v);
        let ri = in_neighbours(rest, v);
        assert forall|i: int| 0 <= i < neighbour_seq(edges, v).len() implies joined(edges, v as int, #[trigger] neighbour_seq(edges, v)[i] as int) by {
            let w = neighbour_seq(edges, v)[i];
            if i < o.len() {
                if i < ro.len() {
                    assert(neighbour_seq(rest, v)[i] == w);
                    let k = choose|k: int| 0 <= k < rest.len() && #[trigger] edge_joins(rest[k], v as int, w as int);
                    assert(edges[k + 1] == rest[k]);
                } else {
                    assert(edge_joins(edges[0], v as int, w as int));
                }
            } else {
                let ii = i - o.len();
                if ii < ri.len() {
                    assert(neighbour_seq(rest, v)[ro.len() + ii] == w);
                    let k = choose|k: int| 0 <= k < rest.len() && #[trigger] edge_joins(rest[k], v as int, w as int);
                    assert(edges[k + 1] == rest[k]);
                } else {
                    assert(edge_joins(edges[0], v as int, w as int));
                }
            }
        }
    }
}

/// An edge that was added joins its ends, both ways round: `has_edge` finds it after
/// `add_edge`.
pub proof fn law_has_edge_after_add_edge(edges: Seq<(usize, usize)>, u: usize, v: usize)
    ensures
        joined(edges.push((u, v)), u as int, v as int),
        joined(edges.push((u, v)), v as int, u as int),
{
    let k = edges.len() as int;
    assert(edge_joins(edges.push((u, v))[k], u as int, v as int));
    assert(edge_joins(edges.push((u, v))[k], v as int, u as int));
}

impl<V: Copy> Clone for Graph<V> {
    /// A copy with the same vertex data and edges.
    fn clone(&self) -> (r: Self)
        ensures
            r.weights() == self.weights(),
            r.edge_list() == self.edge_list(),
    {
        let mut verts: Vec<V> = Vec::new();
        let mut i: usize = 0;
        while i < self.verts.len()
            invariant
                i <= self.verts@.len(),
                verts@ == self.verts@.take(i as int),
            decreases self.verts@.len() - i,
        {
            verts.push(self.verts[i]);
            i = i + 1;
            proof {
                assert(verts@ =~= self.verts@.take(i as int));
            }
        }
        let mut edges: Vec<(usize, usize)> = Vec::new();
        let mut k: usize = 0;
        while k < self.edges.len()
            invariant
                k <= self.edges@.len(),
                edges@ == self.edges@.take(k as int),
            decreases self.edges@.len() - k,
        {
            edges.push(self.edges[k]);
            k = k + 1;
            proof {
                assert(edges@ =~= self.edges@.take(k as int));
            }
        }
        proof {
            assert(verts@ =~= self.verts@);
            assert(edges@ =~= self.edges@);
        }
        Graph { verts, edges }
    }
}

impl<V> Default for Graph<V> {
    /// A graph without vertices.
    fn default() -> (r: Self)
        ensures
            r.wf(),
            r.weights() == Seq::<V>::empty(),
            r.edge_list() == Seq::<(usize, usize)>::empty(),
    {
        Graph { verts: Vec::new(), edges: Vec::new() }
    }
}

impl<V> Graph<V> {
    /// The graph with the given vertex data and edges.
    pub(crate) fn from_parts(verts: Vec<V>, edges: Vec<(usize, usize)>) -> (r: Self)
        ensures
            r.weights() == verts@,
            r.edge_list() == edges@,
    {
        Graph { verts, edges }
    }

    /// The number of vertices.
    pub fn num_verts(&self) -> (r: usize)
        ensures
            r == self.nv(),
    {
        self.verts.len()
    }

    /// The number of edges.
    pub fn num_edges(&self) -> (r: usize)
        ensures
            r == self.ne(),
    {
        self.edges.len()
    }

    /// The data of vertex `v`; `petgraph` panics on a vertex that does not exist.
    pub fn vertex(&self, v: usize) -> (r: &V)
        requires
            v < self.nv(),
        ensures
            *r == self.weights()[v as int],
    {
        &self.verts[v]
    }

    /// The vertices with their data, in index order.
    pub fn vertices(&self) -> (r: Vec<(usize, &V)>)
        ensures
            r@.len() == self.nv(),
            forall|i: int| 0 <= i < r@.len() ==> (#[trigger] r@[i]).0 == i && *r@[i].1 == self.weights()[i],
    {
        let mut r: Vec<(usize, &V)> = Vec::new();
        let mut i: usize = 0;
        while i < self.verts.len()
            invariant
                i <= self.nv(),
                r@.len() == i,
                forall|j: int| 0 <= j < i ==> (#[trigger] r@[j]).0 == j && *r@[j].1 == self.weights()[j],
            decreases self.nv() - i,
        {
            r.push((i, &self.verts[i]));
            i = i + 1;
        }
        r
    }

    /// The edges as pairs of vertices, in index order.
    pub fn edges(&self) -> (r: Vec<(usize, usize)>)
        ensures
            r@ == self.edge_list(),
    {
        let mut r: Vec<(usize, usize)> = Vec::new();
        let mut k: usize = 0;
        while k < self.edges.len()
            invariant
                k <= self.ne(),
                r@ == self.edge_list().take(k as int),
            decreases self.ne() - k,
        {
            r.push(self.edges[k]);
            k = k + 1;
            proof {
                assert(r@ =~= self.edge_list().take(k as int));
            }
        }
        proof {
            assert(self.edge_list().take(k as int) =~= self.edge_list());
        }
        r
    }

    /// The neighbours of `v`, once for each edge between them, in `petgraph`'s order (see
    /// `neighbour_seq`); none for a vertex that does not exist.
    pub fn neighbours(&self, v: usize) -> (r: Vec<usize>)
        ensures
            r@ == neighbour_seq(self.edge_list(), v),
    {
        let ghost es = self.edge_list();
        let n = self.edges.len();
        let mut outs: Vec<usize> = Vec::new();
        let mut ins: Vec<usize> = Vec::new();
        let mut i: usize = n;
        while i > 0
            invariant
                i <= n,
                n == es.len(),
                es == self.edge_list(),
                outs@ == out_neighbours(es.subrange(i as int, n as int), v),
                ins@ == in_neighbours(es.subrange(i as int, n as int), v),
            decreases i,
        {
            i = i - 1;
            proof {
                assert(es.subrange(i as int, n as int).drop_first() =~= es.subrange(i + 1, n as int));
                assert(es.subrange(i as int, n as int)[0] == es[i as int]);
            }
            let (a, b) = self.edges[i];
            if a == v {
                outs.push(b);
            }
            if b == v && a != v {
                ins.push(a);
            }
            proof {
                let s = es.subrange(i as int, n as int);
                if a == v {
                    assert(outs@ =~= out_neighbours(s.drop_first(), v) + seq![s[0].1]);
                } else {
                    assert(outs@ =~= out_neighbours(s.drop_first(), v) + Seq::<usize>::empty());
                }
                if b == v && a != v {
                    assert(ins@ =~= in_neighbours(s.drop_first(), v) + seq![s[0].0]);
                } else {
                    assert(ins@ =~= in_neighbours(s.drop_first(), v) + Seq::<usize>::empty());
                }
            }
        }
        proof {
            assert(es.subrange(0, n as int) =~= es);
        }
        outs.append(&mut ins);
        outs
    }

    /// The number of edges at `v`, a loop counting once.
    pub fn vertex_degree(&self, v: usize) -> (r: usize)
        ensures
            r == neighbour_seq(self.edge_list(), v).len(),
    {
        self.neighbours(v).len()
    }

    /// Some edge joins `u` and `v`.
    pub fn has_edge(&self, u: usize, v: usize) -> (r: bool)
        ensures
            r == joined(self.edge_list(), u as int, v as int),
    {
        let mut k: usize = 0;
        while k < self.edges.len()
            invariant
                k <= self.ne(),
                forall|j: int| 0 <= j < k ==> !#[trigger] edge_joins(self.edge_list()[j], u as int, v as int),
            decreases self.ne() - k,
        {
            let (a, b) = self.edges[k];
            if (a == u && b == v) || (a == v && b == u) {
                proof {
                    assert(edge_joins(self.edge_list()[k as int], u as int, v as int));
                }
                return true;
            }
            k = k + 1;
        }
        false
    }

    /// Adds a vertex with data `weight` and returns its index; `petgraph` panics when its
    /// indices run out.
    pub fn add_vertex_with(&mut self, weight: V) -> (r: usize)
        requires
            old(self).wf(),
            old(self).nv() < u32::MAX,
        ensures
            final(self).wf(),
            r == old(self).nv(),
            final(self).weights() == old(self).weights().push(weight),
            final(self).edge_list() == old(self).edge_list(),
    {
        let r = self.verts.len();
        self.verts.push(weight);
        r
    }

    /// Adds an edge from `u` to `v`; `petgraph` panics on a vertex that does not exist and
    /// when its indices run out.
    pub fn add_edge(&mut self, u: usize, v: usize)
        requires
            old(self).wf(),
            u < old(self).nv(),
            v < old(self).nv(),
            old(self).ne() < u32::MAX,
        ensures
            final(self).wf(),
            final(self).weights() == old(self).weights(),
            final(self).edge_list() == old(self).edge_list().push((u, v)),
    {
        self.edges.push((u, v));
    }
}

impl Graph<()> {
    /// Adds a vertex and returns its index.
    pub fn add_vertex(&mut self) -> (r: usize)
        requires
            old(self).wf(),
            old(self).nv() < u32::MAX,
        ensures
            final(self).wf(),
            r == old(self).nv(),
            final(self).weights() == old(self).weights().push(()),
            final(self).edge_list() == old(self).edge_list(),
    {
        self.add_vertex_with(())
    }
}

/// The number of flags set among the first `i` of `keep`: the new index of vertex `i` when the
/// flagged vertices are kept.
pub open spec fn count_kept(keep: Seq<bool>, i: int) -> nat
    decreases i,
{
    if i <= 0 {
        0
    } else {
        count_kept(keep, i - 1) + if keep[i - 1] { 1nat } else { 0nat }
    }
}

/// The values whose flag is set, in order.
pub open spec fn kept_values<T>(vals: Seq<T>, keep: Seq<bool>) -> Seq<T>
    decreases vals.len(),
{
    if vals.len() == 0 {
        Seq::empty()
    } else {
        kept_values(vals.drop_last(), keep) + if keep[vals.len() - 1] { seq![vals.last()] } else { Seq::empty() }
    }
}

/// The values that are there, in order.
pub open spec fn some_values<T>(outs: Seq<Option<T>>) -> Seq<T>
    decreases outs.len(),
{
    if outs.len() == 0 {
        Seq::empty()
    } else {
        some_values(outs.drop_last()) + match outs.last() {
            Some(x) => seq![x],
            None => Seq::empty(),
        }
    }
}

/// Which of `outs` are there.
pub open spec fn some_flags<T>(outs: Seq<Option<T>>) -> Seq<bool> {
    Seq::new(outs.len(), |i: int| outs[i] is Some)
}

/// `n` flags, all set.
pub open spec fn all_kept(n: nat) -> Seq<bool> {
    Seq::new(n, |i: int| true)
}

/// The edges that remain when the vertices flagged in `vkeep` and the edges flagged in `ekeep`
/// are kept, in order, their ends renumbered as `count_kept` says: an edge remains when both of
/// its ends and the edge itself are flagged.
pub open spec fn kept_edges(edges: Seq<(usize, usize)>, vkeep: Seq<bool>, ekeep: Seq<bool>) -> Seq<(usize, usize)>
    decreases edges.len(),
{
    if edges.len() == 0 {
        Seq::empty()
    } else {
        let k = edges.len() - 1;
        let e = edges[k];
        kept_edges(edges.drop_last(), vkeep, ekeep) + if vkeep[e.0 as int] && vkeep[e.1 as int] && ekeep[k] {
            seq![(count_kept(vkeep, e.0 as int) as usize, count_kept(vkeep, e.1 as int) as usize)]
        } else {
            Seq::empty()
        }
    }
}

pub proof fn lemma_count_kept_mono(keep: Seq<bool>, i: int, j: int)
    requires
        0 <= i <= j <= keep.len(),
    ensures
        count_kept(keep, i) <= count_kept(keep, j),
        i < j && keep[i] ==> count_kept(keep, i) < count_kept(keep, j),
        count_kept(keep, j) <= j,
    decreases j,
{
    if j > 0 {
        if i < j {
            lemma_count_kept_mono(keep, i, j - 1);
        } else {
            lemma_count_kept_mono(keep, j - 1, j - 1);
        }
    }
}

pub proof fn lemma_kept_values_len<T>(vals: Seq<T>, keep: Seq<bool>)
    requires
        vals.len() <= keep.len(),
    ensures
        kept_values(vals, keep).len() == count_kept(keep, vals.len() as int),
    decreases vals.len(),
{
    if vals.len() > 0 {
        lemma_kept_values_len(vals.drop_last(), keep);
    }
}

pub proof fn lemma_some_values_len<T>(outs: Seq<Option<T>>, n: int)
    requires
        0 <= n <= outs.len(),
    ensures
        some_values(outs.take(n)).len() == count_kept(some_flags(outs), n),
    decreases n,
{
    if n > 0 {
        lemma_some_values_len(outs, n - 1);
        assert(outs.take(n).drop_last() =~= outs.take(n - 1));
    }
}

/// The renumbered edges join kept vertices and are no more than the edges.
pub proof fn lemma_kept_edges_wf(edges: Seq<(usize, usize)>, vkeep: Seq<bool>, ekeep: Seq<bool>, n: nat)
    requires
        vkeep.len() == n,
        forall|k: int| 0 <= k < edges.len() ==> (#[trigger] edges[k]).0 < n && edges[k].1 < n,
    ensures
        kept_edges(edges, vkeep, ekeep).len() <= edges.len(),
        forall|k: int| 0 <= k < kept_edges(edges, vkeep, ekeep).len() ==>
            (#[trigger] kept_edges(edges, vkeep, ekeep)[k]).0 < count_kept(vkeep, n as int)
            && kept_edges(edges, vkeep, ekeep)[k].1 < count_kept(vkeep, n as int),
    decreases edges.len(),
{
    if edges.len() > 0 {
        let rest = edges.drop_last();
        lemma_kept_edges_wf(rest, vkeep, ekeep, n);
        let e = edges.last();
        if vkeep[e.0 as int] {
            lemma_count_kept_mono(vkeep, e.0 as int, n as int);
        }
        if vkeep[e.1 as int] {
            lemma_count_kept_mono(vkeep, e.1 as int, n as int);
        }
        let r = kept_edges(edges, vkeep, ekeep);
        let rr = kept_edges(rest, vkeep, ekeep);
        assert forall|k: int| 0 <= k < r.len() implies (#[trigger] r[k]).0 < count_kept(vkeep, n as int)
            && r[k].1 < count_kept(vkeep, n as int) by {
            if k < rr.len() {
                assert(r[k] == rr[k]);
            }
        }
    }
}

/// The new index of every vertex when the vertices flagged in `keep` are kept.
fn new_indices(keep: &Vec<bool>) -> (r: Vec<usize>)
    ensures
        r@.len() == keep@.len(),
        forall|i: int| 0 <= i < r@.len() ==> #[trigger] r@[i] == count_kept(keep@, i),
{
    let mut r: Vec<usize> = Vec::new();
    let mut c: usize = 0;
    let mut i: usize = 0;
    while i < keep.len()
        invariant
            i <= keep@.len(),
            r@.len() == i,
            c == count_kept(keep@, i as int),
            forall|j: int| 0 <= j < i ==> #[trigger] r@[j] == count_kept(keep@, j),
        decreases keep@.len() - i,
    {
        proof {
            lemma_count_kept_mono(keep@, i as int, i as int);
        }
        r.push(c);
        if keep[i] {
            c = c + 1;
        }
        i = i + 1;
    }
    r
}

/// The edges that remain when the flagged vertices and edges are kept, renumbered.
pub(crate) fn kept_edge_list(edges: &Vec<(usize, usize)>, vkeep: &Vec<bool>, ekeep: &Vec<bool>) -> (r: Vec<(usize, usize)>)
    requires
        ekeep@.len() == edges@.len(),
        forall|k: int| 0 <= k < edges@.len() ==> (#[trigger] edges@[k]).0 < vkeep@.len() && edges@[k].1 < vkeep@.len(),
    ensures
        r@ == kept_edges(edges@, vkeep@, ekeep@),
{
    let idx = new_indices(vkeep);
    let mut r: Vec<(usize, usize)> = Vec::new();
    let mut k: usize = 0;
    while k < edges.len()
        invariant
            k <= edges@.len(),
            ekeep@.len() == edges@.len(),
            idx@.len() == vkeep@.len(),
            forall|i: int| 0 <= i < idx@.len() ==> #[trigger] idx@[i] == count_kept(vkeep@, i),
            forall|j: int| 0 <= j < edges@.len() ==> (#[trigger] edges@[j]).0 < vkeep@.len() && edges@[j].1 < vkeep@.len(),
            r@ == kept_edges(edges@.take(k as int), vkeep@, ekeep@),
        decreases edges@.len() - k,
    {
        let (a, b) = edges[k];
        proof {
            assert(edges@.take(k + 1).drop_last() =~= edges@.take(k as int));
            assert(edges@.take(k + 1)[k as int] == edges@[k as int]);
        }
        if vkeep[a] && vkeep[b] && ekeep[k] {
            r.push((idx[a], idx[b]));
        }
        k = k + 1;
        proof {
            let t = edges@.take(k as int);
            if vkeep@[a as int] && vkeep@[b as int] && ekeep@[k - 1] {
                assert(r@ =~= kept_edges(t.drop_last(), vkeep@, ekeep@) + seq![(count_kept(vkeep@, a as int) as usize, count_kept(vkeep@, b as int) as usize)]);
            } else {
                assert(r@ =~= kept_edges(t.drop_last(), vkeep@, ekeep@) + Seq::<(usize, usize)>::empty());
            }
        }
    }
    proof {
        assert(edges@.take(k as int) =~= edges@);
    }
    r
}

/// `outs` and `ekeep` are what the vertex map and the edge test of `filter_map` may have given
/// on `g`: the edge test is asked only about edges whose ends both remain.
pub open spec fn filter_map_outcome<V, V2, F: Fn(usize, &V) -> Option<V2>, H: Fn(usize) -> bool>(
    g: Graph<V>,
    vertex_map: F,
    edge_keep: H,
    outs: Seq<Option<V2>>,
    ekeep: Seq<bool>,
) -> bool {
    &&& outs.len() == g.nv()
    &&& ekeep.len() == g.ne()
    &&& forall|i: int| 0 <= i < g.nv() ==> call_ensures(vertex_map, (i as usize, &g.weights()[i]), #[trigger] outs[i])
    &&& forall|k: int| 0 <= k < g.ne() && outs[g.edge_list()[k].0 as int] is Some && outs[g.edge_list()[k].1 as int] is Some
        ==> call_ensures(edge_keep, (k as usize,), #[trigger] ekeep[k])
}

/// `keep` is what the vertex test of `vertex_subgraph` may have given on `g`.
pub open spec fn vertex_test_outcome<V, F: Fn(usize, &V) -> bool>(g: Graph<V>, f: F, keep: Seq<bool>) -> bool {
    &&& keep.len() == g.nv()
    &&& forall|i: int| 0 <= i < g.nv() ==> call_ensures(f, (i as usize, &g.weights()[i]), #[trigger] keep[i])
}

/// `keep` is what the edge test of `edge_subgraph` may have given on `g`.
pub open spec fn edge_test_outcome<V, F: Fn(usize) -> bool>(g: Graph<V>, f: F, keep: Seq<bool>) -> bool {
    &&& keep.len() == g.ne()
    &&& forall|k: int| 0 <= k < g.ne() ==> call_ensures(f, (k as usize,), #[trigger] keep[k])
}

impl<V> Graph<V> {
    /// A graph with the same edges and, for each vertex, the data that `f` gives for its index
    /// and data.
    pub fn map<V2, F: Fn(usize, &V) -> V2>(&self, f: F) -> (r: Graph<V2>)
        requires
            self.wf(),
            forall|i: int| 0 <= i < self.nv() ==> call_requires(f, (i as usize, &#[trigger] self.weights()[i])),
        ensures
            r.wf(),
            r.nv() == self.nv(),
            forall|i: int| 0 <= i < self.nv() ==> call_ensures(f, (i as usize, &self.weights()[i]), #[trigger] r.weights()[i]),
            r.edge_list() == self.edge_list(),
    {
        let mut verts: Vec<V2> = Vec::new();
        let mut i: usize = 0;
        while i < self.verts.len()
            invariant
                i <= self.nv(),
                verts@.len() == i,
                forall|j: int| 0 <= j < self.nv() ==> call_requires(f, (j as usize, &#[trigger] self.weights()[j])),
                forall|j: int| 0 <= j < i ==> call_ensures(f, (j as usize, &self.weights()[j]), #[trigger] verts@[j]),
            decreases self.nv() - i,
        {
            proof {
                assert(self.weights()[i as int] == self.verts@[i as int]);
            }
            let w = f(i, &self.verts[i]);
            verts.push(w);
            i = i + 1;
        }
        let r = Graph { verts, edges: self.edges() };
        r
    }

    /// The graph of the vertices for which `vertex_map` gives data, with that data, and of the
    /// edges between them that `edge_keep` accepts; vertices and edges keep their order and are
    /// renumbered.
    pub fn filter_map<V2, F: Fn(usize, &V) -> Option<V2>, H: Fn(usize) -> bool>(&self, vertex_map: F, edge_keep: H) -> (r: Graph<V2>)
        requires
            self.wf(),
            forall|i: int| 0 <= i < self.nv() ==> call_requires(vertex_map, (i as usize, &#[trigger] self.weights()[i])),
            forall|k: usize| k < self.ne() ==> #[trigger] call_requires(edge_keep, (k,)),
        ensures
            r.wf(),
            exists|outs: Seq<Option<V2>>, ekeep: Seq<bool>| #[trigger] filter_map_outcome(*self, vertex_map, edge_keep, outs, ekeep)
                && r.weights() == some_values(outs)
                && r.edge_list() == kept_edges(self.edge_list(), some_flags(outs), ekeep),
    {
        let ghost mut outs: Seq<Option<V2>> = Seq::empty();
        let mut verts: Vec<V2> = Vec::new();
        let mut vkeep: Vec<bool> = Vec::new();
        let mut i: usize = 0;
        while i < self.verts.len()
            invariant
                i <= self.nv(),
                outs.len() == i,
                vkeep@ == some_flags(outs),
                verts@ == some_values(outs),
                forall|j: int| 0 <= j < self.nv() ==> call_requires(vertex_map, (j as usize, &#[trigger] self.weights()[j])),
                forall|j: int| 0 <= j < i ==> call_ensures(vertex_map, (j as usize, &self.weights()[j]), #[trigger] outs[j]),
            decreases self.nv() - i,
        {
            proof {
                assert(self.weights()[i as int] == self.verts@[i as int]);
            }
            let o = vertex_map(i, &self.verts[i]);
            let ghost old_outs = outs;
            proof {
                outs = outs.push(o);
                assert(outs.drop_last() =~= old_outs);
            }
            match o {
                Some(w) => {
                    vkeep.push(true);
                    verts.push(w);
                },
                None => {
                    vkeep.push(false);
                },
            }
            proof {
                assert(vkeep@ =~= some_flags(outs));
                if o is Some {
                    assert(verts@ =~= some_values(old_outs) + seq![o->0]);
                } else {
                    assert(verts@ =~= some_values(old_outs) + Seq::<V2>::empty());
                }
            }
            i = i + 1;
        }
        let ghost mut ekeep: Seq<bool> = Seq::empty();
        let mut ekeep_v: Vec<bool> = Vec::new();
        let mut k: usize = 0;
        while k < self.edges.len()
            invariant
                self.wf(),
                k <= self.ne(),
                ekeep.len() == k,
                ekeep_v@ == ekeep,
                outs.len() == self.nv(),
                vkeep@ == some_flags(outs),
                forall|j: usize| j < self.ne() ==> #[trigger] call_requires(edge_keep, (j,)),
                forall|j: int| 0 <= j < k && outs[self.edge_list()[j].0 as int] is Some && outs[self.edge_list()[j].1 as int] is Some
                    ==> call_ensures(edge_keep, (j as usize,), #[trigger] ekeep[j]),
            decreases self.ne() - k,
        {
            let (a, b) = self.edges[k];
            proof {
                assert(self.edge_list()[k as int] == (a, b));
            }
            let t = if vkeep[a] && vkeep[b] { edge_keep(k) } else { false };
            ekeep_v.push(t);
            proof {
                ekeep = ekeep.push(t);
            }
            k = k + 1;
        }
        let edges = kept_edge_list(&self.edges, &vkeep, &ekeep_v);
        proof {
            lemma_kept_edges_wf(self.edge_list(), vkeep@, ekeep, self.nv());
            lemma_some_values_len(outs, outs.len() as int);
            assert(outs.take(outs.len() as int) =~= outs);
            lemma_count_kept_mono(vkeep@, self.nv() as int, self.nv() as int);
            assert(filter_map_outcome(*self, vertex_map, edge_keep, outs, ekeep));
        }
        Graph { verts, edges }
    }
}

impl<V: Copy> Graph<V> {
    /// A copy of the graph.
    pub fn duplicate(&self) -> (r: Self)
        requires
            self.wf(),
        ensures
            r.wf(),
            r.weights() == self.weights(),
            r.edge_list() == self.edge_list(),
    {
        let mut verts: Vec<V> = Vec::new();
        let mut i: usize = 0;
        while i < self.verts.len()
            invariant
                i <= self.nv(),
                verts@ == self.weights().take(i as int),
            decreases self.nv() - i,
        {
            verts.push(self.verts[i]);
            i = i + 1;
            proof {
                assert(verts@ =~= self.weights().take(i as int));
            }
        }
        proof {
            assert(self.weights().take(i as int) =~= self.weights());
        }
        Graph { verts, edges: self.edges() }
    }

    /// The subgraph on the flagged vertices and edges, renumbered in order.
    pub(crate) fn subgraph(&self, vkeep: &Vec<bool>, ekeep: &Vec<bool>) -> (r: Self)
        requires
            self.wf(),
            vkeep@.len() == self.nv(),
            ekeep@.len() == self.ne(),
        ensures
            r.wf(),
            r.weights() == kept_values(self.weights(), vkeep@),
            r.edge_list() == kept_edges(self.edge_list(), vkeep@, ekeep@),
    {
        let mut verts: Vec<V> = Vec::new();
        let mut i: usize = 0;
        while i < self.verts.len()
            invariant
                i <= self.nv(),
                vkeep@.len() == self.nv(),
                verts@ == kept_values(self.weights().take(i as int), vkeep@),
            decreases self.nv() - i,
        {
            proof {
                assert(self.weights().take(i + 1).drop_last() =~= self.weights().take(i as int));
                assert(self.weights().take(i + 1).last() == self.verts@[i as int]);
            }
            if vkeep[i] {
                verts.push(self.verts[i]);
            }
            i = i + 1;
            proof {
                let t = self.weights().take(i as int);
                if vkeep@[i - 1] {
                    assert(verts@ =~= kept_values(t.drop_last(), vkeep@) + seq![t.last()]);
                } else {
                    assert(verts@ =~= kept_values(t.drop_last(), vkeep@) + Seq::<V>::empty());
                }
            }
        }
        proof {
            assert(self.weights().take(i as int) =~= self.weights());
        }
        let edges = kept_edge_list(&self.edges, vkeep, ekeep);
        proof {
            lemma_kept_edges_wf(self.edge_list(), vkeep@, ekeep@, self.nv());
            lemma_kept_values_len(self.weights(), vkeep@);
            lemma_count_kept_mono(vkeep@, self.nv() as int, self.nv() as int);
        }
        Graph { verts, edges }
    }

    /// The subgraph induced on the vertices that `f` accepts, renumbered in order.
    pub fn vertex_subgraph<F: Fn(usize, &V) -> bool>(&self, f: F) -> (r: Self)
        requires
            self.wf(),
            forall|i: int| 0 <= i < self.nv() ==> call_requires(f, (i as usize, &#[trigger] self.weights()[i])),
        ensures
            r.wf(),
            exists|keep: Seq<bool>| #[trigger] vertex_test_outcome(*self, f, keep)
                && r.weights() == kept_values(self.weights(), keep)
                && r.edge_list() == kept_edges(self.edge_list(), keep, all_kept(self.ne())),
    {
        let mut keep: Vec<bool> = Vec::new();
        let mut i: usize = 0;
        while i < self.verts.len()
            invariant
                i <= self.nv(),
                keep@.len() == i,
                forall|j: int| 0 <= j < self.nv() ==> call_requires(f, (j as usize, &#[trigger] self.weights()[j])),
                forall|j: int| 0 <= j < i ==> call_ensures(f, (j as usize, &self.weights()[j]), #[trigger] keep@[j]),
            decreases self.nv() - i,
        {
            proof {
                assert(self.weights()[i as int] == self.verts@[i as int]);
            }
            let t = f(i, &self.verts[i]);
            keep.push(t);
            i = i + 1;
        }
        let all = all_edges_flags(self.edges.len());
        let r = self.subgraph(&keep, &all);
        proof {
            assert(vertex_test_outcome(*self, f, keep@));
        }
        r
    }

    /// The subgraph with all vertices and the edges that `f` accepts.
    pub fn edge_subgraph<F: Fn(usize) -> bool>(&self, f: F) -> (r: Self)
        requires
            self.wf(),
            forall|k: usize| k < self.ne() ==> #[trigger] call_requires(f, (k,)),
        ensures
            r.wf(),
            exists|keep: Seq<bool>| #[trigger] edge_test_outcome(*self, f, keep)
                && r.weights() == kept_values(self.weights(), all_kept(self.nv()))
                && r.edge_list() == kept_edges(self.edge_list(), all_kept(self.nv()), keep),
    {
        let mut keep: Vec<bool> = Vec::new();
        let mut k: usize = 0;
        while k < self.edges.len()
            invariant
                k <= self.ne(),
                keep@.len() == k,
                forall|j: usize| j < self.ne() ==> #[trigger] call_requires(f, (j,)),
                forall|j: int| 0 <= j < k ==> call_ensures(f, (j as usize,), #[trigger] keep@[j]),
            decreases self.ne() - k,
        {
            let t = f(k);
            keep.push(t);
            k = k + 1;
        }
        let all = all_edges_flags(self.verts.len());
        let r = self.subgraph(&all, &keep);
        proof {
            assert(edge_test_outcome(*self, f, keep@));
        }
        r
    }
}

/// `n` set flags.
pub(crate) fn all_edges_flags(n: usize) -> (r: Vec<bool>)
    ensures
        r@ == all_kept(n as nat),
{
    let mut r: Vec<bool> = Vec::new();
    let mut i: usize = 0;
    while i < n
        invariant
            i <= n,
            r@ == all_kept(i as nat),
        decreases n - i,
    {
        r.push(true);
        i = i + 1;
        proof {
            assert(r@ =~= all_kept(i as nat));
        }
    }
    r
}

/// The graph on the vertices `0..n` with `edges` has `count` connected components.
pub open spec fn component_count(n: nat, edges: Seq<(usize, usize)>, count: nat) -> bool {
    exists|comps: Seq<Seq<usize>>| #[trigger] are_components(n, edges, comps) && comps.len() == count
}

/// `petgraph::algo::connected_components` on the undirected graph with the vertices `0..n` and
/// the given edges: as its documentation says, the number of connected components.
#[verifier::external_body]
fn count_components(n: usize, edges: &Vec<(usize, usize)>) -> (r: usize)
    requires
        forall|k: int| 0 <= k < edges@.len() ==> (#[trigger] edges@[k]).0 < n && edges@[k].1 < n,
    ensures
        component_count(n as nat, edges@, r as nat),
{
    let mut g: UnGraph<(), (), usize> = UnGraph::default();
    let nodes: Vec<NodeIndex<usize>> = (0..n).map(|_| g.add_node(())).collect();
    for &(a, b) in edges.iter() {
        g.add_edge(nodes[a], nodes[b], ());
    }
    petgraph::algo::connected_components(&g)
}

/// The flags, for each vertex below `n`, of whether `comp` holds it.
pub open spec fn member_flags(comp: Seq<usize>, n: nat) -> Seq<bool> {
    Seq::new(n, |v: int| comp.contains(v as usize))
}

impl<V> Graph<V> {
    /// The number of connected components.
    pub fn connected_component_number(&self) -> (r: usize)
        requires
            self.wf(),
        ensures
            component_count(self.nv(), self.edge_list(), r as nat),
    {
        count_components(self.verts.len(), &self.edges)
    }
}

impl<V: Copy> Graph<V> {
    /// The subgraphs induced on the connected components, in the order in which
    /// `petgraph::algo::TarjanScc` finds the components.
    pub fn connected_components_subgraphs(&self) -> (r: Vec<Self>)
        requires
            self.wf(),
        ensures
            are_components(self.nv(), self.edge_list(), tarjan_components(self.nv(), self.edge_list())),
            r@.len() == tarjan_components(self.nv(), self.edge_list()).len(),
            forall|c: int| 0 <= c < r@.len() ==> {
                let keep = member_flags(tarjan_components(self.nv(), self.edge_list())[c], self.nv());
                &&& (#[trigger] r@[c]).wf()
                &&& r@[c].weights() == kept_values(self.weights(), keep)
                &&& r@[c].edge_list() == kept_edges(self.edge_list(), keep, all_kept(self.ne()))
            },
    {
        let comps = scc_components(self.verts.len(), &self.edges);
        let ghost cs = tarjan_components(self.nv(), self.edge_list());
        let all = all_edges_flags(self.edges.len());
        let mut r: Vec<Self> = Vec::new();
        let mut c: usize = 0;
        while c < comps.len()
            invariant
                self.wf(),
                c <= comps@.len(),
                lists_of(comps@) == cs,
                are_components(self.nv(), self.edge_list(), cs),
                all@ == all_kept(self.ne()),
                r@.len() == c,
                forall|d: int| 0 <= d < c ==> {
                    let keep = member_flags(cs[d], self.nv());
                    &&& (#[trigger] r@[d]).wf()
                    &&& r@[d].weights() == kept_values(self.weights(), keep)
                    &&& r@[d].edge_list() == kept_edges(self.edge_list(), keep, all_kept(self.ne()))
                },
            decreases comps@.len() - c,
        {
            proof {
                assert(cs[c as int] == comps@[c as int]@);
                assert forall|i: int| 0 <= i < comps@[c as int]@.len() implies #[trigger] comps@[c as int]@[i] < self.verts.len() by {
                    assert(cs[c as int][i] < self.nv());
                }
            }
            let keep = membership(&comps[c], self.verts.len());
            proof {
                assert(keep@ =~= member_flags(cs[c as int], self.nv()));
            }
            let h = self.subgraph(&keep, &all);
            r.push(h);
            c = c + 1;
        }
        r
    }
}

/// The text of an edge: its ends between brackets, `(a, b)`.
pub open spec fn edge_text(e: (usize, usize)) -> Seq<char> {
    seq!['('] + decimal(e.0 as nat) + seq![',', ' '] + decimal(e.1 as nat) + seq![')']
}

/// The texts of the edges, separated by commas.
pub open spec fn edges_text(edges: Seq<(usize, usize)>) -> Seq<char> {
    comma_joined(edges.map_values(|e: (usize, usize)| edge_text(e)))
}

/// Appends the texts of the edges, separated by commas.
pub fn push_edges(out: &mut Vec<char>, edges: &Vec<(usize, usize)>)
    ensures
        final(out)@ == old(out)@ + edges_text(edges@),
{
    let ghost f = |e: (usize, usize)| edge_text(e);
    let mut k: usize = 0;
    while k < edges.len()
        invariant
            k <= edges@.len(),
            f == (|e: (usize, usize)| edge_text(e)),
            out@ == old(out)@ + comma_joined(edges@.take(k as int).map_values(f)),
        decreases edges@.len() - k,
    {
        let ghost before = out@;
        let (a, b) = edges[k];
        if k > 0 {
            out.push(',');
            out.push(' ');
        }
        out.push('(');
        push_decimal(out, a);
        out.push(',');
        out.push(' ');
        push_decimal(out, b);
        out.push(')');
        proof {
            let items = edges@.take(k as int).map_values(f);
            assert(edges@.take(k + 1).map_values(f) =~= items.push(edge_text((a, b))));
            lemma_comma_joined_push(items, edge_text((a, b)));
            assert(out@ =~= old(out)@ + comma_joined(items.push(edge_text((a, b)))));
        }
        k = k + 1;
    }
    proof {
        assert(edges@.take(k as int) =~= edges@);
    }
}

impl Graph<()> {
    /// The text form: the number of vertices, then the edges between square brackets, as in
    /// `{3 [(0, 1), (1, 2)]}`.
    pub fn to_string(&self) -> (r: String)
        ensures
            r@ == seq!['{'] + decimal(self.nv()) + seq![' ', '['] + edges_text(self.edge_list()) + seq![']', '}'],
    {
        let mut out: Vec<char> = Vec::new();
        out.push('{');
        push_decimal(&mut out, self.num_verts());
        out.push(' ');
        out.push('[');
        push_edges(&mut out, &self.edges);
        out.push(']');
        out.push('}');
        proof {
            assert(out@ =~= seq!['{'] + decimal(self.nv()) + seq![' ', '['] + edges_text(self.edge_list()) + seq![']', '}']);
        }
        string_of(out)
    }
}

impl<V> CombGrad<usize> for Graph<V> {
    open spec fn spec_degree(&self) -> usize {
        self.nv() as usize
    }

    /// The number of vertices.
    fn degree(&self) -> (r: usize) {
        self.verts.len()
    }
}

} // verus!
