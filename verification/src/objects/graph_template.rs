use vstd::prelude::*;
use crate::CombGrad;
use crate::text::{decimal, comma_joined, lemma_comma_joined_push, push_decimal, string_of};
use crate::collections::comb_map::{first_where, lemma_first_where};
use crate::objects::graph::{Graph, kept_values, count_kept, kept_edges, all_kept, neighbour_seq,
    lemma_kept_values_len, lemma_count_kept_mono, all_edges_flags, lemma_neighbours_joined,
    kept_edge_list, lemma_kept_edges_wf, out_neighbours, in_neighbours};
use crate::objects::components::{joined, edge_joins, tarjan_components, lists_of, scc_components};

verus! {

/// A vertex of a graph template: a free vertex, or one that stands for a group of vertices.
#[derive(Clone, Copy, PartialEq, Eq, Hash, Debug, Structural)]
pub enum GraphTemplateVertex {
    Free,
    Group(u8),
}

/// A graph whose vertices are free or stand for groups.
pub type GraphTemplate = Graph<GraphTemplateVertex>;

/// The sizes of the graph templates to enumerate, and which of them to take.
#[derive(Clone, Copy, Debug, PartialEq, Eq, Structural)]
pub struct GraphTemplateLimits {
    pub n_vertices: usize,
    pub n_groups: usize,
    pub permute: bool,
    pub no_free_components: bool,
    pub no_vertex_multiplication: bool,
}

/// Which vertices are free.
pub open spec fn free_flags(w: Seq<GraphTemplateVertex>) -> Seq<bool> {
    Seq::new(w.len(), |i: int| w[i] == GraphTemplateVertex::Free)
}

/// Which vertices stand for groups.
pub open spec fn group_flags(w: Seq<GraphTemplateVertex>) -> Seq<bool> {
    Seq::new(w.len(), |i: int| w[i] != GraphTemplateVertex::Free)
}

/// The indices `0..n`.
pub open spec fn index_seq(n: nat) -> Seq<usize> {
    Seq::new(n, |i: int| i as usize)
}

/// The vertices of type `t`.
pub open spec fn of_type(t: GraphTemplateVertex) -> spec_fn(GraphTemplateVertex) -> bool {
    |x: GraphTemplateVertex| x == t
}

/// The position of the first vertex of type `t` in `w`, or -1.
pub open spec fn first_of_type(w: Seq<GraphTemplateVertex>, t: GraphTemplateVertex) -> int {
    first_where(w, of_type(t))
}

/// The position of the last vertex of type `t` in `w`, or -1.
pub open spec fn last_of_type(w: Seq<GraphTemplateVertex>, t: GraphTemplateVertex) -> int
    decreases w.len(),
{
    if w.len() == 0 {
        -1
    } else if w.last() == t {
        w.len() - 1
    } else {
        last_of_type(w.drop_last(), t)
    }
}

proof fn lemma_last_of_type(w: Seq<GraphTemplateVertex>, t: GraphTemplateVertex)
    ensures
        -1 <= last_of_type(w, t) < w.len(),
        last_of_type(w, t) >= 0 ==> w[last_of_type(w, t)] == t,
        last_of_type(w, t) >= 0 ==> forall|j: int| last_of_type(w, t) < j < w.len() ==> w[j] != t,
        last_of_type(w, t) < 0 ==> forall|j: int| 0 <= j < w.len() ==> w[j] != t,
    decreases w.len(),
{
    if w.len() > 0 {
        lemma_last_of_type(w.drop_last(), t);
        if w.last() != t {
            assert forall|j: int| 0 <= j < w.len() - 1 implies w[j] == w.drop_last()[j] by {}
        }
    }
}

/// The position in `v` of the vertex of type `t` that lies furthest back, or -1.
fn last_vertex_of_type(w: &Vec<GraphTemplateVertex>, t: GraphTemplateVertex) -> (r: Option<usize>)
    ensures
        match r {
            Some(i) => i == last_of_type(w@, t),
            None => last_of_type(w@, t) == -1,
        },
{
    let mut i: usize = w.len();
    proof {
        assert(w@.take(i as int) =~= w@);
    }
    while i > 0
        invariant
            i <= w@.len(),
            last_of_type(w@, t) == last_of_type(w@.take(i as int), t),
        decreases i,
    {
        proof {
            assert(w@.take(i as int).drop_last() =~= w@.take(i - 1));
            assert(w@.take(i as int).last() == w@[i - 1]);
        }
        if w[i - 1] == t {
            return Some(i - 1);
        }
        i = i - 1;
    }
    None
}

/// The position of the first vertex of type `t`.
fn first_vertex_of_type(w: &Vec<GraphTemplateVertex>, t: GraphTemplateVertex) -> (r: Option<usize>)
    ensures
        match r {
            Some(i) => i == first_of_type(w@, t),
            None => first_of_type(w@, t) == -1,
        },
{
    let mut i: usize = 0;
    while i < w.len()
        invariant
            i <= w@.len(),
            forall|j: int| 0 <= j < i ==> !of_type(t)(#[trigger] w@[j]),
        decreases w@.len() - i,
    {
        if w[i] == t {
            proof {
                lemma_first_where(w@, of_type(t), i as int);
            }
            return Some(i);
        }
        i = i + 1;
    }
    proof {
        lemma_first_where(w@, of_type(t), i as int);
    }
    None
}

/// `x` occurs in `v`.
fn vec_contains(v: &Vec<usize>, x: usize) -> (r: bool)
    ensures
        r == v@.contains(x),
{
    let mut i: usize = 0;
    while i < v.len()
        invariant
            i <= v@.len(),
            forall|j: int| 0 <= j < i ==> v@[j] != x,
        decreases v@.len() - i,
    {
        if v[i] == x {
            return true;
        }
        i = i + 1;
    }
    false
}

/// Every element of `a` occurs in `b`.
fn vec_within(a: &Vec<usize>, b: &Vec<usize>) -> (r: bool)
    ensures
        r == (forall|j: int| 0 <= j < a@.len() ==> b@.contains(#[trigger] a@[j])),
{
    let mut i: usize = 0;
    while i < a.len()
        invariant
            i <= a@.len(),
            forall|j: int| 0 <= j < i ==> b@.contains(#[trigger] a@[j]),
        decreases a@.len() - i,
    {
        if !vec_contains(b, a[i]) {
            return false;
        }
        i = i + 1;
    }
    true
}

impl Graph<GraphTemplateVertex> {
    /// The template with the vertices and edges of `g` and the vertex types that `mapping`
    /// gives by vertex; `mapping` must have an entry for every vertex (else the lookup panics).
    pub fn from_mapping(g: Graph<()>, mapping: &[GraphTemplateVertex]) -> (r: Self)
        requires
            g.wf(),
            mapping@.len() >= g.nv(),
        ensures
            r.wf(),
            r.nv() == g.nv(),
            forall|i: int| 0 <= i < g.nv() ==> #[trigger] r.weights()[i] == mapping@[i],
            r.edge_list() == g.edge_list(),
    {
        g.map(|v: usize, w: &()| -> (t: GraphTemplateVertex)
            requires
                v < mapping@.len(),
            ensures
                t == mapping@[v as int],
            { mapping[v] })
    }

    /// The free vertices, in index order.
    pub fn free_verts(&self) -> (r: Vec<usize>)
        ensures
            r@ == kept_values(index_seq(self.nv()), free_flags(self.weights())),
    {
        let mut r: Vec<usize> = Vec::new();
        let n = self.num_verts();
        let ghost w = self.weights();
        let mut i: usize = 0;
        while i < n
            invariant
                i <= n,
                n == w.len(),
                w == self.weights(),
                r@ == kept_values(index_seq(w.len()).take(i as int), free_flags(w)),
            decreases n - i,
        {
            proof {
                assert(index_seq(w.len()).take(i + 1).drop_last() =~= index_seq(w.len()).take(i as int));
                assert(index_seq(w.len()).take(i + 1).last() == i);
            }
            if *self.vertex(i) == GraphTemplateVertex::Free {
                r.push(i);
            }
            i = i + 1;
            proof {
                let t = index_seq(w.len()).take(i as int);
                if free_flags(w)[i - 1] {
                    assert(r@ =~= kept_values(t.drop_last(), free_flags(w)) + seq![t.last()]);
                } else {
                    assert(r@ =~= kept_values(t.drop_last(), free_flags(w)) + Seq::<usize>::empty());
                }
            }
        }
        proof {
            assert(index_seq(w.len()).take(i as int) =~= index_seq(w.len()));
        }
        r
    }

    /// The types of the vertices that stand for groups, in vertex order.
    pub fn groups(&self) -> (r: Vec<GraphTemplateVertex>)
        ensures
            r@ == kept_values(self.weights(), group_flags(self.weights())),
    {
        let mut r: Vec<GraphTemplateVertex> = Vec::new();
        let n = self.num_verts();
        let ghost w = self.weights();
        let mut i: usize = 0;
        while i < n
            invariant
                i <= n,
                n == w.len(),
                w == self.weights(),
                r@ == kept_values(w.take(i as int), group_flags(w)),
            decreases n - i,
        {
            proof {
                assert(w.take(i + 1).drop_last() =~= w.take(i as int));
                assert(w.take(i + 1).last() == w[i as int]);
            }
            let t = *self.vertex(i);
            if t != GraphTemplateVertex::Free {
                r.push(t);
            }
            i = i + 1;
            proof {
                let s = w.take(i as int);
                if group_flags(w)[i - 1] {
                    assert(r@ =~= kept_values(s.drop_last(), group_flags(w)) + seq![s.last()]);
                } else {
                    assert(r@ =~= kept_values(s.drop_last(), group_flags(w)) + Seq::<GraphTemplateVertex>::empty());
                }
            }
        }
        proof {
            assert(w.take(i as int) =~= w);
        }
        r
    }

    /// Two group types can be merged when both occur and the first vertices of the two types
    /// have the same neighbours; a free type never can.
    pub fn can_merge(&self, g1: GraphTemplateVertex, g2: GraphTemplateVertex) -> (r: bool)
        requires
            self.wf(),
        ensures
            r == ({
                let w = self.weights();
                let v1 = first_of_type(w, g1);
                let v2 = first_of_type(w, g2);
                &&& g1 != GraphTemplateVertex::Free
                &&& g2 != GraphTemplateVertex::Free
                &&& v1 >= 0
                &&& v2 >= 0
                &&& neighbour_seq(self.edge_list(), v1 as usize).to_set() == neighbour_seq(self.edge_list(), v2 as usize).to_set()
            }),
    {
        if g1 == GraphTemplateVertex::Free || g2 == GraphTemplateVertex::Free {
            return false;
        }
        let w = self.weight_list();
        let v1 = match first_vertex_of_type(&w, g1) {
            Some(v) => v,
            None => { return false; },
        };
        let v2 = match first_vertex_of_type(&w, g2) {
            Some(v) => v,
            None => { return false; },
        };
        let n1 = self.neighbours(v1);
        let n2 = self.neighbours(v2);
        let a = vec_within(&n1, &n2);
        let b = vec_within(&n2, &n1);
        let r = a && b;
        proof {
            let s1 = n1@.to_set();
            let s2 = n2@.to_set();
            if r {
                assert forall|x: usize| s1.contains(x) <==> s2.contains(x) by {
                    if s1.contains(x) {
                        let j = choose|j: int| 0 <= j < n1@.len() && n1@[j] == x;
                        assert(n2@.contains(n1@[j]));
                    }
                    if s2.contains(x) {
                        let j = choose|j: int| 0 <= j < n2@.len() && n2@[j] == x;
                        assert(n1@.contains(n2@[j]));
                    }
                }
                assert(s1 =~= s2);
            } else if s1 == s2 {
                if !a {
                    let j = choose|j: int| 0 <= j < n1@.len() && !n2@.contains(#[trigger] n1@[j]);
                    assert(s1.contains(n1@[j]));
                    assert(s2.contains(n1@[j]));
                } else {
                    let j = choose|j: int| 0 <= j < n2@.len() && !n1@.contains(#[trigger] n2@[j]);
                    assert(s2.contains(n2@[j]));
                    assert(s1.contains(n2@[j]));
                }
            }
        }
        r
    }

    /// The vertex types, by vertex.
    pub(crate) fn weight_list(&self) -> (r: Vec<GraphTemplateVertex>)
        ensures
            r@ == self.weights(),
    {
        let mut r: Vec<GraphTemplateVertex> = Vec::new();
        let n = self.num_verts();
        let mut i: usize = 0;
        while i < n
            invariant
                i <= n,
                n == self.nv(),
                r@ == self.weights().take(i as int),
            decreases n - i,
        {
            r.push(*self.vertex(i));
            i = i + 1;
            proof {
                assert(r@ =~= self.weights().take(i as int));
            }
        }
        proof {
            assert(self.weights().take(i as int) =~= self.weights());
        }
        r
    }
}

/// The index in the result of `apply` of the free template vertex `v`, when the graph had `n`
/// vertices: the free vertices are added after those of the graph, in order.
pub open spec fn free_image(w: Seq<GraphTemplateVertex>, n: nat, v: int) -> int {
    (n + count_kept(free_flags(w), v)) as int
}

/// The edges with `d` added to both ends.
pub open spec fn shifted(es: Seq<(usize, usize)>, d: nat) -> Seq<(usize, usize)> {
    es.map_values(|e: (usize, usize)| ((e.0 + d) as usize, (e.1 + d) as usize))
}

/// The edges that `apply` adds for the entries of `group_map`, in order: for an entry `(u, t)`
/// with a group type `t`, an edge from `u` to the image of each neighbour, in `petgraph`'s
/// order, of the last template vertex of type `t`.
pub open spec fn group_edges(t: Graph<GraphTemplateVertex>, n: nat, group_map: Seq<(usize, GraphTemplateVertex)>) -> Seq<(usize, usize)>
    decreases group_map.len(),
{
    if group_map.len() == 0 {
        Seq::empty()
    } else {
        let (u, ty) = group_map.last();
        group_edges(t, n, group_map.drop_last()) + if ty != GraphTemplateVertex::Free {
            group_entry_edges(t, n, u, ty)
        } else {
            Seq::empty()
        }
    }
}

/// The edges from `u` to the images of the neighbours of the last vertex of type `ty`.
pub open spec fn group_entry_edges(t: Graph<GraphTemplateVertex>, n: nat, u: usize, ty: GraphTemplateVertex) -> Seq<(usize, usize)> {
    let v = last_of_type(t.weights(), ty);
    neighbour_seq(t.edge_list(), v as usize).map_values(|x: usize| (u, free_image(t.weights(), n, x as int) as usize))
}

/// The edges of the graph that `apply` builds from `g`: those of `g`, then those between free
/// template vertices, then those for the groups.
pub open spec fn applied_edges(t: Graph<GraphTemplateVertex>, g: Graph<()>, group_map: Seq<(usize, GraphTemplateVertex)>) -> Seq<(usize, usize)> {
    g.edge_list() + shifted(kept_edges(t.edge_list(), free_flags(t.weights()), all_kept(t.ne())), g.nv()) + group_edges(t, g.nv(), group_map)
}

/// The inputs on which `apply` does not panic: every group type of `group_map` occurs in the
/// template, the last vertex of that type has free neighbours only, its entry names a vertex of
/// the result, and the result has no more vertices and edges than `petgraph` can number.
pub open spec fn can_apply(t: Graph<GraphTemplateVertex>, g: Graph<()>, group_map: Seq<(usize, GraphTemplateVertex)>) -> bool {
    let w = t.weights();
    let nf = count_kept(free_flags(w), t.nv() as int);
    &&& g.nv() + nf <= u32::MAX
    &&& applied_edges(t, g, group_map).len() <= u32::MAX
    &&& forall|j: int| 0 <= j < group_map.len() && (#[trigger] group_map[j]).1 != GraphTemplateVertex::Free ==> {
        let v = last_of_type(w, group_map[j].1);
        &&& v >= 0
        &&& group_map[j].0 < g.nv() + nf
        &&& forall|i: int| 0 <= i < neighbour_seq(t.edge_list(), v as usize).len()
            ==> w[#[trigger] neighbour_seq(t.edge_list(), v as usize)[i] as int] == GraphTemplateVertex::Free
    }
}

proof fn lemma_kept_edges_prefix_len(es: Seq<(usize, usize)>, vk: Seq<bool>, ek: Seq<bool>, k: int, m: int)
    requires
        0 <= k <= m <= es.len(),
    ensures
        kept_edges(es.take(k), vk, ek).len() <= kept_edges(es.take(m), vk, ek).len(),
    decreases m - k,
{
    if k < m {
        lemma_kept_edges_prefix_len(es, vk, ek, k, m - 1);
        assert(es.take(m).drop_last() =~= es.take(m - 1));
    }
}

proof fn lemma_group_edges_prefix_len(t: Graph<GraphTemplateVertex>, n: nat, gm: Seq<(usize, GraphTemplateVertex)>, k: int, m: int)
    requires
        0 <= k <= m <= gm.len(),
    ensures
        group_edges(t, n, gm.take(k)).len() <= group_edges(t, n, gm.take(m)).len(),
    decreases m - k,
{
    if k < m {
        lemma_group_edges_prefix_len(t, n, gm, k, m - 1);
        assert(gm.take(m).drop_last() =~= gm.take(m - 1));
    }
}

impl Graph<GraphTemplateVertex> {
    /// Puts the template into a copy of `g`: a new vertex for each free vertex, the edges between
    /// free vertices, and for each entry `(u, t)` of `group_map` with a group type `t`, edges
    /// from `u` to the new vertices of the neighbours of the last template vertex of type `t`.
    pub fn apply(&self, g: &Graph<()>, group_map: &Vec<(usize, GraphTemplateVertex)>) -> (r: Graph<()>)
        requires
            self.wf(),
            g.wf(),
            can_apply(*self, *g, group_map@),
        ensures
            r.wf(),
            r.nv() == g.nv() + count_kept(free_flags(self.weights()), self.nv() as int),
            r.edge_list() == applied_edges(*self, *g, group_map@),
            forall|j: int, v: int, x: int| #![trigger group_map@[j], joined(self.edge_list(), v, x)]
                0 <= j < group_map@.len() && group_map@[j].1 != GraphTemplateVertex::Free
                && 0 <= v < self.nv() && self.weights()[v] == group_map@[j].1
                && (forall|y: int| v < y < self.nv() ==> self.weights()[y] != group_map@[j].1)
                && joined(self.edge_list(), v, x)
                ==> joined(r.edge_list(), group_map@[j].0 as int, (g.nv() + count_kept(free_flags(self.weights()), x)) as int),
            r.ne() == g.ne() + kept_edges(self.edge_list(), free_flags(self.weights()), all_kept(self.ne())).len()
                + group_degree_total(*self, group_map@),
    {
        let ghost w = self.weights();
        let ghost ff = free_flags(w);
        let ghost nf = count_kept(ff, self.nv() as int);
        let mut h = g.duplicate();
        let n0 = g.num_verts();
        let n = self.num_verts();
        let mut image: Vec<usize> = Vec::new();
        let mut v: usize = 0;
        while v < n
            invariant
                v <= n,
                n == self.nv(),
                w == self.weights(),
                ff == free_flags(w),
                nf == count_kept(ff, n as int),
                n0 == g.nv(),
                n0 + nf <= u32::MAX,
                h.wf(),
                h.edge_list() == g.edge_list(),
                h.nv() == n0 + count_kept(ff, v as int),
                image@.len() == v,
                forall|j: int| 0 <= j < v && ff[j] ==> #[trigger] image@[j] == n0 + count_kept(ff, j),
            decreases n - v,
        {
            proof {
                lemma_count_kept_mono(ff, v as int, n as int);
            }
            if *self.vertex(v) == GraphTemplateVertex::Free {
                let u = h.add_vertex();
                image.push(u);
            } else {
                image.push(0);
            }
            v = v + 1;
        }
        let ghost base0 = g.edge_list();
        let ghost all_e = all_kept(self.ne());
        let ghost free_part = shifted(kept_edges(self.edge_list(), ff, all_e), n0 as nat);
        let ghost total = applied_edges(*self, *g, group_map@);
        let edges = self.edges();
        let mut k: usize = 0;
        while k < edges.len()
            invariant
                k <= edges@.len(),
                edges@ == self.edge_list(),
                self.wf(),
                n == self.nv(),
                w == self.weights(),
                ff == free_flags(w),
                nf == count_kept(ff, n as int),
                n0 == g.nv(),
                all_e == all_kept(self.ne()),
                base0 == g.edge_list(),
                total == base0 + shifted(kept_edges(self.edge_list(), ff, all_e), n0 as nat) + group_edges(*self, n0 as nat, group_map@),
                total.len() <= u32::MAX,
                h.wf(),
                h.nv() == n0 + nf,
                h.edge_list() == base0 + shifted(kept_edges(edges@.take(k as int), ff, all_e), n0 as nat),
                image@.len() == n,
                forall|j: int| 0 <= j < n && ff[j] ==> #[trigger] image@[j] == n0 + count_kept(ff, j),
            decreases edges@.len() - k,
        {
            let (a, b) = edges[k];
            proof {
                assert(edges@.take(k + 1).drop_last() =~= edges@.take(k as int));
                assert(edges@.take(k + 1).last() == edges@[k as int]);
                lemma_kept_edges_prefix_len(edges@, ff, all_e, k + 1, edges@.len() as int);
                assert(edges@.take(edges@.len() as int) =~= edges@);
            }
            if *self.vertex(a) == GraphTemplateVertex::Free && *self.vertex(b) == GraphTemplateVertex::Free {
                proof {
                    assert(ff[a as int] && ff[b as int]);
                    lemma_count_kept_mono(ff, a as int, n as int);
                    lemma_count_kept_mono(ff, b as int, n as int);
                    assert(kept_edges(edges@.take(k + 1), ff, all_e) == kept_edges(edges@.take(k as int), ff, all_e)
                        + seq![(count_kept(ff, a as int) as usize, count_kept(ff, b as int) as usize)]);
                }
                h.add_edge(image[a], image[b]);
                proof {
                    let old_k = kept_edges(edges@.take(k as int), ff, all_e);
                    let new_k = kept_edges(edges@.take(k + 1), ff, all_e);
                    assert(shifted(new_k, n0 as nat) =~= shifted(old_k, n0 as nat).push((image@[a as int], image@[b as int])));
                }
            } else {
                proof {
                    assert(!(ff[a as int] && ff[b as int]));
                    assert(kept_edges(edges@.take(k + 1), ff, all_e) =~= kept_edges(edges@.take(k as int), ff, all_e));
                }
            }
            k = k + 1;
        }
        proof {
            assert(edges@.take(k as int) =~= edges@);
            assert(h.edge_list() == base0 + free_part);
        }
        let wl = self.weight_list();
        let mut j: usize = 0;
        while j < group_map.len()
            invariant
                j <= group_map@.len(),
                self.wf(),
                wl@ == self.weights(),
                n == self.nv(),
                w == self.weights(),
                ff == free_flags(w),
                nf == count_kept(ff, n as int),
                n0 == g.nv(),
                can_apply(*self, *g, group_map@),
                total == base0 + free_part + group_edges(*self, n0 as nat, group_map@),
                total.len() <= u32::MAX,
                h.wf(),
                h.nv() == n0 + nf,
                h.edge_list() == base0 + free_part + group_edges(*self, n0 as nat, group_map@.take(j as int)),
                image@.len() == n,
                forall|x: int| 0 <= x < n && ff[x] ==> #[trigger] image@[x] == n0 + count_kept(ff, x),
            decreases group_map@.len() - j,
        {
            let (u, t) = group_map[j];
            let ghost before = h.edge_list();
            proof {
                assert(group_map@.take(j + 1).drop_last() =~= group_map@.take(j as int));
                assert(group_map@.take(j + 1).last() == group_map@[j as int]);
                lemma_group_edges_prefix_len(*self, n0 as nat, group_map@, j + 1, group_map@.len() as int);
                assert(group_map@.take(group_map@.len() as int) =~= group_map@);
            }
            if t != GraphTemplateVertex::Free {
                proof {
                    assert(group_map@[j as int].1 != GraphTemplateVertex::Free);
                    lemma_last_of_type(w, t);
                }
                let ug = last_vertex_of_type(&wl, t).unwrap();
                let ns = self.neighbours(ug);
                let ghost f = |x: usize| (u, free_image(w, n0 as nat, x as int) as usize);
                proof {
                    lemma_neighbours_joined(self.edge_list(), ug);
                    assert forall|y: int| 0 <= y < ns@.len() implies #[trigger] ns@[y] < n by {
                        assert(joined(self.edge_list(), ug as int, ns@[y] as int));
                        let kk = choose|kk: int| 0 <= kk < self.ne() && #[trigger] edge_joins(self.edge_list()[kk], ug as int, ns@[y] as int);
                        assert(self.edge_list()[kk].0 < n && self.edge_list()[kk].1 < n);
                    }
                    assert(group_entry_edges(*self, n0 as nat, u, t) == ns@.map_values(f));
                    assert(group_edges(*self, n0 as nat, group_map@.take(j + 1)) == group_edges(*self, n0 as nat, group_map@.take(j as int)) + ns@.map_values(f));
                }
                let mut i: usize = 0;
                while i < ns.len()
                    invariant
                        i <= ns@.len(),
                        h.wf(),
                        h.nv() == n0 + nf,
                        h.edge_list() == before + ns@.take(i as int).map_values(f),
                        before.len() + ns@.len() <= u32::MAX,
                        u < n0 + nf,
                        nf == count_kept(ff, n as int),
                        n == self.nv(),
                        ff == free_flags(w),
                        w == self.weights(),
                        image@.len() == n,
                        forall|x: int| 0 <= x < n && ff[x] ==> #[trigger] image@[x] == n0 + count_kept(ff, x),
                        forall|y: int| 0 <= y < ns@.len() ==> w[#[trigger] ns@[y] as int] == GraphTemplateVertex::Free,
                        forall|y: int| 0 <= y < ns@.len() ==> #[trigger] ns@[y] < n,
                        f == (|x: usize| (u, free_image(w, n0 as nat, x as int) as usize)),
                    decreases ns@.len() - i,
                {
                    let x = ns[i];
                    proof {
                        assert(ff[x as int]);
                        lemma_count_kept_mono(ff, x as int, n as int);
                    }
                    h.add_edge(u, image[x]);
                    i = i + 1;
                    proof {
                        assert(ns@.take(i as int).map_values(f) =~= ns@.take(i - 1).map_values(f).push(f(x)));
                    }
                }
                proof {
                    assert(ns@.take(i as int) =~= ns@);
                }
            } else {
                proof {
                    assert(group_edges(*self, n0 as nat, group_map@.take(j + 1)) =~= group_edges(*self, n0 as nat, group_map@.take(j as int)));
                }
            }
            j = j + 1;
        }
        proof {
            assert(group_map@.take(j as int) =~= group_map@);
            law_apply_joins_group_neighbours(*self, *g, group_map@, h);
            law_apply_edge_count(*self, *g, group_map@, h);
        }
        h
    }
}

/// The vertices that the part of `decompose` for the component `comp` of the free vertices
/// keeps: those whose numbers `comp` lists, and the group vertices with a neighbour whose
/// number it lists. The numbers in `comp` are those of the graph of free vertices alone, and
/// are taken as template vertex numbers as they stand.
pub open spec fn part_flags(t: Graph<GraphTemplateVertex>, comp: Seq<usize>) -> Seq<bool> {
    Seq::new(t.nv(), |u: int| comp.contains(u as usize) || (t.weights()[u] != GraphTemplateVertex::Free
        && exists|i: int| 0 <= i < neighbour_seq(t.edge_list(), u as usize).len()
            && comp.contains(#[trigger] neighbour_seq(t.edge_list(), u as usize)[i])))
}

/// The edges between free vertices, numbered among the free vertices.
pub open spec fn free_edges(t: Graph<GraphTemplateVertex>) -> Seq<(usize, usize)> {
    kept_edges(t.edge_list(), free_flags(t.weights()), all_kept(t.ne()))
}

/// The number of free vertices.
pub open spec fn free_count(t: Graph<GraphTemplateVertex>) -> nat {
    count_kept(free_flags(t.weights()), t.nv() as int)
}

/// The number of set flags.
fn count_set(flags: &Vec<bool>) -> (r: usize)
    ensures
        r == count_kept(flags@, flags@.len() as int),
{
    let mut c: usize = 0;
    let mut i: usize = 0;
    while i < flags.len()
        invariant
            i <= flags@.len(),
            c == count_kept(flags@, i as int),
        decreases flags@.len() - i,
    {
        proof {
            lemma_count_kept_mono(flags@, i as int, i as int);
        }
        if flags[i] {
            c = c + 1;
        }
        i = i + 1;
    }
    c
}

impl Graph<GraphTemplateVertex> {
    /// Which vertices are free.
    fn free_flag_list(&self) -> (r: Vec<bool>)
        ensures
            r@ == free_flags(self.weights()),
    {
        let mut r: Vec<bool> = Vec::new();
        let n = self.num_verts();
        let mut i: usize = 0;
        while i < n
            invariant
                i <= n,
                n == self.nv(),
                r@ == free_flags(self.weights()).take(i as int),
            decreases n - i,
        {
            r.push(*self.vertex(i) == GraphTemplateVertex::Free);
            i = i + 1;
            proof {
                assert(r@ =~= free_flags(self.weights()).take(i as int));
            }
        }
        proof {
            assert(free_flags(self.weights()).take(i as int) =~= free_flags(self.weights()));
        }
        r
    }

    /// Whether some neighbour of `u` is listed in `comp`.
    fn touches(&self, u: usize, comp: &Vec<usize>) -> (r: bool)
        ensures
            r == exists|i: int| 0 <= i < neighbour_seq(self.edge_list(), u).len()
                && comp@.contains(#[trigger] neighbour_seq(self.edge_list(), u)[i]),
    {
        let ns = self.neighbours(u);
        let mut i: usize = 0;
        while i < ns.len()
            invariant
                i <= ns@.len(),
                ns@ == neighbour_seq(self.edge_list(), u),
                forall|j: int| 0 <= j < i ==> !comp@.contains(#[trigger] ns@[j]),
            decreases ns@.len() - i,
        {
            if vec_contains(comp, ns[i]) {
                return true;
            }
            i = i + 1;
        }
        false
    }

    /// Splits the template along the connected components of its free vertices: for each
    /// component, in the order in which `petgraph::algo::TarjanScc` finds them, the subgraph on
    /// the vertices that `part_flags` names.
    pub fn decompose(&self) -> (r: Vec<Self>)
        requires
            self.wf(),
        ensures
            r@.len() == tarjan_components(free_count(*self), free_edges(*self)).len(),
            forall|c: int| 0 <= c < r@.len() ==> {
                let keep = part_flags(*self, tarjan_components(free_count(*self), free_edges(*self))[c]);
                &&& (#[trigger] r@[c]).wf()
                &&& r@[c].weights() == kept_values(self.weights(), keep)
                &&& r@[c].edge_list() == kept_edges(self.edge_list(), keep, all_kept(self.ne()))
            },
    {
        let ff = self.free_flag_list();
        let all = all_edges_flags(self.num_edges());
        let fe = kept_edge_list(&self.edges(), &ff, &all);
        let fc = count_set(&ff);
        proof {
            lemma_kept_edges_wf(self.edge_list(), ff@, all@, self.nv());
        }
        let comps = scc_components(fc, &fe);
        let ghost cs = tarjan_components(free_count(*self), free_edges(*self));
        let n = self.num_verts();
        let mut r: Vec<Self> = Vec::new();
        let mut c: usize = 0;
        while c < comps.len()
            invariant
                self.wf(),
                n == self.nv(),
                c <= comps@.len(),
                lists_of(comps@) == cs,
                all@ == all_kept(self.ne()),
                r@.len() == c,
                forall|d: int| 0 <= d < c ==> {
                    let keep = part_flags(*self, cs[d]);
                    &&& (#[trigger] r@[d]).wf()
                    &&& r@[d].weights() == kept_values(self.weights(), keep)
                    &&& r@[d].edge_list() == kept_edges(self.edge_list(), keep, all_kept(self.ne()))
                },
            decreases comps@.len() - c,
        {
            let comp = &comps[c];
            proof {
                assert(cs[c as int] == comp@);
            }
            let mut keep: Vec<bool> = Vec::new();
            let mut u: usize = 0;
            while u < n
                invariant
                    u <= n,
                    n == self.nv(),
                    comp@ == cs[c as int],
                    keep@ == part_flags(*self, cs[c as int]).take(u as int),
                decreases n - u,
            {
                let t = vec_contains(comp, u) || (*self.vertex(u) != GraphTemplateVertex::Free && self.touches(u, comp));
                keep.push(t);
                u = u + 1;
                proof {
                    assert(keep@ =~= part_flags(*self, cs[c as int]).take(u as int));
                }
            }
            proof {
                assert(part_flags(*self, cs[c as int]).take(u as int) =~= part_flags(*self, cs[c as int]));
            }
            let h = self.subgraph(&keep, &all);
            r.push(h);
            c = c + 1;
        }
        r
    }
}

/// The text of a template vertex: its number if it is free, `g` and the group's number if not.
pub open spec fn vertex_label(t: GraphTemplateVertex, v: int) -> Seq<char> {
    match t {
        GraphTemplateVertex::Free => decimal(v as nat),
        GraphTemplateVertex::Group(g) => seq!['g'] + decimal(g as nat),
    }
}

/// The text of a template edge: the texts of its ends between brackets.
pub open spec fn template_edge_text(w: Seq<GraphTemplateVertex>, e: (usize, usize)) -> Seq<char> {
    seq!['('] + vertex_label(w[e.0 as int], e.0 as int) + seq![',', ' '] + vertex_label(w[e.1 as int], e.1 as int) + seq![')']
}

/// The text form of a template: its vertices, then its edges, each list between square
/// brackets, as in `{ [0, g0] [(0, g0)]}`.
pub open spec fn template_text(t: Graph<GraphTemplateVertex>) -> Seq<char> {
    let w = t.weights();
    seq!['{', ' ', '['] + comma_joined(Seq::new(w.len(), |i: int| vertex_label(w[i], i))) + seq![']', ' ', '[']
        + comma_joined(t.edge_list().map_values(|e: (usize, usize)| template_edge_text(w, e))) + seq![']', '}']
}

/// Appends the text of a template vertex.
fn push_label(out: &mut Vec<char>, t: GraphTemplateVertex, v: usize)
    ensures
        final(out)@ == old(out)@ + vertex_label(t, v as int),
{
    match t {
        GraphTemplateVertex::Free => {
            push_decimal(out, v);
        },
        GraphTemplateVertex::Group(g) => {
            out.push('g');
            push_decimal(out, g as usize);
            proof {
                assert(out@ =~= old(out)@ + vertex_label(t, v as int));
            }
        },
    }
}

/// Appends the text of the edge from `a` of type `ta` to `b` of type `tb`.
fn push_template_edge(out: &mut Vec<char>, ta: GraphTemplateVertex, a: usize, tb: GraphTemplateVertex, b: usize)
    ensures
        final(out)@ == old(out)@ + (seq!['('] + vertex_label(ta, a as int) + seq![',', ' '] + vertex_label(tb, b as int) + seq![')']),
{
    out.push('(');
    push_label(out, ta, a);
    out.push(',');
    out.push(' ');
    push_label(out, tb, b);
    out.push(')');
    proof {
        assert(out@ =~= old(out)@ + (seq!['('] + vertex_label(ta, a as int) + seq![',', ' '] + vertex_label(tb, b as int) + seq![')']));
    }
}

/// Appends the texts of the edges of a template with the vertex types `w`, separated by commas.
fn push_template_edges(out: &mut Vec<char>, w: &Vec<GraphTemplateVertex>, edges: &Vec<(usize, usize)>)
    requires
        forall|k: int| 0 <= k < edges@.len() ==> (#[trigger] edges@[k]).0 < w@.len() && edges@[k].1 < w@.len(),
    ensures
        final(out)@ == old(out)@ + comma_joined(edges@.map_values(|e: (usize, usize)| template_edge_text(w@, e))),
{
    let ghost fe = |e: (usize, usize)| template_edge_text(w@, e);
    let mut k: usize = 0;
    while k < edges.len()
        invariant
            k <= edges@.len(),
            forall|j: int| 0 <= j < edges@.len() ==> (#[trigger] edges@[j]).0 < w@.len() && edges@[j].1 < w@.len(),
            fe == (|e: (usize, usize)| template_edge_text(w@, e)),
            out@ == old(out)@ + comma_joined(edges@.take(k as int).map_values(fe)),
        decreases edges@.len() - k,
    {
        let (a, b) = edges[k];
        if k > 0 {
            out.push(',');
            out.push(' ');
        }
        push_template_edge(out, w[a], a, w[b], b);
        proof {
            let items = edges@.take(k as int).map_values(fe);
            assert(edges@.take(k + 1).map_values(fe) =~= items.push(template_edge_text(w@, (a, b))));
            lemma_comma_joined_push(items, template_edge_text(w@, (a, b)));
            assert(out@ =~= old(out)@ + comma_joined(items.push(template_edge_text(w@, (a, b)))));
        }
        k = k + 1;
    }
    proof {
        assert(edges@.take(k as int) =~= edges@);
    }
}

impl Graph<GraphTemplateVertex> {
    /// The text form, as `template_text` gives it.
    pub fn to_string(&self) -> (r: String)
        requires
            self.wf(),
        ensures
            r@ == template_text(*self),
    {
        let ghost w = self.weights();
        let ghost f = |i: int| vertex_label(w[i], i);
        let mut out: Vec<char> = Vec::new();
        out.push('{');
        out.push(' ');
        out.push('[');
        let n = self.num_verts();
        let mut i: usize = 0;
        while i < n
            invariant
                i <= n,
                n == w.len(),
                w == self.weights(),
                f == (|i: int| vertex_label(w[i], i)),
                out@ == seq!['{', ' ', '['] + comma_joined(Seq::new(i as nat, f)),
            decreases n - i,
        {
            if i > 0 {
                out.push(',');
                out.push(' ');
            }
            push_label(&mut out, *self.vertex(i), i);
            proof {
                assert(Seq::new((i + 1) as nat, f) =~= Seq::new(i as nat, f).push(vertex_label(w[i as int], i as int)));
                lemma_comma_joined_push(Seq::new(i as nat, f), vertex_label(w[i as int], i as int));
                assert(out@ =~= seq!['{', ' ', '['] + comma_joined(Seq::new((i + 1) as nat, f)));
            }
            i = i + 1;
        }
        out.push(']');
        out.push(' ');
        out.push('[');
        let ghost mid = out@;
        let wl = self.weight_list();
        let edges = self.edges();
        push_template_edges(&mut out, &wl, &edges);
        out.push(']');
        out.push('}');
        proof {
            assert(Seq::new(n as nat, f) =~= Seq::new(w.len(), |i: int| vertex_label(w[i], i)));
            assert(out@ =~= template_text(*self));
        }
        string_of(out)
    }
}

/// The limits that a template meets: its number of vertices and of group vertices.
pub open spec fn template_limits(t: Graph<GraphTemplateVertex>) -> GraphTemplateLimits {
    GraphTemplateLimits {
        n_vertices: t.nv() as usize,
        n_groups: count_kept(group_flags(t.weights()), t.nv() as int) as usize,
        permute: true,
        no_free_components: false,
        no_vertex_multiplication: false,
    }
}

impl CombGrad<GraphTemplateLimits> for Graph<GraphTemplateVertex> {
    open spec fn spec_degree(&self) -> GraphTemplateLimits {
        template_limits(*self)
    }

    /// The number of vertices and of group vertices; the flags do not matter here.
    fn degree(&self) -> (r: GraphTemplateLimits) {
        let n = self.num_verts();
        let gs = self.groups();
        proof {
            lemma_kept_values_len(self.weights(), group_flags(self.weights()));
        }
        let g = gs.len();
        GraphTemplateLimits { n_vertices: n, n_groups: g, permute: true, no_free_components: false, no_vertex_multiplication: false }
    }
}

/// A vertex joined to `v` is among the neighbours that `neighbour_seq` lists.
proof fn lemma_joined_listed(edges: Seq<(usize, usize)>, v: usize, x: usize)
    requires
        joined(edges, v as int, x as int),
    ensures
        neighbour_seq(edges, v).contains(x),
    decreases edges.len(),
{
    let k = choose|k: int| 0 <= k < edges.len() && #[trigger] edge_joins(edges[k], v as int, x as int);
    let rest = edges.drop_first();
    let o = out_neighbours(edges, v);
    let i = in_neighbours(edges, v);
    let ro = out_neighbours(rest, v);
    let ri = in_neighbours(rest, v);
    if k == 0 {
        let e = edges[0];
        if e.0 == v {
            assert(o[o.len() - 1] == e.1);
            if e.1 == x {
                assert(neighbour_seq(edges, v)[o.len() - 1] == x);
            } else {
                assert(e.0 == x && e.1 == v);
                assert(neighbour_seq(edges, v)[o.len() - 1] == x);
            }
        } else {
            assert(e.1 == v && e.0 == x);
            assert(i[i.len() - 1] == x);
            assert(neighbour_seq(edges, v)[o.len() + i.len() - 1] == x);
        }
    } else {
        assert(edge_joins(rest[k - 1], v as int, x as int));
        lemma_joined_listed(rest, v, x);
        let ns = neighbour_seq(rest, v);
        let p = choose|p: int| 0 <= p < ns.len() && ns[p] == x;
        if p < ro.len() {
            assert(o[p] == ro[p]);
            assert(neighbour_seq(edges, v)[p] == x);
        } else {
            let q = p - ro.len();
            assert(i[q] == ri[q]);
            assert(neighbour_seq(edges, v)[o.len() + q] == x);
        }
    }
}

/// The edges that an entry of `group_map` with a group type asks for are among the group edges.
proof fn lemma_group_entry_in_group_edges(t: Graph<GraphTemplateVertex>, n: nat, gm: Seq<(usize, GraphTemplateVertex)>, j: int, i: int)
    requires
        0 <= j < gm.len(),
        gm[j].1 != GraphTemplateVertex::Free,
        0 <= i < group_entry_edges(t, n, gm[j].0, gm[j].1).len(),
    ensures
        group_edges(t, n, gm).contains(group_entry_edges(t, n, gm[j].0, gm[j].1)[i]),
    decreases gm.len(),
{
    let rest = gm.drop_last();
    let ge = group_edges(t, n, gm);
    let gr = group_edges(t, n, rest);
    let x = group_entry_edges(t, n, gm[j].0, gm[j].1)[i];
    if j == gm.len() - 1 {
        assert(ge[gr.len() + i] == x);
    } else {
        assert(rest[j] == gm[j]);
        lemma_group_entry_in_group_edges(t, n, rest, j, i);
        let p = choose|p: int| 0 <= p < gr.len() && gr[p] == x;
        assert(ge[p] == x);
    }
}

/// What `apply` does for a group: for every entry `(u, ty)` of `group_map` with a group type,
/// and every vertex `x` joined in the template to the last vertex `v` of type `ty`, the result
/// joins `u` to the new vertex made for `x`, which is numbered after the vertices of `g` and the
/// free template vertices before `x`.
pub proof fn law_apply_joins_group_neighbours(
    t: Graph<GraphTemplateVertex>,
    g: Graph<()>,
    gm: Seq<(usize, GraphTemplateVertex)>,
    r: Graph<()>,
)
    requires
        t.wf(),
        g.wf(),
        can_apply(t, g, gm),
        r.edge_list() == applied_edges(t, g, gm),
    ensures
        forall|j: int, v: int, x: int| #![trigger gm[j], joined(t.edge_list(), v, x)]
            0 <= j < gm.len() && gm[j].1 != GraphTemplateVertex::Free
            && 0 <= v < t.nv() && t.weights()[v] == gm[j].1
            && (forall|y: int| v < y < t.nv() ==> t.weights()[y] != gm[j].1)
            && joined(t.edge_list(), v, x)
            ==> joined(r.edge_list(), gm[j].0 as int, (g.nv() + count_kept(free_flags(t.weights()), x)) as int),
{
    let w = t.weights();
    let n = g.nv();
    let ff = free_flags(w);
    assert forall|j: int, v: int, x: int| #![trigger gm[j], joined(t.edge_list(), v, x)]
        0 <= j < gm.len() && gm[j].1 != GraphTemplateVertex::Free
        && 0 <= v < t.nv() && t.weights()[v] == gm[j].1
        && (forall|y: int| v < y < t.nv() ==> t.weights()[y] != gm[j].1)
        && joined(t.edge_list(), v, x)
        implies joined(r.edge_list(), gm[j].0 as int, (n + count_kept(ff, x)) as int) by {
        let (u, ty) = gm[j];
        lemma_last_of_type(w, ty);
        let lv = last_of_type(w, ty);
        assert(lv == v) by {
            if lv < v {
                assert(w[v] != ty);
            } else if lv > v {
                assert(w[lv] != ty);
            }
        }
        let k = choose|k: int| 0 <= k < t.edge_list().len() && #[trigger] edge_joins(t.edge_list()[k], v, x);
        assert(t.edge_list()[k].0 < t.nv() && t.edge_list()[k].1 < t.nv());
        assert(0 <= x < t.nv());
        lemma_joined_listed(t.edge_list(), v as usize, x as usize);
        let ns = neighbour_seq(t.edge_list(), v as usize);
        let i = choose|i: int| 0 <= i < ns.len() && ns[i] == x as usize;
        let ee = group_entry_edges(t, n, u, ty);
        assert(ee[i] == (u, free_image(w, n, x) as usize));
        lemma_group_entry_in_group_edges(t, n, gm, j, i);
        let ge = group_edges(t, n, gm);
        let p = choose|p: int| 0 <= p < ge.len() && ge[p] == ee[i];
        let es = r.edge_list();
        let pre = g.edge_list() + shifted(kept_edges(t.edge_list(), ff, all_kept(t.ne())), n);
        assert(es[pre.len() + p] == ee[i]);
        lemma_count_kept_mono(ff, x, t.nv() as int);
        assert(free_image(w, n, x) == n + count_kept(ff, x));
        assert(edge_joins(es[pre.len() + p], u as int, (n + count_kept(ff, x)) as int));
    }
}

/// The sum, over the entries of `group_map` with a group type `ty`, of the number of edges at
/// the last template vertex of type `ty`.
pub open spec fn group_degree_total(t: Graph<GraphTemplateVertex>, gm: Seq<(usize, GraphTemplateVertex)>) -> nat
    decreases gm.len(),
{
    if gm.len() == 0 {
        0
    } else {
        let ty = gm.last().1;
        group_degree_total(t, gm.drop_last()) + if ty != GraphTemplateVertex::Free {
            neighbour_seq(t.edge_list(), last_of_type(t.weights(), ty) as usize).len()
        } else {
            0
        }
    }
}

proof fn lemma_group_edges_len(t: Graph<GraphTemplateVertex>, n: nat, gm: Seq<(usize, GraphTemplateVertex)>)
    ensures
        group_edges(t, n, gm).len() == group_degree_total(t, gm),
    decreases gm.len(),
{
    if gm.len() > 0 {
        lemma_group_edges_len(t, n, gm.drop_last());
    }
}

/// How many edges `apply` makes: those of `g`, one for each edge between free template
/// vertices, and for each entry of `group_map` with a group type as many as the last template
/// vertex of that type has edges.
pub proof fn law_apply_edge_count(
    t: Graph<GraphTemplateVertex>,
    g: Graph<()>,
    gm: Seq<(usize, GraphTemplateVertex)>,
    r: Graph<()>,
)
    requires
        r.edge_list() == applied_edges(t, g, gm),
    ensures
        r.ne() == g.ne() + kept_edges(t.edge_list(), free_flags(t.weights()), all_kept(t.ne())).len() + group_degree_total(t, gm),
{
    lemma_group_edges_len(t, g.nv(), gm);
}

} // verus!
