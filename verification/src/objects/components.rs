use vstd::prelude::*;
use petgraph::algo::TarjanScc;
use petgraph::graph::{NodeIndex, UnGraph};
use crate::objects::embedded_graph::{EmbGraph, subgraph_by};

verus! {

/// The edge `e` joins `a` and `b`, one way round or the other.
pub open spec fn edge_joins(e: (usize, usize), a: int, b: int) -> bool {
    (e.0 == a && e.1 == b) || (e.0 == b && e.1 == a)
}

/// An edge of `edges` joins `a` and `b`.
pub open spec fn joined(edges: Seq<(usize, usize)>, a: int, b: int) -> bool {
    exists|k: int| 0 <= k < edges.len() && #[trigger] edge_joins(edges[k], a, b)
}

/// `p` is a walk from `a` to `b` along `edges`.
pub open spec fn walk_from_to(edges: Seq<(usize, usize)>, p: Seq<usize>, a: int, b: int) -> bool {
    &&& p.len() >= 1
    &&& p[0] == a
    &&& p[p.len() - 1] == b
    &&& forall|i: int| 0 <= i < p.len() - 1 ==> #[trigger] joined(edges, p[i] as int, p[i + 1] as int)
}

/// Some walk along `edges` leads from `a` to `b`.
pub open spec fn connected(edges: Seq<(usize, usize)>, a: int, b: int) -> bool {
    exists|p: Seq<usize>| #[trigger] walk_from_to(edges, p, a, b)
}

/// Some list of `comps` holds `v`.
pub open spec fn in_some(comps: Seq<Seq<usize>>, v: int) -> bool {
    exists|c: int| 0 <= c < comps.len() && #[trigger] comps[c].contains(v as usize)
}

/// `comps` lists the connected components of the graph on the vertices `0..n` with `edges`:
/// each list is non-empty, every vertex is in one, the vertices of a list are connected and
/// those of different lists are not.
pub open spec fn are_components(n: nat, edges: Seq<(usize, usize)>, comps: Seq<Seq<usize>>) -> bool {
    &&& forall|c: int| 0 <= c < comps.len() ==> (#[trigger] comps[c]).len() > 0
    &&& forall|c: int, i: int| 0 <= c < comps.len() && 0 <= i < comps[c].len() ==> #[trigger] comps[c][i] < n
    &&& forall|v: int| 0 <= v < n ==> #[trigger] in_some(comps, v)
    &&& forall|c: int, i: int, j: int| 0 <= c < comps.len() && 0 <= i < comps[c].len() && 0 <= j < comps[c].len()
        ==> connected(edges, #[trigger] comps[c][i] as int, #[trigger] comps[c][j] as int)
    &&& forall|c: int, d: int, i: int, j: int| 0 <= c < comps.len() && 0 <= d < comps.len() && c != d && 0 <= i
        < comps[c].len() && 0 <= j < comps[d].len() ==> !connected(edges, #[trigger] comps[c][i] as int, #[trigger] comps[d][j] as int)
}

/// The components of the graph on `0..n` with `edges`, in the order in which
/// `petgraph::algo::TarjanScc` gives them.
pub uninterp spec fn tarjan_components(n: nat, edges: Seq<(usize, usize)>) -> Seq<Seq<usize>>;

/// The lists as sequences.
pub open spec fn lists_of(lists: Seq<Vec<usize>>) -> Seq<Seq<usize>> {
    lists.map_values(|c: Vec<usize>| c@)
}

/// `petgraph::algo::TarjanScc::run` on the undirected graph with the vertices `0..n` and the
/// given edges. It gives the strongly connected components, which for an undirected graph are
/// the connected components, as its documentation says; the order of the components, and of
/// the vertices in each, is the algorithm's and is only named here.
#[verifier::external_body]
pub(crate) fn scc_components(n: usize, edges: &Vec<(usize, usize)>) -> (r: Vec<Vec<usize>>)
    requires
        forall|k: int| 0 <= k < edges@.len() ==> (#[trigger] edges@[k]).0 < n && edges@[k].1 < n,
    ensures
        lists_of(r@) == tarjan_components(n as nat, edges@),
        are_components(n as nat, edges@, lists_of(r@)),
{
    let mut g: UnGraph<(), (), usize> = UnGraph::default();
    let nodes: Vec<NodeIndex<usize>> = (0..n).map(|_| g.add_node(())).collect();
    for &(a, b) in edges.iter() {
        g.add_edge(nodes[a], nodes[b], ());
    }
    let mut comps: Vec<Vec<usize>> = Vec::new();
    TarjanScc::new().run(&g, |comp: &[NodeIndex<usize>]| comps.push(comp.iter().map(|v| v.index()).collect()));
    comps
}

/// The edges of `g` as pairs of vertices.
pub open spec fn vertex_edges<V, HE, E>(g: EmbGraph<V, HE, E>) -> Seq<(usize, usize)> {
    Seq::new(g.ne() as nat, |k: int| (g.half_edges@[g.edges@[k].0 as int].0, g.half_edges@[g.edges@[k].1 as int].0))
}

/// The connected components of `g`, in the order of `petgraph::algo::TarjanScc`.
pub open spec fn components_of<V, HE, E>(g: EmbGraph<V, HE, E>) -> Seq<Seq<usize>> {
    tarjan_components(g.nv() as nat, vertex_edges(g))
}

impl<V, HE, E> EmbGraph<V, HE, E> {
    /// The edges as pairs of vertices.
    fn vertex_edge_list(&self) -> (r: Vec<(usize, usize)>)
        requires
            self.wf(),
        ensures
            r@ == vertex_edges(*self),
            forall|k: int| 0 <= k < r@.len() ==> (#[trigger] r@[k]).0 < self.nv() && r@[k].1 < self.nv(),
    {
        let mut r: Vec<(usize, usize)> = Vec::new();
        let mut k: usize = 0;
        while k < self.edges.len()
            invariant
                self.wf(),
                k <= self.ne(),
                r@.len() == k,
                forall|i: int| 0 <= i < k ==> #[trigger] r@[i] == vertex_edges(*self)[i],
                forall|i: int| 0 <= i < k ==> (#[trigger] r@[i]).0 < self.nv() && r@[i].1 < self.nv(),
            decreases self.ne() - k,
        {
            let (a, b, _) = &self.edges[k];
            proof {
                assert(self.edges@[k as int].0 < self.nhe());
                assert(self.edges@[k as int].1 < self.nhe());
            }
            let va = self.half_edges[*a].0;
            let vb = self.half_edges[*b].0;
            r.push((va, vb));
            k = k + 1;
        }
        proof {
            assert(r@ =~= vertex_edges(*self));
        }
        r
    }

    /// The number of connected components.
    pub fn connected_component_number(&self) -> (r: usize)
        requires
            self.wf(),
        ensures
            are_components(self.nv() as nat, vertex_edges(*self), components_of(*self)),
            r == components_of(*self).len(),
    {
        let edges = self.vertex_edge_list();
        let comps = scc_components(self.vertices.len(), &edges);
        proof {
            assert(lists_of(comps@).len() == comps@.len());
        }
        comps.len()
    }
}

/// `h` is the subgraph of `g` that `vertex_subgraph` makes on the vertices of `comp`.
pub open spec fn is_component_subgraph<V: Clone, HE: Clone, E: Clone>(g: EmbGraph<V, HE, E>, h: EmbGraph<V, HE, E>, comp: Seq<usize>) -> bool {
    &&& h.wf()
    &&& exists|vm: Seq<Option<usize>>, em: Seq<Option<usize>>, hm: Seq<Option<usize>>, keep: spec_fn(int) -> bool,
        all: spec_fn(int) -> bool|
        #[trigger] subgraph_by(g, h, vm, em, hm, keep, all)
        && (forall|e: int| #[trigger] all(e))
        && forall|v: int| 0 <= v < g.nv() ==> (#[trigger] keep(v) <==> comp.contains(v as usize))
}

impl<V: Clone, HE: Clone, E: Clone> EmbGraph<V, HE, E> {
    /// The subgraph on the vertices of `comp`, which must hold both ends of every edge.
    fn component_subgraph(&self, comp: &Vec<usize>) -> (h: Self)
        requires
            self.wf(),
            forall|i: int| 0 <= i < comp@.len() ==> #[trigger] comp@[i] < self.nv(),
            forall|k: int| 0 <= k < self.ne() ==> #[trigger] comp@.contains(vertex_edges(*self)[k].0),
            forall|k: int| 0 <= k < self.ne() ==> #[trigger] comp@.contains(vertex_edges(*self)[k].1),
        ensures
            is_component_subgraph(*self, h, comp@),
    {
        let member = membership(comp, self.vertices.len());
        let mr = &member;
        let keep_v = |v: usize, _x: &V| -> (b: bool)
            requires
                v < mr@.len(),
            ensures
                b == mr@[v as int],
        {
            mr[v]
        };
        proof {
            assert forall|e: int, b: bool| 0 <= e < self.ne() && #[trigger] call_ensures(keep_v, (self.he_v(self.edges@[e].0 as int) as usize,
                &self.vertices@[self.he_v(self.edges@[e].0 as int)].1), b) implies b by {
                assert(vertex_edges(*self)[e].0 == self.he_v(self.edges@[e].0 as int));
                assert(comp@.contains(vertex_edges(*self)[e].0));
            }
            assert forall|e: int, b: bool| 0 <= e < self.ne() && #[trigger] call_ensures(keep_v, (self.he_v(self.edges@[e].1 as int) as usize,
                &self.vertices@[self.he_v(self.edges@[e].1 as int)].1), b) implies b by {
                assert(vertex_edges(*self)[e].1 == self.he_v(self.edges@[e].1 as int));
                assert(comp@.contains(vertex_edges(*self)[e].1));
            }
        }
        let h = self.vertex_subgraph(keep_v);
        proof {
            let (vm, em, hm, keep, all) = choose|vm: Seq<Option<usize>>, em: Seq<Option<usize>>, hm: Seq<Option<usize>>, keep: spec_fn(int) -> bool,
                all: spec_fn(int) -> bool| #[trigger] subgraph_by(*self, h, vm, em, hm, keep, all) && (forall|e: int| #[trigger] all(e))
                && forall|v: int| 0 <= v < self.nv() ==> call_ensures(keep_v, (v as usize, &self.vertices@[v].1), #[trigger] keep(v));
            assert forall|v: int| 0 <= v < self.nv() implies (#[trigger] keep(v) <==> comp@.contains(v as usize)) by {
                assert(call_ensures(keep_v, (v as usize, &self.vertices@[v].1), keep(v)));
            }
        }
        h
    }

    /// The subgraphs on the connected components, in the order of `components_of`. Each is
    /// made by `vertex_subgraph`, which keeps every edge: so every edge must lie in every
    /// component, that is, there is at most one component or there are no edges.
    pub fn connected_components_subgraphs(&self) -> (r: Vec<Self>)
        requires
            self.wf(),
            forall|c: int, k: int| 0 <= c < components_of(*self).len() && 0 <= k < self.ne() ==> #[trigger] components_of(
                *self)[c].contains(vertex_edges(*self)[k].0),
            forall|c: int, k: int| 0 <= c < components_of(*self).len() && 0 <= k < self.ne() ==> #[trigger] components_of(
                *self)[c].contains(vertex_edges(*self)[k].1),
        ensures
            r@.len() == components_of(*self).len(),
            forall|i: int| 0 <= i < r@.len() ==> #[trigger] is_component_subgraph(*self, r@[i], components_of(*self)[i]),
    {
        let n = self.vertices.len();
        let edges = self.vertex_edge_list();
        let comps = scc_components(n, &edges);
        let ghost cs = components_of(*self);
        proof {
            assert(cs.len() == comps@.len());
        }
        let mut r: Vec<Self> = Vec::new();
        let mut c: usize = 0;
        while c < comps.len()
            invariant
                self.wf(),
                n == self.nv(),
                cs == components_of(*self),
                lists_of(comps@) == cs,
                cs.len() == comps@.len(),
                forall|c2: int, i: int| 0 <= c2 < cs.len() && 0 <= i < cs[c2].len() ==> #[trigger] cs[c2][i] < n,
                forall|c2: int, k: int| 0 <= c2 < cs.len() && 0 <= k < self.ne() ==> #[trigger] cs[c2].contains(vertex_edges(*self)[k].0),
                forall|c2: int, k: int| 0 <= c2 < cs.len() && 0 <= k < self.ne() ==> #[trigger] cs[c2].contains(vertex_edges(*self)[k].1),
                c <= comps@.len(),
                r@.len() == c,
                forall|i: int| 0 <= i < c ==> #[trigger] is_component_subgraph(*self, r@[i], cs[i]),
            decreases comps@.len() - c,
        {
            let comp = &comps[c];
            proof {
                assert(cs[c as int] == comp@);
                assert forall|i: int| 0 <= i < comp@.len() implies #[trigger] comp@[i] < n by {
                    assert(cs[c as int][i] == comp@[i]);
                }
                assert forall|k: int| 0 <= k < self.ne() implies #[trigger] comp@.contains(vertex_edges(*self)[k].0) by {
                    assert(cs[c as int].contains(vertex_edges(*self)[k].0));
                }
                assert forall|k: int| 0 <= k < self.ne() implies #[trigger] comp@.contains(vertex_edges(*self)[k].1) by {
                    assert(cs[c as int].contains(vertex_edges(*self)[k].1));
                }
            }
            let h = self.component_subgraph(comp);
            let ghost r0 = r@;
            r.push(h);
            proof {
                assert forall|i: int| 0 <= i < c + 1 implies #[trigger] is_component_subgraph(*self, r@[i], cs[i]) by {
                    if i < c {
                        assert(r@[i] == r0[i]);
                    }
                }
            }
            c = c + 1;
        }
        r
    }
}

/// Flags, for each vertex below `n`, whether `comp` holds it.
pub(crate) fn membership(comp: &Vec<usize>, n: usize) -> (r: Vec<bool>)
    requires
        forall|i: int| 0 <= i < comp@.len() ==> #[trigger] comp@[i] < n,
    ensures
        r@.len() == n,
        forall|v: int| 0 <= v < n ==> (#[trigger] r@[v] <==> comp@.contains(v as usize)),
{
    let mut r: Vec<bool> = Vec::new();
    let mut v: usize = 0;
    while v < n
        invariant
            v <= n,
            r@.len() == v,
            forall|x: int| 0 <= x < v ==> !r@[x],
        decreases n - v,
    {
        r.push(false);
        v = v + 1;
    }
    let mut i: usize = 0;
    while i < comp.len()
        invariant
            i <= comp@.len(),
            r@.len() == n,
            forall|j: int| 0 <= j < comp@.len() ==> #[trigger] comp@[j] < n,
            forall|x: int| 0 <= x < n ==> (#[trigger] r@[x] <==> comp@.take(i as int).contains(x as usize)),
        decreases comp@.len() - i,
    {
        let x = comp[i];
        r.set(x, true);
        proof {
            assert forall|y: int| 0 <= y < n implies (#[trigger] r@[y] <==> comp@.take(i + 1).contains(y as usize)) by {
                if comp@.take(i + 1).contains(y as usize) && y != x {
                    let j = choose|j: int| 0 <= j < i + 1 && #[trigger] comp@.take(i + 1)[j] == y as usize;
                    assert(comp@.take(i as int)[j] == y as usize);
                }
                if comp@.take(i as int).contains(y as usize) {
                    let j = choose|j: int| 0 <= j < i && #[trigger] comp@.take(i as int)[j] == y as usize;
                    assert(comp@.take(i + 1)[j] == y as usize);
                }
                if y == x {
                    assert(comp@.take(i + 1)[i as int] == x);
                }
            }
        }
        i = i + 1;
    }
    proof {
        assert(comp@.take(comp@.len() as int) == comp@);
    }
    r
}

} // verus!
