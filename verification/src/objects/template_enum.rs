use vstd::prelude::*;
use itertools::Itertools;
use crate::objects::components::{joined, edge_joins, connected, walk_from_to, are_components, in_some,
    lists_of, scc_components};
use crate::objects::graph::Graph;
use crate::objects::graph_template::{GraphTemplate, GraphTemplateVertex, GraphTemplateLimits};
use crate::objects::cyclic_order::{index_permutations, itertools_permutations, is_permutation};
use crate::collections::set::{CombSet, with_unit};
use crate::collections::comb_map::model_insert_all;

verus! {

/// The `k`-element combinations of `0..n` in the order in which itertools' `combinations`
/// gives them.
pub uninterp spec fn itertools_combinations(n: nat, k: nat) -> Seq<Seq<usize>>;

/// `(0..n).combinations(k)` of itertools, collected: as its documentation says, the
/// `k`-element combinations of the range, each keeping the order of the range (so its
/// elements increase); their order is itertools' and is only named here.
#[verifier::external_body]
fn index_combinations(n: usize, k: usize) -> (r: Vec<Vec<usize>>)
    ensures
        lists_of(r@) == itertools_combinations(n as nat, k as nat),
        forall|c: int| 0 <= c < r@.len() ==> (#[trigger] r@[c])@.len() == k
            && (forall|i: int| 0 <= i < k ==> #[trigger] r@[c]@[i] < n)
            && forall|i: int, j: int| 0 <= i < j < k ==> #[trigger] r@[c]@[i] < #[trigger] r@[c]@[j],
{
    (0..n).combinations(k).collect()
}

/// No edge joins two of the vertices of `c`, taken in pairs of different positions.
pub open spec fn no_group_edges(edges: Seq<(usize, usize)>, c: Seq<usize>) -> bool {
    forall|i: int, j: int| 0 <= i < j < c.len() ==> !joined(edges, #[trigger] c[i] as int, #[trigger] c[j] as int)
}

/// The edges that do not touch `v`, in order.
pub open spec fn edges_without(edges: Seq<(usize, usize)>, v: int) -> Seq<(usize, usize)>
    decreases edges.len(),
{
    if edges.len() == 0 {
        Seq::empty()
    } else {
        let e = edges.last();
        edges_without(edges.drop_last(), v) + if e.0 != v && e.1 != v { seq![e] } else { Seq::empty() }
    }
}

proof fn lemma_edges_without(edges: Seq<(usize, usize)>, v: int, n: nat)
    requires
        forall|k: int| 0 <= k < edges.len() ==> (#[trigger] edges[k]).0 < n && edges[k].1 < n,
    ensures
        edges_without(edges, v).len() <= edges.len(),
        forall|k: int| 0 <= k < edges_without(edges, v).len() ==> (#[trigger] edges_without(edges, v)[k]).0 != v
            && edges_without(edges, v)[k].1 != v && edges_without(edges, v)[k].0 < n && edges_without(edges, v)[k].1 < n,
    decreases edges.len(),
{
    if edges.len() > 0 {
        let rest = edges.drop_last();
        lemma_edges_without(rest, v, n);
        let r = edges_without(edges, v);
        let rr = edges_without(rest, v);
        assert forall|k: int| 0 <= k < r.len() implies (#[trigger] r[k]).0 != v && r[k].1 != v && r[k].0 < n && r[k].1 < n by {
            if k < rr.len() {
                assert(r[k] == rr[k]);
            }
        }
    }
}

/// Vertex `x` is connected along `edges` to a vertex of `c`.
pub open spec fn reaches(edges: Seq<(usize, usize)>, c: Seq<usize>, x: int) -> bool {
    exists|u: int| #[trigger] c.contains(u as usize) && connected(edges, x, u)
}

/// Every vertex below `n` other than `skip` is connected along `edges` to a vertex of `c`.
pub open spec fn covered(n: nat, edges: Seq<(usize, usize)>, c: Seq<usize>, skip: int) -> bool {
    forall|x: int| 0 <= x < n && x != skip ==> #[trigger] reaches(edges, c, x)
}

/// A walk from `v` along edges that do not touch `v` stays at `v`.
proof fn lemma_isolated(edges: Seq<(usize, usize)>, v: int, y: int)
    requires
        forall|k: int| 0 <= k < edges.len() ==> (#[trigger] edges[k]).0 != v && edges[k].1 != v,
        connected(edges, v, y),
    ensures
        y == v,
{
    let p = choose|p: Seq<usize>| #[trigger] walk_from_to(edges, p, v, y);
    if p.len() > 1 {
        let i = 0int;
        assert(joined(edges, p[i] as int, p[i + 1] as int));
        let k = choose|k: int| 0 <= k < edges.len() && #[trigger] edge_joins(edges[k], p[i] as int, p[i + 1] as int);
        assert(edges[k].0 != v && edges[k].1 != v);
    }
}

/// Component `d` holds `skip`, when `skip` is a vertex.
pub open spec fn holds_skip(comps: Seq<Seq<usize>>, d: int, skip: int) -> bool {
    skip >= 0 && comps[d].contains(skip as usize)
}

/// Component `d` holds a vertex of `c`.
pub open spec fn holds_group(comps: Seq<Seq<usize>>, d: int, c: Seq<usize>) -> bool {
    exists|i: int| 0 <= i < comps[d].len() && c.contains(#[trigger] comps[d][i])
}

/// With the components of the graph at hand, coverage is that every component holds a vertex
/// of `c`, or is the component of `skip`, which no edge touches.
proof fn lemma_cover_by_components(n: nat, edges: Seq<(usize, usize)>, comps: Seq<Seq<usize>>, c: Seq<usize>, skip: int)
    requires
        are_components(n, edges, comps),
        n <= usize::MAX,
        skip < n,
        skip < 0 || forall|k: int| 0 <= k < edges.len() ==> (#[trigger] edges[k]).0 != skip && edges[k].1 != skip,
        forall|i: int| 0 <= i < c.len() ==> #[trigger] c[i] < n,
    ensures
        covered(n, edges, c, skip) <==> forall|d: int| 0 <= d < comps.len() ==>
            #[trigger] holds_skip(comps, d, skip) || holds_group(comps, d, c),
{
    if covered(n, edges, c, skip) {
        assert forall|d: int| 0 <= d < comps.len() implies #[trigger] holds_skip(comps, d, skip) || holds_group(comps, d, c) by {
            if !holds_skip(comps, d, skip) {
                assert(comps[d].len() > 0);
                let x = comps[d][0] as int;
                assert(x < n);
                if x == skip {
                    assert(comps[d][0] == skip as usize);
                    assert(holds_skip(comps, d, skip));
                }
                assert(reaches(edges, c, x));
                let u = choose|u: int| #[trigger] c.contains(u as usize) && connected(edges, x, u);
                let iu = choose|iu: int| 0 <= iu < c.len() && c[iu] == u as usize;
                let ub = u as usize;
                assert(u >= 0) by {
                    let p = choose|p: Seq<usize>| #[trigger] walk_from_to(edges, p, x, u);
                    assert(p[p.len() - 1] as int == u);
                }
                assert(c[iu] < n);
                assert(in_some(comps, u));
                let e = choose|e: int| 0 <= e < comps.len() && #[trigger] comps[e].contains(u as usize);
                let ju = choose|ju: int| 0 <= ju < comps[e].len() && comps[e][ju] == u as usize;
                if e != d {
                    assert(!connected(edges, comps[d][0] as int, comps[e][ju] as int));
                }
                assert(c.contains(comps[d][ju]));
                assert(holds_group(comps, d, c));
            }
        }
    }
    if forall|d: int| 0 <= d < comps.len() ==> #[trigger] holds_skip(comps, d, skip) || holds_group(comps, d, c) {
        assert forall|x: int| 0 <= x < n && x != skip implies #[trigger] reaches(edges, c, x) by {
            assert(in_some(comps, x));
            let d = choose|d: int| 0 <= d < comps.len() && #[trigger] comps[d].contains(x as usize);
            let ix = choose|ix: int| 0 <= ix < comps[d].len() && comps[d][ix] == x as usize;
            if holds_skip(comps, d, skip) {
                let is = choose|is: int| 0 <= is < comps[d].len() && comps[d][is] == skip as usize;
                assert(connected(edges, comps[d][is] as int, comps[d][ix] as int));
                lemma_isolated(edges, skip, x);
            } else {
                assert(holds_group(comps, d, c));
                let i = choose|i: int| 0 <= i < comps[d].len() && c.contains(#[trigger] comps[d][i]);
                assert(connected(edges, comps[d][ix] as int, comps[d][i] as int));
                let u = comps[d][i] as int;
                assert(c.contains(u as usize) && connected(edges, x, u));
            }
        }
    }
}

/// The vertices `c` may stand for groups in `g`: no edge joins two of them; if the limits ask
/// for no free components, every vertex is connected to one of them; and if they ask for no
/// vertex multiplication, that stays so when any other vertex is removed.
pub open spec fn accepted(g: Graph<()>, limits: GraphTemplateLimits, c: Seq<usize>) -> bool {
    let n = g.nv();
    let es = g.edge_list();
    &&& no_group_edges(es, c)
    &&& limits.no_free_components ==> covered(n, es, c, -1)
    &&& limits.no_vertex_multiplication ==> forall|v: int| 0 <= v < n && !c.contains(v as usize)
        ==> #[trigger] covered(n, edges_without(es, v), c, v)
}

/// The edges that do not touch `v`.
fn edge_list_without(edges: &Vec<(usize, usize)>, v: usize) -> (r: Vec<(usize, usize)>)
    ensures
        r@ == edges_without(edges@, v as int),
{
    let mut r: Vec<(usize, usize)> = Vec::new();
    let mut k: usize = 0;
    while k < edges.len()
        invariant
            k <= edges@.len(),
            r@ == edges_without(edges@.take(k as int), v as int),
        decreases edges@.len() - k,
    {
        let e = edges[k];
        proof {
            assert(edges@.take(k + 1).drop_last() =~= edges@.take(k as int));
            assert(edges@.take(k + 1).last() == e);
        }
        if e.0 != v && e.1 != v {
            r.push(e);
        }
        k = k + 1;
        proof {
            let t = edges@.take(k as int);
            if e.0 != v && e.1 != v {
                assert(r@ =~= edges_without(t.drop_last(), v as int) + seq![e]);
            } else {
                assert(r@ =~= edges_without(t.drop_last(), v as int) + Seq::<(usize, usize)>::empty());
            }
        }
    }
    proof {
        assert(edges@.take(k as int) =~= edges@);
    }
    r
}

/// `x` occurs in `v`.
fn list_contains(v: &Vec<usize>, x: usize) -> (r: bool)
    ensures
        r == v@.contains(x),
{
    let mut i: usize = 0;
    while i < v.len()
        invariant
            i <= v@.len(),
            forall|j: int| 0 <= j < i ==> v@[j] != x,
        decreases v@.len() - i,
    {
        if v[i] == x {
            return true;
        }
        i = i + 1;
    }
    false
}

/// The vertex to skip, or -1.
pub open spec fn skip_of(skip: Option<usize>) -> int {
    match skip {
        Some(v) => v as int,
        None => -1,
    }
}

/// Every component holds `skip` or a vertex of `c`.
fn components_ok(comps: &Vec<Vec<usize>>, c: &Vec<usize>, skip: Option<usize>) -> (r: bool)
    ensures
        r == forall|d: int| 0 <= d < comps@.len() ==>
            #[trigger] holds_skip(lists_of(comps@), d, skip_of(skip))
            || holds_group(lists_of(comps@), d, c@),
{
    let ghost cs = lists_of(comps@);
    let ghost sk = skip_of(skip);
    let mut d: usize = 0;
    while d < comps.len()
        invariant
            d <= comps@.len(),
            cs == lists_of(comps@),
            sk == skip_of(skip),
            forall|e: int| 0 <= e < d ==> #[trigger] holds_skip(cs, e, sk) || holds_group(cs, e, c@),
        decreases comps@.len() - d,
    {
        let comp = &comps[d];
        proof {
            assert(cs[d as int] == comp@);
        }
        let has_skip = match skip {
            Some(v) => list_contains(comp, v),
            None => false,
        };
        if !has_skip {
            let mut i: usize = 0;
            let mut found = false;
            while i < comp.len() && !found
                invariant
                    i <= comp@.len(),
                    cs[d as int] == comp@,
                    d < cs.len(),
                    found ==> holds_group(cs, d as int, c@),
                    !found ==> forall|j: int| 0 <= j < i ==> !c@.contains(#[trigger] comp@[j]),
                decreases comp@.len() - i,
            {
                if list_contains(c, comp[i]) {
                    found = true;
                    proof {
                        assert(c@.contains(cs[d as int][i as int]));
                    }
                }
                i = i + 1;
            }
            if !found {
                proof {
                    assert(!holds_skip(cs, d as int, sk));
                    assert(!holds_group(cs, d as int, c@)) by {
                        if holds_group(cs, d as int, c@) {
                            let j = choose|j: int| 0 <= j < cs[d as int].len() && c@.contains(#[trigger] cs[d as int][j]);
                            assert(c@.contains(comp@[j]));
                        }
                    }
                }
                return false;
            }
        }
        d = d + 1;
    }
    true
}

/// Whether `c` may stand for groups in `g`, as `accepted` says.
fn accepts(g: &Graph<()>, limits: GraphTemplateLimits, c: &Vec<usize>) -> (r: bool)
    requires
        g.wf(),
        g.nv() <= usize::MAX,
        forall|i: int| 0 <= i < c@.len() ==> #[trigger] c@[i] < g.nv(),
    ensures
        r == accepted(*g, limits, c@),
{
    let n = g.num_verts();
    let edges = g.edges();
    let k = c.len();
    let mut i: usize = 0;
    while i < k
        invariant
            i <= k,
            k == c@.len(),
            edges@ == g.edge_list(),
            forall|a: int, b: int| 0 <= a < i && a < b < k ==> !joined(edges@, #[trigger] c@[a] as int, #[trigger] c@[b] as int),
        decreases k - i,
    {
        let mut j: usize = i + 1;
        while j < k
            invariant
                i < k,
                i + 1 <= j <= k,
                k == c@.len(),
                edges@ == g.edge_list(),
                forall|a: int, b: int| 0 <= a < i && a < b < k ==> !joined(edges@, #[trigger] c@[a] as int, #[trigger] c@[b] as int),
                forall|b: int| i < b < j ==> !joined(edges@, c@[i as int] as int, #[trigger] c@[b] as int),
            decreases k - j,
        {
            if g.has_edge(c[i], c[j]) {
                proof {
                    assert(!no_group_edges(edges@, c@)) by {
                        assert(joined(edges@, c@[i as int] as int, c@[j as int] as int));
                    }
                }
                return false;
            }
            j = j + 1;
        }
        i = i + 1;
    }
    proof {
        assert(no_group_edges(edges@, c@));
    }
    if limits.no_free_components {
        let comps = scc_components(n, &edges);
        proof {
            lemma_cover_by_components(n as nat, edges@, lists_of(comps@), c@, -1);
            assert(skip_of(None) == -1);
        }
        if !components_ok(&comps, c, None) {
            return false;
        }
    }
    proof {
        assert(limits.no_free_components ==> covered(n as nat, edges@, c@, -1));
    }
    if limits.no_vertex_multiplication {
        let mut v: usize = 0;
        while v < n
            invariant
                v <= n,
                n == g.nv(),
                g.wf(),
                edges@ == g.edge_list(),
                forall|i: int| 0 <= i < c@.len() ==> #[trigger] c@[i] < n,
                forall|x: int| 0 <= x < v && !c@.contains(x as usize) ==> #[trigger] covered(n as nat, edges_without(edges@, x), c@, x),
                no_group_edges(edges@, c@),
                limits.no_free_components ==> covered(n as nat, edges@, c@, -1),
                limits.no_vertex_multiplication,
            decreases n - v,
        {
            if !list_contains(c, v) {
                let ew = edge_list_without(&edges, v);
                proof {
                    lemma_edges_without(edges@, v as int, n as nat);
                }
                let comps = scc_components(n, &ew);
                proof {
                    lemma_cover_by_components(n as nat, ew@, lists_of(comps@), c@, v as int);
                }
                let ok = components_ok(&comps, c, Some(v));
                proof {
                    assert(skip_of(Some(v)) == v as int);
                }
                if !ok {
                    proof {
                        assert(!covered(n as nat, edges_without(edges@, v as int), c@, v as int));
                        assert(!accepted(*g, limits, c@));
                    }
                    return false;
                }
                proof {
                    assert(covered(n as nat, edges_without(edges@, v as int), c@, v as int));
                }
            }
            v = v + 1;
        }
    }
    true
}

/// The vertex types that give group `i` to the `i`-th vertex of `order` (its number cut to a
/// byte) and leave the other vertices below `n` free.
pub open spec fn group_mapping(n: nat, order: Seq<usize>) -> Seq<GraphTemplateVertex>
    decreases order.len(),
{
    if order.len() == 0 {
        Seq::new(n, |i: int| GraphTemplateVertex::Free)
    } else {
        group_mapping(n, order.drop_last()).update(order.last() as int, GraphTemplateVertex::Group((order.len() - 1) as u8))
    }
}

/// The vertices of `c` in the order that the positions `p` give.
pub open spec fn arranged_by(c: Seq<usize>, p: Seq<usize>) -> Seq<usize> {
    p.map_values(|i: usize| c[i as int])
}

/// The orders of the group vertices, combination after combination: for each accepted
/// combination, its arrangements by the permutations `perms` when `permute` is set, else the
/// combination itself.
pub open spec fn orders_of(combos: Seq<Seq<usize>>, ok: Seq<bool>, perms: Seq<Seq<usize>>, permute: bool) -> Seq<Seq<usize>>
    decreases combos.len(),
{
    if combos.len() == 0 {
        Seq::empty()
    } else {
        let k = combos.len() - 1;
        let c = combos[k];
        orders_of(combos.drop_last(), ok, perms, permute) + if ok[k] {
            if permute {
                perms.map_values(|p: Seq<usize>| arranged_by(c, p))
            } else {
                seq![c]
            }
        } else {
            Seq::empty()
        }
    }
}

/// The orders of the group vertices of the templates of `g`: the combinations of
/// `limits.n_groups` vertices in itertools' order, those that `accepted` admits, each in the
/// orders of itertools' permutations or as it is.
pub open spec fn template_orders(g: Graph<()>, limits: GraphTemplateLimits) -> Seq<Seq<usize>> {
    let combos = itertools_combinations(g.nv(), limits.n_groups as nat);
    orders_of(
        combos,
        Seq::new(combos.len(), |j: int| accepted(g, limits, combos[j])),
        itertools_permutations(0, limits.n_groups as nat),
        limits.permute,
    )
}

/// `ts` are the templates that the orders make of `g`: its vertices and edges, with the vertex
/// types of `group_mapping`.
pub open spec fn templates_for(g: Graph<()>, orders: Seq<Seq<usize>>, ts: Seq<Graph<GraphTemplateVertex>>) -> bool {
    &&& ts.len() == orders.len()
    &&& forall|k: int| 0 <= k < ts.len() ==> (#[trigger] ts[k]).wf() && ts[k].weights() == group_mapping(g.nv(), orders[k])
        && ts[k].edge_list() == g.edge_list()
}

/// The template of `g` whose group vertices are those of `order`, in that order.
fn template_for(g: &Graph<()>, order: &Vec<usize>) -> (t: GraphTemplate)
    requires
        g.wf(),
        forall|i: int| 0 <= i < order@.len() ==> #[trigger] order@[i] < g.nv(),
    ensures
        t.wf(),
        t.weights() == group_mapping(g.nv(), order@),
        t.edge_list() == g.edge_list(),
{
    let n = g.num_verts();
    let mut mapping: Vec<GraphTemplateVertex> = Vec::new();
    let mut v: usize = 0;
    while v < n
        invariant
            v <= n,
            mapping@ == Seq::new(v as nat, |i: int| GraphTemplateVertex::Free),
        decreases n - v,
    {
        mapping.push(GraphTemplateVertex::Free);
        v = v + 1;
        proof {
            assert(mapping@ =~= Seq::new(v as nat, |i: int| GraphTemplateVertex::Free));
        }
    }
    proof {
        assert(order@.take(0) =~= Seq::<usize>::empty());
    }
    let mut i: usize = 0;
    while i < order.len()
        invariant
            i <= order@.len(),
            n == g.nv(),
            mapping@.len() == n,
            forall|j: int| 0 <= j < order@.len() ==> #[trigger] order@[j] < n,
            mapping@ == group_mapping(n as nat, order@.take(i as int)),
        decreases order@.len() - i,
    {
        proof {
            assert(order@.take(i + 1).drop_last() =~= order@.take(i as int));
            assert(order@.take(i + 1).last() == order@[i as int]);
        }
        mapping.set(order[i], GraphTemplateVertex::Group(i as u8));
        i = i + 1;
    }
    proof {
        assert(order@.take(i as int) =~= order@);
    }
    let t = GraphTemplate::from_mapping(g.duplicate(), mapping.as_slice());
    proof {
        assert(t.weights() =~= mapping@);
    }
    t
}

/// The vertices of `c` in the order that the positions `p` give.
fn arrange(c: &Vec<usize>, p: &Vec<usize>) -> (r: Vec<usize>)
    requires
        forall|i: int| 0 <= i < p@.len() ==> #[trigger] p@[i] < c@.len(),
    ensures
        r@ == arranged_by(c@, p@),
{
    let mut r: Vec<usize> = Vec::new();
    let mut i: usize = 0;
    while i < p.len()
        invariant
            i <= p@.len(),
            forall|j: int| 0 <= j < p@.len() ==> #[trigger] p@[j] < c@.len(),
            r@ == arranged_by(c@, p@.take(i as int)),
        decreases p@.len() - i,
    {
        r.push(c[p[i]]);
        i = i + 1;
        proof {
            assert(r@ =~= arranged_by(c@, p@.take(i as int)));
        }
    }
    proof {
        assert(p@.take(i as int) =~= p@);
    }
    r
}

impl Graph<GraphTemplateVertex> {
    /// The templates that `g`, a graph of `limits.n_vertices` vertices, gives: for every
    /// combination of `limits.n_groups` vertices that `accepted` admits, the template with those
    /// vertices as groups, in every order if `limits.permute` is set; collected in a set, so
    /// that isomorphic templates count once.
    pub fn templates_of(g: &Graph<()>, limits: GraphTemplateLimits) -> (r: CombSet<GraphTemplate>)
        requires
            g.wf(),
            g.nv() == limits.n_vertices,
        ensures
            r.wf(),
            exists|ts: Seq<Graph<GraphTemplateVertex>>| #[trigger] templates_for(*g, template_orders(*g, limits), ts)
                && r.inner()@ == model_insert_all(Map::empty(), with_unit(ts)),
    {
        let n = g.num_verts();
        let k = limits.n_groups;
        let combos = index_combinations(n, k);
        let perms = if limits.permute {
            index_permutations(0, k)
        } else {
            Vec::new()
        };
        let ghost cs = lists_of(combos@);
        let ghost ok = Seq::new(cs.len(), |j: int| accepted(*g, limits, cs[j]));
        let ghost ps = itertools_permutations(0, k as nat);
        let mut ts: Vec<GraphTemplate> = Vec::new();
        let mut ci: usize = 0;
        while ci < combos.len()
            invariant
                g.wf(),
                n == g.nv(),
                k == limits.n_groups,
                ci <= combos@.len(),
                cs == lists_of(combos@),
                cs == itertools_combinations(n as nat, k as nat),
                ok == Seq::new(cs.len(), |j: int| accepted(*g, limits, cs[j])),
                ps == itertools_permutations(0, k as nat),
                limits.permute ==> perms@.map_values(|v: Vec<usize>| v@) == ps,
                limits.permute ==> forall|q: int| 0 <= q < perms@.len() ==> is_permutation(#[trigger] perms@[q]@, 0, k as int),
                forall|c: int| 0 <= c < combos@.len() ==> (#[trigger] combos@[c])@.len() == k
                    && (forall|i: int| 0 <= i < k ==> #[trigger] combos@[c]@[i] < n),
                templates_for(*g, orders_of(cs.take(ci as int), ok, ps, limits.permute), ts@),
            decreases combos@.len() - ci,
        {
            let c = &combos[ci];
            let ghost before = orders_of(cs.take(ci as int), ok, ps, limits.permute);
            proof {
                assert(cs[ci as int] == c@);
                assert(cs.take(ci + 1).drop_last() =~= cs.take(ci as int));
                assert(cs.take(ci + 1)[ci as int] == c@);
                assert forall|i: int| 0 <= i < c@.len() implies #[trigger] c@[i] < g.nv() by {
                    assert(combos@[ci as int]@[i] < n);
                }
            }
            let ghost ts0 = ts@;
            if accepts(g, limits, c) {
                proof {
                    assert(ok[ci as int]);
                }
                if limits.permute {
                    let ghost arr = |p: Seq<usize>| arranged_by(c@, p);
                    let mut pi: usize = 0;
                    while pi < perms.len()
                        invariant
                            g.wf(),
                            n == g.nv(),
                            pi <= perms@.len(),
                            perms@.map_values(|v: Vec<usize>| v@) == ps,
                            forall|q: int| 0 <= q < perms@.len() ==> is_permutation(#[trigger] perms@[q]@, 0, k as int),
                            c@.len() == k,
                            forall|i: int| 0 <= i < c@.len() ==> #[trigger] c@[i] < g.nv(),
                            arr == (|p: Seq<usize>| arranged_by(c@, p)),
                            templates_for(*g, before + ps.take(pi as int).map_values(arr), ts@),
                        decreases perms@.len() - pi,
                    {
                        let p = &perms[pi];
                        proof {
                            assert(is_permutation(p@, 0, k as int));
                            assert(ps[pi as int] == p@);
                        }
                        let order = arrange(c, p);
                        proof {
                            assert forall|i: int| 0 <= i < order@.len() implies #[trigger] order@[i] < g.nv() by {
                                assert(order@[i] == c@[p@[i] as int]);
                            }
                        }
                        let t = template_for(g, &order);
                        let ghost tsb = ts@;
                        ts.push(t);
                        proof {
                            let o = before + ps.take(pi + 1).map_values(arr);
                            assert(o =~= (before + ps.take(pi as int).map_values(arr)).push(arr(ps[pi as int])));
                            assert(arr(ps[pi as int]) == order@);
                            assert forall|q: int| 0 <= q < ts@.len() implies (#[trigger] ts@[q]).wf()
                                && ts@[q].weights() == group_mapping(g.nv(), o[q]) && ts@[q].edge_list() == g.edge_list() by {
                                if q < tsb.len() {
                                    assert(ts@[q] == tsb[q]);
                                }
                            }
                        }
                        pi = pi + 1;
                    }
                    proof {
                        assert(ps.take(pi as int) =~= ps) by {
                            assert(perms@.map_values(|v: Vec<usize>| v@).len() == perms@.len());
                        }
                        assert(orders_of(cs.take(ci + 1), ok, ps, limits.permute) =~= before + ps.map_values(arr));
                    }
                } else {
                    let t = template_for(g, c);
                    let ghost tsb = ts@;
                    ts.push(t);
                    proof {
                        let o = orders_of(cs.take(ci + 1), ok, ps, limits.permute);
                        assert(o =~= before.push(c@));
                        assert forall|q: int| 0 <= q < ts@.len() implies (#[trigger] ts@[q]).wf()
                            && ts@[q].weights() == group_mapping(g.nv(), o[q]) && ts@[q].edge_list() == g.edge_list() by {
                            if q < tsb.len() {
                                assert(ts@[q] == tsb[q]);
                            }
                        }
                    }
                }
            } else {
                proof {
                    assert(!ok[ci as int]);
                    assert(orders_of(cs.take(ci + 1), ok, ps, limits.permute) =~= before);
                }
            }
            ci = ci + 1;
        }
        proof {
            assert(cs.take(ci as int) =~= cs) by {
                assert(lists_of(combos@).len() == combos@.len());
            }
        }
        let ghost tseq = ts@;
        let mut set = CombSet::new();
        set.extend(ts);
        proof {
            assert(templates_for(*g, template_orders(*g, limits), tseq));
        }
        set
    }
}

/// Vertex `x` reaches a vertex of `c` along `edges` by a walk that never visits `v`.
pub open spec fn reaches_avoiding(edges: Seq<(usize, usize)>, c: Seq<usize>, v: int, x: int) -> bool {
    exists|u: usize, p: Seq<usize>| c.contains(u) && #[trigger] walk_from_to(edges, p, x, u as int)
        && forall|i: int| 0 <= i < p.len() ==> p[i] as int != v
}

/// Some walk along `edges` leads from `x` to a vertex of `c`.
pub open spec fn joined_to_group(edges: Seq<(usize, usize)>, c: Seq<usize>, x: int) -> bool {
    exists|u: usize, p: Seq<usize>| c.contains(u) && #[trigger] walk_from_to(edges, p, x, u as int)
}

/// The edges without `v` are edges of the graph.
proof fn lemma_edges_without_sub(edges: Seq<(usize, usize)>, v: int)
    ensures
        forall|k: int| 0 <= k < edges_without(edges, v).len() ==> edges.contains(#[trigger] edges_without(edges, v)[k]),
    decreases edges.len(),
{
    if edges.len() > 0 {
        let rest = edges.drop_last();
        lemma_edges_without_sub(rest, v);
        let r = edges_without(edges, v);
        let rr = edges_without(rest, v);
        assert forall|k: int| 0 <= k < r.len() implies edges.contains(#[trigger] r[k]) by {
            if k < rr.len() {
                assert(r[k] == rr[k]);
                let m = choose|m: int| 0 <= m < rest.len() && rest[m] == rr[k];
                assert(edges[m] == rest[m]);
            } else {
                assert(r[k] == edges.last());
                assert(edges[edges.len() - 1] == edges.last());
            }
        }
    }
}

/// An edge that does not touch `v` is kept among the edges without `v`.
proof fn lemma_in_edges_without(edges: Seq<(usize, usize)>, v: int, m: int)
    requires
        0 <= m < edges.len(),
        edges[m].0 != v,
        edges[m].1 != v,
    ensures
        edges_without(edges, v).contains(edges[m]),
    decreases edges.len(),
{
    let rest = edges.drop_last();
    let r = edges_without(edges, v);
    let rr = edges_without(rest, v);
    if m == edges.len() - 1 {
        assert(r[r.len() - 1] == edges[m]);
    } else {
        assert(rest[m] == edges[m]);
        lemma_in_edges_without(rest, v, m);
        let k = choose|k: int| 0 <= k < rr.len() && rr[k] == edges[m];
        assert(r[k] == rr[k]);
    }
}

/// What `accepts` decides, in terms of walks in `g` alone: `c` is accepted exactly when no
/// edge joins two vertices of `c`; when free components are excluded, every vertex reaches a
/// vertex of `c`; and when vertex multiplication is excluded, for every vertex `v` outside
/// `c`, every other vertex reaches a vertex of `c` by a walk that never passes `v`. Nothing
/// here depends on how the vertices are numbered.
pub proof fn law_accepted_groups_reachable(g: Graph<()>, limits: GraphTemplateLimits, c: Seq<usize>)
    requires
        g.wf(),
    ensures
        accepted(g, limits, c) <==> {
            &&& forall|i: int, j: int| 0 <= i < j < c.len() ==> !joined(g.edge_list(), #[trigger] c[i] as int, #[trigger] c[j] as int)
            &&& limits.no_free_components ==> forall|x: int| 0 <= x < g.nv() ==> #[trigger] joined_to_group(g.edge_list(), c, x)
            &&& limits.no_vertex_multiplication ==> forall|v: int, x: int| 0 <= v < g.nv() && !c.contains(v as usize)
                && 0 <= x < g.nv() && x != v ==> #[trigger] reaches_avoiding(g.edge_list(), c, v, x)
        },
{
    let n = g.nv();
    let es = g.edge_list();
    let side_c = limits.no_vertex_multiplication ==> forall|v: int, x: int| 0 <= v < n && !c.contains(v as usize)
        && 0 <= x < n && x != v ==> #[trigger] reaches_avoiding(es, c, v, x);
    let side_b = limits.no_free_components ==> forall|x: int| 0 <= x < n ==> #[trigger] joined_to_group(es, c, x);
    if accepted(g, limits, c) {
        if limits.no_vertex_multiplication {
            assert forall|v: int, x: int| 0 <= v < n && !c.contains(v as usize) && 0 <= x < n && x != v
                implies #[trigger] reaches_avoiding(es, c, v, x) by {
                let ew = edges_without(es, v);
                assert(covered(n, ew, c, v));
                assert(reaches(ew, c, x));
                let u = choose|u: int| #[trigger] c.contains(u as usize) && connected(ew, x, u);
                let p = choose|p: Seq<usize>| #[trigger] walk_from_to(ew, p, x, u);
                lemma_edges_without(es, v, n);
                lemma_edges_without_sub(es, v);
                assert forall|i: int| 0 <= i < p.len() - 1 implies #[trigger] joined(es, p[i] as int, p[i + 1] as int) by {
                    assert(joined(ew, p[i] as int, p[i + 1] as int));
                    let k = choose|k: int| 0 <= k < ew.len() && #[trigger] edge_joins(ew[k], p[i] as int, p[i + 1] as int);
                    assert(es.contains(ew[k]));
                    let m = choose|m: int| 0 <= m < es.len() && es[m] == ew[k];
                    assert(edge_joins(es[m], p[i] as int, p[i + 1] as int));
                }
                assert forall|i: int| 0 <= i < p.len() implies p[i] as int != v by {
                    if i > 0 {
                        let i0 = i - 1;
                        assert(joined(ew, p[i0] as int, p[i0 + 1] as int));
                        let k = choose|k: int| 0 <= k < ew.len() && #[trigger] edge_joins(ew[k], p[i0] as int, p[i0 + 1] as int);
                        assert(ew[k].0 != v && ew[k].1 != v);
                    }
                }
                assert(u == p[p.len() - 1] as int);
                let uu = u as usize;
                assert(uu as int == u);
                assert(walk_from_to(es, p, x, uu as int));
            }
        }
        if limits.no_free_components {
            assert forall|x: int| 0 <= x < n implies #[trigger] joined_to_group(es, c, x) by {
                assert(covered(n, es, c, -1));
                assert(reaches(es, c, x));
                let u = choose|u: int| #[trigger] c.contains(u as usize) && connected(es, x, u);
                let p = choose|p: Seq<usize>| #[trigger] walk_from_to(es, p, x, u);
                assert(u == p[p.len() - 1] as int);
                let uu = u as usize;
                assert(walk_from_to(es, p, x, uu as int));
            }
        }
        assert(side_b && side_c);
    }
    if no_group_edges(es, c) && side_b && side_c {
        if limits.no_free_components {
            assert forall|x: int| 0 <= x < n && x != -1 implies #[trigger] reaches(es, c, x) by {
                assert(joined_to_group(es, c, x));
                let (u, p) = choose|u: usize, p: Seq<usize>| c.contains(u) && #[trigger] walk_from_to(es, p, x, u as int);
                assert(c.contains((u as int) as usize));
                assert(connected(es, x, u as int));
            }
            assert(covered(n, es, c, -1));
        }
        if limits.no_vertex_multiplication {
            assert forall|v: int| 0 <= v < n && !c.contains(v as usize) implies #[trigger] covered(n, edges_without(es, v), c, v) by {
                let ew = edges_without(es, v);
                assert forall|x: int| 0 <= x < n && x != v implies #[trigger] reaches(ew, c, x) by {
                    assert(reaches_avoiding(es, c, v, x));
                    let (u, p) = choose|u: usize, p: Seq<usize>| c.contains(u) && #[trigger] walk_from_to(es, p, x, u as int)
                        && forall|i: int| 0 <= i < p.len() ==> p[i] as int != v;
                    assert forall|i: int| 0 <= i < p.len() - 1 implies #[trigger] joined(ew, p[i] as int, p[i + 1] as int) by {
                        assert(joined(es, p[i] as int, p[i + 1] as int));
                        let m = choose|m: int| 0 <= m < es.len() && #[trigger] edge_joins(es[m], p[i] as int, p[i + 1] as int);
                        assert(p[i] as int != v && p[i + 1] as int != v);
                        lemma_in_edges_without(es, v, m);
                        let k = choose|k: int| 0 <= k < ew.len() && ew[k] == es[m];
                        assert(edge_joins(ew[k], p[i] as int, p[i + 1] as int));
                    }
                    assert(walk_from_to(ew, p, x, u as int));
                    assert(c.contains((u as int) as usize));
                    assert(connected(ew, x, u as int));
                }
            }
        }
        assert(accepted(g, limits, c));
    }
}

} // verus!
