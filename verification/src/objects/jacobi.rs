use vstd::prelude::*;
use crate::objects::template_parse::{usize_parses, usize_value, parse_usize};
use crate::objects::graph::{Graph, neighbour_seq};
use crate::objects::components::{tarjan_components, lists_of, scc_components, are_components, connected, in_some};
use crate::objects::embedded_graph::{EmbGraph, built_half_edge, rows_of, each_edge_twice, same_shape};
use crate::objects::cyclic_order::{CyclicOrder, is_arrangement, rotation_of, is_permutation, arranged, factorial};

verus! {

broadcast use vstd::laws_eq::group_laws_eq;

/// An ASCII whitespace byte: space, tab, line feed, vertical tab, form feed or carriage return.
pub open spec fn is_space(c: u8) -> bool {
    c == 32 || (9 <= c && c <= 13)
}

fn is_space_byte(c: u8) -> (r: bool)
    ensures
        r == is_space(c),
{
    c == 32 || (9 <= c && c <= 13)
}

/// The words of `s`: its maximal runs of bytes that are not whitespace, in order.
pub open spec fn words(s: Seq<u8>) -> Seq<Seq<u8>>
    decreases s.len(),
{
    if s.len() == 0 {
        Seq::empty()
    } else {
        let w = words(s.drop_last());
        let c = s.last();
        if is_space(c) {
            w
        } else if s.len() >= 2 && !is_space(s[s.len() - 2]) {
            w.drop_last().push(w.last().push(c))
        } else {
            w.push(seq![c])
        }
    }
}

/// The values of the words that parse as `usize`, in order; the others are passed over.
pub open spec fn word_numbers(ws: Seq<Seq<u8>>) -> Seq<usize>
    decreases ws.len(),
{
    if ws.len() == 0 {
        Seq::empty()
    } else {
        let r = word_numbers(ws.drop_last());
        if usize_parses(ws.last()) { r.push(usize_value(ws.last())) } else { r }
    }
}

/// The numbers of `t` taken three at a time; an incomplete last group is dropped.
pub open spec fn triples(t: Seq<usize>) -> Seq<(usize, usize, usize)> {
    Seq::new(t.len() / 3, |k: int| (t[3 * k], t[3 * k + 1], t[3 * k + 2]))
}

/// A line that `multig -T` writes: the number of vertices, the number of edges, then for each
/// edge its two ends and its multiplicity. `None` where fewer than two numbers can be read.
pub open spec fn multig_record(line: Seq<u8>) -> Option<(usize, Seq<(usize, usize, usize)>)> {
    let d = word_numbers(words(line));
    if d.len() < 2 { None } else { Some((d[0], triples(d.skip(2)))) }
}

/// The values of the words of `s` that parse as `usize`.
pub fn line_numbers(s: &[u8]) -> (r: Vec<usize>)
    ensures
        r@ == word_numbers(words(s@)),
{
    let n = s.len();
    let mut nums: Vec<usize> = Vec::new();
    let mut start: usize = 0;
    let mut in_word = false;
    let mut i: usize = 0;
    while i < n
        invariant
            n == s@.len(),
            i <= n,
            in_word == (i > 0 && !is_space(s@[i - 1])),
            in_word ==> start < i && words(s@.take(i as int)).len() > 0
                && words(s@.take(i as int)).last() == s@.subrange(start as int, i as int)
                && nums@ == word_numbers(words(s@.take(i as int)).drop_last()),
            !in_word ==> nums@ == word_numbers(words(s@.take(i as int))),
        decreases n - i,
    {
        let c = s[i];
        let ghost w = words(s@.take(i as int));
        proof {
            assert(s@.take(i + 1).drop_last() =~= s@.take(i as int));
            assert(s@.take(i + 1).last() == c);
            if i > 0 {
                assert(s@.take(i + 1)[i - 1] == s@[i - 1]);
            }
        }
        if is_space_byte(c) {
            if in_word {
                let v = parse_usize(s, start, i);
                if let Some(x) = v {
                    nums.push(x);
                }
                proof {
                    assert(w.drop_last().push(w.last()) =~= w);
                }
            }
            in_word = false;
        } else {
            if !in_word {
                start = i;
                proof {
                    assert(words(s@.take(i + 1)) == w.push(seq![c]));
                    assert(words(s@.take(i + 1)).drop_last() =~= w);
                    assert(s@.subrange(i as int, i + 1) =~= seq![c]);
                }
            } else {
                proof {
                    assert(words(s@.take(i + 1)) == w.drop_last().push(w.last().push(c)));
                    assert(words(s@.take(i + 1)).drop_last() =~= w.drop_last());
                    assert(s@.subrange(start as int, i + 1) =~= s@.subrange(start as int, i as int).push(c));
                }
            }
            in_word = true;
        }
        i = i + 1;
    }
    proof {
        assert(s@.take(n as int) =~= s@);
    }
    if in_word {
        let ghost w = words(s@);
        let v = parse_usize(s, start, n);
        if let Some(x) = v {
            nums.push(x);
        }
        proof {
            assert(w.drop_last().push(w.last()) =~= w);
        }
    }
    nums
}

/// The record of a line that `multig -T` writes (see `multig_record`).
pub fn parse_multig_line(line: &[u8]) -> (r: Option<(usize, Vec<(usize, usize, usize)>)>)
    ensures
        r matches Some(x) ==> multig_record(line@) == Some((x.0, x.1@)),
        r is None <==> multig_record(line@) is None,
{
    let d = line_numbers(line);
    if d.len() < 2 {
        return None;
    }
    let ghost t = d@.skip(2);
    let mut out: Vec<(usize, usize, usize)> = Vec::new();
    let mut k: usize = 0;
    while d.len() - (3 * k + 2) >= 3
        invariant
            d@.len() >= 2,
            t == d@.skip(2),
            3 * k + 2 <= d@.len(),
            k <= t.len() / 3,
            out@ == triples(t).take(k as int),
            t.len() - 3 * k < 3 ==> k == t.len() / 3,
        decreases d@.len() - 3 * k,
    {
        let j = 3 * k + 2;
        out.push((d[j], d[j + 1], d[j + 2]));
        proof {
            assert(out@ =~= triples(t).take(k + 1));
        }
        k = k + 1;
    }
    proof {
        assert(triples(t).take(k as int) =~= triples(t));
    }
    Some((d[0], out))
}

/// The edges of the multigraph that the triples describe: each `(a, b, m)` in turn gives `m`
/// edges from `a` to `b`.
pub open spec fn expanded(t: Seq<(usize, usize, usize)>) -> Seq<(usize, usize)>
    decreases t.len(),
{
    if t.len() == 0 {
        Seq::empty()
    } else {
        let (a, b, m) = t.last();
        expanded(t.drop_last()) + Seq::new(m as nat, |i: int| (a, b))
    }
}

/// The edges of the multigraph that the triples describe (see `expanded`).
pub fn multig_edges(t: &Vec<(usize, usize, usize)>) -> (r: Vec<(usize, usize)>)
    ensures
        r@ == expanded(t@),
{
    let mut r: Vec<(usize, usize)> = Vec::new();
    let mut k: usize = 0;
    while k < t.len()
        invariant
            k <= t@.len(),
            r@ == expanded(t@.take(k as int)),
        decreases t@.len() - k,
    {
        let (a, b, m) = t[k];
        let ghost before = r@;
        let mut i: usize = 0;
        while i < m
            invariant
                i <= m,
                r@ == before + Seq::new(i as nat, |j: int| (a, b)),
            decreases m - i,
        {
            r.push((a, b));
            i = i + 1;
            proof {
                assert(r@ =~= before + Seq::new(i as nat, |j: int| (a, b)));
            }
        }
        proof {
            assert(t@.take(k + 1).drop_last() =~= t@.take(k as int));
            assert(t@.take(k + 1).last() == (a, b, m));
        }
        k = k + 1;
    }
    proof {
        assert(t@.take(k as int) =~= t@);
    }
    r
}

/// The number of edges at `v`, as `petgraph` counts its neighbours: a loop counts once.
pub open spec fn degree_in(edges: Seq<(usize, usize)>, v: int) -> nat {
    neighbour_seq(edges, v as usize).len()
}

/// Some vertex of `comp` has exactly one edge.
pub open spec fn has_leaf(edges: Seq<(usize, usize)>, comp: Seq<usize>) -> bool {
    exists|i: int| 0 <= i < comp.len() && #[trigger] degree_in(edges, comp[i] as int) == 1
}

/// The graph can carry a Jacobi diagram: every vertex has one or three edges, and every
/// connected component has a vertex with one edge.
pub open spec fn jacobi_skeleton(n: nat, edges: Seq<(usize, usize)>) -> bool {
    &&& forall|v: int| 0 <= v < n ==> #[trigger] degree_in(edges, v) == 1 || degree_in(edges, v) == 3
    &&& forall|c: int| 0 <= c < tarjan_components(n, edges).len() ==> #[trigger] has_leaf(edges, tarjan_components(n, edges)[c])
}

fn copy_edges(edges: &Vec<(usize, usize)>) -> (r: Vec<(usize, usize)>)
    ensures
        r@ == edges@,
{
    let mut r: Vec<(usize, usize)> = Vec::new();
    let mut k: usize = 0;
    while k < edges.len()
        invariant
            k <= edges@.len(),
            r@ == edges@.take(k as int),
        decreases edges@.len() - k,
    {
        r.push(edges[k]);
        k = k + 1;
        proof {
            assert(r@ =~= edges@.take(k as int));
        }
    }
    proof {
        assert(edges@.take(k as int) =~= edges@);
    }
    r
}

/// Vertex `v` is connected along `edges` to a vertex below `n` with exactly one edge.
pub open spec fn reaches_leaf(n: nat, edges: Seq<(usize, usize)>, v: int) -> bool {
    exists|w: int| 0 <= w < n && #[trigger] connected(edges, v, w) && degree_in(edges, w) == 1
}

/// What a Jacobi skeleton is, whatever order the components come in: a graph is one exactly
/// when every vertex has one or three edges and every vertex is connected to a vertex with
/// one edge.
pub proof fn law_jacobi_skeleton_leaves(n: nat, edges: Seq<(usize, usize)>)
    requires
        n <= usize::MAX,
        are_components(n, edges, tarjan_components(n, edges)),
    ensures
        jacobi_skeleton(n, edges) <==> (
            (forall|v: int| 0 <= v < n ==> #[trigger] degree_in(edges, v) == 1 || degree_in(edges, v) == 3)
            && forall|v: int| 0 <= v < n ==> #[trigger] reaches_leaf(n, edges, v)),
{
    let cs = tarjan_components(n, edges);
    if jacobi_skeleton(n, edges) {
        assert forall|v: int| 0 <= v < n implies #[trigger] reaches_leaf(n, edges, v) by {
            assert(in_some(cs, v));
            let c = choose|c: int| 0 <= c < cs.len() && #[trigger] cs[c].contains(v as usize);
            let i = choose|i: int| 0 <= i < cs[c].len() && cs[c][i] == v as usize;
            assert(has_leaf(edges, cs[c]));
            let i2 = choose|i2: int| 0 <= i2 < cs[c].len() && #[trigger] degree_in(edges, cs[c][i2] as int) == 1;
            assert(connected(edges, cs[c][i] as int, cs[c][i2] as int));
            assert(cs[c][i2] < n);
            let w = cs[c][i2] as int;
            assert(cs[c][i] as int == v);
            assert(connected(edges, v, w) && degree_in(edges, w) == 1);
        }
    }
    if (forall|v: int| 0 <= v < n ==> #[trigger] degree_in(edges, v) == 1 || degree_in(edges, v) == 3)
        && forall|v: int| 0 <= v < n ==> #[trigger] reaches_leaf(n, edges, v) {
        assert forall|c: int| 0 <= c < cs.len() implies #[trigger] has_leaf(edges, cs[c]) by {
            assert(cs[c].len() > 0);
            let v = cs[c][0] as int;
            assert(v < n);
            assert(reaches_leaf(n, edges, v));
            let w = choose|w: int| 0 <= w < n && #[trigger] connected(edges, v, w) && degree_in(edges, w) == 1;
            assert(in_some(cs, w));
            let d = choose|d: int| 0 <= d < cs.len() && #[trigger] cs[d].contains(w as usize);
            let j = choose|j: int| 0 <= j < cs[d].len() && cs[d][j] == w as usize;
            if d != c {
                assert(!connected(edges, cs[c][0] as int, cs[d][j] as int));
            }
            assert(degree_in(edges, cs[c][j] as int) == 1);
        }
    }
}

/// Whether the graph on `0..n` with `edges` can carry a Jacobi diagram (see
/// `jacobi_skeleton`); the components are those that `petgraph`'s `TarjanScc` finds.
pub fn is_jacobi_skeleton(n: usize, edges: &Vec<(usize, usize)>) -> (r: bool)
    requires
        forall|k: int| 0 <= k < edges@.len() ==> (#[trigger] edges@[k]).0 < n && edges@[k].1 < n,
    ensures
        r == jacobi_skeleton(n as nat, edges@),
        r == ((forall|v: int| 0 <= v < n ==> #[trigger] degree_in(edges@, v) == 1 || degree_in(edges@, v) == 3)
            && forall|v: int| 0 <= v < n ==> #[trigger] reaches_leaf(n as nat, edges@, v)),
{
    let mut verts: Vec<()> = Vec::new();
    let mut i: usize = 0;
    while i < n
        invariant
            i <= n,
            verts@.len() == i,
        decreases n - i,
    {
        verts.push(());
        i = i + 1;
    }
    let g: Graph<()> = Graph::from_parts(verts, copy_edges(edges));
    let mut v: usize = 0;
    while v < n
        invariant
            v <= n,
            g.edge_list() == edges@,
            forall|u: int| 0 <= u < v ==> #[trigger] degree_in(edges@, u) == 1 || degree_in(edges@, u) == 3,
        decreases n - v,
    {
        let d = g.vertex_degree(v);
        if d != 1 && d != 3 {
            proof {
                assert(degree_in(edges@, v as int) == d);
            }
            return false;
        }
        v = v + 1;
    }
    let comps = scc_components(n, edges);
    proof {
        law_jacobi_skeleton_leaves(n as nat, edges@);
    }
    let ghost cs = tarjan_components(n as nat, edges@);
    let mut c: usize = 0;
    while c < comps.len()
        invariant
            c <= comps@.len(),
            g.edge_list() == edges@,
            lists_of(comps@) == cs,
            cs == tarjan_components(n as nat, edges@),
            are_components(n as nat, edges@, cs),
            forall|x: int| 0 <= x < c ==> #[trigger] has_leaf(edges@, cs[x]),
        decreases comps@.len() - c,
    {
        let comp = &comps[c];
        proof {
            assert(cs[c as int] == comp@);
        }
        let mut found = false;
        let mut j: usize = 0;
        while j < comp.len()
            invariant
                j <= comp@.len(),
                g.edge_list() == edges@,
                found ==> has_leaf(edges@, comp@),
                !found ==> forall|y: int| 0 <= y < j ==> #[trigger] degree_in(edges@, comp@[y] as int) != 1,
            decreases comp@.len() - j,
        {
            if g.vertex_degree(comp[j]) == 1 {
                proof {
                    assert(degree_in(edges@, comp@[j as int] as int) == 1);
                }
                found = true;
            }
            j = j + 1;
        }
        if !found {
            proof {
                assert(!has_leaf(edges@, cs[c as int]));
                assert(c < cs.len());
                assert(!jacobi_skeleton(n as nat, edges@));
                law_jacobi_skeleton_leaves(n as nat, edges@);
            }
            return false;
        }
        c = c + 1;
    }
    proof {
        law_jacobi_skeleton_leaves(n as nat, edges@);
    }
    true
}

/// The ids of the edges from `k` on that start at `v`, the latest first.
pub open spec fn out_edge_ids(edges: Seq<(usize, usize)>, v: usize, k: int) -> Seq<usize>
    decreases edges.len() - k,
{
    if k < 0 || k >= edges.len() {
        Seq::empty()
    } else {
        out_edge_ids(edges, v, k + 1) + if edges[k].0 == v { seq![k as usize] } else { Seq::empty() }
    }
}

/// The ids of the edges from `k` on that end at `v` and are not loops, the latest first.
pub open spec fn in_edge_ids(edges: Seq<(usize, usize)>, v: usize, k: int) -> Seq<usize>
    decreases edges.len() - k,
{
    if k < 0 || k >= edges.len() {
        Seq::empty()
    } else {
        in_edge_ids(edges, v, k + 1) + if edges[k].1 == v && edges[k].0 != v { seq![k as usize] } else { Seq::empty() }
    }
}

/// The ids of the edges at `v` in the order in which `petgraph`'s `edges(v)` gives them on an
/// undirected graph: those that start at `v`, then the others that end there, each part the
/// latest first.
pub open spec fn incident_ids(edges: Seq<(usize, usize)>, v: usize) -> Seq<usize> {
    out_edge_ids(edges, v, 0) + in_edge_ids(edges, v, 0)
}

/// The rows of edge ids of the vertices `0..n`.
pub open spec fn incident_rows(n: nat, edges: Seq<(usize, usize)>) -> Seq<Seq<usize>> {
    Seq::new(n, |v: int| incident_ids(edges, v as usize))
}

/// The ids of the edges at `v` (see `incident_ids`).
pub fn edge_ids_at(edges: &Vec<(usize, usize)>, v: usize) -> (r: Vec<usize>)
    ensures
        r@ == incident_ids(edges@, v),
{
    let n = edges.len();
    let mut outs: Vec<usize> = Vec::new();
    let mut ins: Vec<usize> = Vec::new();
    let mut i: usize = n;
    while i > 0
        invariant
            i <= n,
            n == edges@.len(),
            outs@ == out_edge_ids(edges@, v, i as int),
            ins@ == in_edge_ids(edges@, v, i as int),
        decreases i,
    {
        i = i - 1;
        let (a, b) = edges[i];
        if a == v {
            outs.push(i);
        }
        if b == v && a != v {
            ins.push(i);
        }
        proof {
            if a == v {
                assert(outs@ =~= out_edge_ids(edges@, v, i + 1) + seq![i]);
            } else {
                assert(outs@ =~= out_edge_ids(edges@, v, i + 1) + Seq::<usize>::empty());
            }
            if b == v && a != v {
                assert(ins@ =~= in_edge_ids(edges@, v, i + 1) + seq![i]);
            } else {
                assert(ins@ =~= in_edge_ids(edges@, v, i + 1) + Seq::<usize>::empty());
            }
        }
    }
    outs.append(&mut ins);
    outs
}

proof fn lemma_out_ids_bound(edges: Seq<(usize, usize)>, v: usize, k: int)
    ensures
        forall|i: int| 0 <= i < out_edge_ids(edges, v, k).len() ==> #[trigger] out_edge_ids(edges, v, k)[i] < edges.len(),
        forall|i: int| 0 <= i < in_edge_ids(edges, v, k).len() ==> #[trigger] in_edge_ids(edges, v, k)[i] < edges.len(),
    decreases edges.len() - k,
{
    if 0 <= k < edges.len() {
        lemma_out_ids_bound(edges, v, k + 1);
        let o = out_edge_ids(edges, v, k);
        let o1 = out_edge_ids(edges, v, k + 1);
        assert forall|i: int| 0 <= i < o.len() implies #[trigger] o[i] < edges.len() by {
            if i < o1.len() {
                assert(o[i] == o1[i]);
            }
        }
        let n = in_edge_ids(edges, v, k);
        let n1 = in_edge_ids(edges, v, k + 1);
        assert forall|i: int| 0 <= i < n.len() implies #[trigger] n[i] < edges.len() by {
            if i < n1.len() {
                assert(n[i] == n1[i]);
            }
        }
    }
}

/// `r` is what `EmbGraph::build` makes of the rows of edge ids at the vertices `0..n` (see
/// `incident_rows`): its orders, half-edges and edges, and well formed when each edge id
/// occurs twice.
pub open spec fn built_from(n: nat, edges: Seq<(usize, usize)>, r: EmbGraph) -> bool {
    &&& r.nv() == n
    &&& r.nhe() == 2 * r.ne()
    &&& forall|v: int| 0 <= v < n ==> (#[trigger] r.order(v)).len() == incident_ids(edges, v as usize).len()
    &&& forall|v: int, j: int| 0 <= v < n && 0 <= j < incident_ids(edges, v as usize).len() ==>
        #[trigger] r.order(v)[j] == built_half_edge(incident_rows(n, edges), v, j)
    &&& forall|k: int| 0 <= k < r.ne() ==> (#[trigger] r.edges@[k]).0 == 2 * k && r.edges@[k].1 == 2 * k + 1
    &&& forall|h: int| 0 <= h < r.nhe() ==> (#[trigger] r.half_edges@[h]).1 == h / 2
    &&& r.ne() == 0 || exists|v: int, j: int| 0 <= v < n && 0 <= j < incident_ids(edges, v as usize).len()
        && #[trigger] incident_ids(edges, v as usize)[j] + 1 == r.ne()
    &&& each_edge_twice(incident_rows(n, edges), r.ne()) ==> r.wf()
}

/// The embedded graph on the vertices `0..n` whose half-edge orders list the edges at each
/// vertex as `petgraph` gives them (see `incident_ids`), built by `EmbGraph::build`.
pub fn jacobi_base(n: usize, edges: &Vec<(usize, usize)>) -> (r: EmbGraph)
    requires
        2 * edges@.len() + 1 < usize::MAX,
    ensures
        built_from(n as nat, edges@, r),
        r.nv() == n,
        r.nhe() == 2 * r.ne(),
        forall|v: int| 0 <= v < n ==> (#[trigger] r.order(v)).len() == incident_ids(edges@, v as usize).len(),
        forall|v: int, j: int| 0 <= v < n && 0 <= j < incident_ids(edges@, v as usize).len() ==>
            #[trigger] r.order(v)[j] == built_half_edge(incident_rows(n as nat, edges@), v, j),
        forall|k: int| 0 <= k < r.ne() ==> (#[trigger] r.edges@[k]).0 == 2 * k && r.edges@[k].1 == 2 * k + 1,
        forall|h: int| 0 <= h < r.nhe() ==> (#[trigger] r.half_edges@[h]).1 == h / 2,
        r.ne() == 0 || exists|v: int, j: int| 0 <= v < n && 0 <= j < incident_ids(edges@, v as usize).len()
            && #[trigger] incident_ids(edges@, v as usize)[j] + 1 == r.ne(),
        each_edge_twice(incident_rows(n as nat, edges@), r.ne()) ==> r.wf(),
{
    let mut rows: Vec<Vec<usize>> = Vec::new();
    let mut v: usize = 0;
    while v < n
        invariant
            v <= n,
            rows@.len() == v,
            forall|u: int| 0 <= u < v ==> (#[trigger] rows@[u])@ == incident_ids(edges@, u as usize),
        decreases n - v,
    {
        rows.push(edge_ids_at(edges, v));
        v = v + 1;
    }
    proof {
        assert(rows_of(rows@) =~= incident_rows(n as nat, edges@));
        assert forall|u: int, j: int| 0 <= u < rows@.len() && 0 <= j < rows@[u]@.len() implies 2 * (#[trigger] rows@[u]@[j]) + 1 < usize::MAX by {
            lemma_out_ids_bound(edges@, u as usize, 0);
            let o = out_edge_ids(edges@, u as usize, 0);
            if j < o.len() {
                assert(rows@[u]@[j] == o[j]);
            } else {
                assert(rows@[u]@[j] == in_edge_ids(edges@, u as usize, 0)[j - o.len()]);
            }
        }
    }
    let ghost a = rows@;
    let r = EmbGraph::build(rows);
    proof {
        if r.ne() != 0 {
            let (v, j) = choose|v: int, j: int| 0 <= v < a.len() && 0 <= j < a[v]@.len() && #[trigger] a[v]@[j] + 1 == r.ne();
            assert(incident_ids(edges@, v as usize)[j] + 1 == r.ne());
        }
    }
    r
}

/// `g` has the vertices, half-edges and edges of `base`; at each vertex below `upto` with
/// more than one half-edge its order is an arrangement of the order in `base` (first
/// half-edge kept first), and elsewhere the order of `base`.
pub open spec fn reordered(base: EmbGraph, g: EmbGraph, upto: int) -> bool {
    &&& g.nv() == base.nv()
    &&& g.nhe() == base.nhe()
    &&& g.ne() == base.ne()
    &&& forall|h: int| 0 <= h < base.nhe() ==> (#[trigger] g.half_edges@[h]).0 == base.half_edges@[h].0 && g.half_edges@[h].1 == base.half_edges@[h].1
    &&& forall|e: int| 0 <= e < base.ne() ==> (#[trigger] g.edges@[e]).0 == base.edges@[e].0 && g.edges@[e].1 == base.edges@[e].1
    &&& forall|u: int| 0 <= u < base.nv() ==> #[trigger] g.order(u) == base.order(u)
        || (u < upto && base.order(u).len() > 1 && is_arrangement(base.order(u), g.order(u)))
}

/// `ch` picks, for each vertex below `upto` with more than one half-edge, an arrangement of
/// its order in `base`.
pub open spec fn choice_ok(base: EmbGraph, ch: Seq<Seq<usize>>, upto: int) -> bool {
    &&& ch.len() == base.nv()
    &&& forall|u: int| 0 <= u < upto && u < base.nv() && base.order(u).len() > 1 ==> is_arrangement(base.order(u), #[trigger] ch[u])
}

/// At each vertex below `upto` with more than one half-edge, the order of `g` is the one
/// that `ch` picks, up to rotation.
pub open spec fn meets_choice(base: EmbGraph, g: EmbGraph, ch: Seq<Seq<usize>>, upto: int) -> bool {
    forall|u: int| 0 <= u < upto && u < base.nv() && base.order(u).len() > 1 ==> rotation_of(#[trigger] g.order(u), ch[u])
}

/// Every choice of orders below `upto` is met by some graph of `r`.
pub open spec fn all_choices_met(base: EmbGraph, r: Seq<EmbGraph>, upto: int) -> bool {
    forall|ch: Seq<Seq<usize>>| #[trigger] choice_ok(base, ch, upto) ==>
        exists|k: int| 0 <= k < r.len() && #[trigger] meets_choice(base, r[k], ch, upto)
}

/// `h` is `g` with the order at `v` set to `p`.
pub open spec fn with_order(g: EmbGraph, h: EmbGraph, v: int, p: Seq<usize>) -> bool {
    &&& h.nv() == g.nv()
    &&& h.order(v) == p
    &&& forall|u: int| 0 <= u < g.nv() && u != v ==> #[trigger] h.order(u) == g.order(u)
}

/// Some graph of `next` is `g` with the order at `v` set to `p`.
pub open spec fn made(next: Seq<EmbGraph>, g: EmbGraph, v: int, p: Seq<usize>) -> bool {
    exists|j: int| 0 <= j < next.len() && #[trigger] with_order(g, next[j], v, p)
}

/// The number of graphs that `vertex_orderings` makes from the vertices below `v` of a
/// well-formed `base`: the product of `(d - 1)!` over the vertices with `d > 1` half-edges.
pub open spec fn orderings_count(base: EmbGraph, v: int) -> nat
    decreases v,
{
    if v <= 0 {
        1
    } else {
        let d = base.order(v - 1).len();
        orderings_count(base, v - 1) * if d > 1 { factorial((d - 1) as nat) } else { 1 }
    }
}

/// A copy of `g` with the order at `v` set to `p`.
fn set_order(g: &EmbGraph, v: usize, p: &CyclicOrder<usize>) -> (h: EmbGraph)
    requires
        v < g.nv(),
    ensures
        with_order(*g, h, v as int, p@),
        h.nhe() == g.nhe(),
        h.ne() == g.ne(),
        forall|x: int| 0 <= x < g.nhe() ==> (#[trigger] h.half_edges@[x]).0 == g.half_edges@[x].0 && h.half_edges@[x].1 == g.half_edges@[x].1,
        forall|e: int| 0 <= e < g.ne() ==> (#[trigger] h.edges@[e]).0 == g.edges@[e].0 && h.edges@[e].1 == g.edges@[e].1,
{
    let mut h = g.map(|_k: usize, _x: &()| (), |_k: usize, _x: &()| (), |_k: usize, _x: &()| ());
    let ghost h0 = h;
    h.vertices.set(v, (p.clone(), ()));
    proof {
        assert forall|u: int| 0 <= u < g.nv() && u != v implies #[trigger] h.order(u) == g.order(u) by {
            assert(h.vertices@[u] == h0.vertices@[u]);
            assert(h0.order(u) == g.order(u));
        }
    }
    h
}

/// The graphs that `base` gives when the half-edges at each vertex with more than one are
/// put in every cyclic order that `CyclicOrder::permutations` gives, one vertex after another.
#[verifier::rlimit(80)]
pub fn vertex_orderings(base: &EmbGraph) -> (r: Vec<EmbGraph>)
    ensures
        r@.len() > 0,
        forall|k: int| 0 <= k < r@.len() ==> reordered(*base, #[trigger] r@[k], base.nv()),
        all_choices_met(*base, r@, base.nv()),
        base.wf() ==> r@.len() == orderings_count(*base, base.nv()),
{
    let n = base.vertices.len();
    let mut graphs: Vec<EmbGraph> = Vec::new();
    let g0 = base.map(|_k: usize, _x: &()| (), |_k: usize, _x: &()| (), |_k: usize, _x: &()| ());
    graphs.push(g0);
    proof {
        assert(reordered(*base, graphs@[0], 0));
        assert forall|ch: Seq<Seq<usize>>| #[trigger] choice_ok(*base, ch, 0) implies
            exists|k: int| 0 <= k < graphs@.len() && #[trigger] meets_choice(*base, graphs@[k], ch, 0) by {
            assert(meets_choice(*base, graphs@[0], ch, 0));
        }
    }
    let mut v: usize = 0;
    while v < n
        invariant
            n == base.nv(),
            v <= n,
            graphs@.len() > 0,
            forall|k: int| 0 <= k < graphs@.len() ==> reordered(*base, #[trigger] graphs@[k], v as int),
            all_choices_met(*base, graphs@, v as int),
            base.wf() ==> graphs@.len() == orderings_count(*base, v as int),
        decreases n - v,
    {
        if base.vertices[v].0.data.len() > 1 {
            let perms = base.vertices[v].0.permutations();
            let m = perms.len();
            let mut next: Vec<EmbGraph> = Vec::new();
            let mut i: usize = 0;
            while i < graphs.len()
                invariant
                    n == base.nv(),
                    v < n,
                    base.order(v as int).len() > 1,
                    m == perms@.len(),
                    i <= graphs@.len(),
                    forall|k: int| 0 <= k < graphs@.len() ==> reordered(*base, #[trigger] graphs@[k], v as int),
                    forall|k: int| 0 <= k < m ==> is_arrangement(base.order(v as int), #[trigger] perms@[k]@),
                    forall|j: int| 0 <= j < next@.len() ==> reordered(*base, #[trigger] next@[j], v + 1),
                    forall|a: int, b: int| 0 <= a < i && 0 <= b < m ==> #[trigger] made(next@, graphs@[a], v as int, #[trigger] perms@[b]@),
                    next@.len() == i * m,
                decreases graphs@.len() - i,
            {
                let mut k: usize = 0;
                while k < m
                    invariant
                        n == base.nv(),
                        v < n,
                        base.order(v as int).len() > 1,
                        m == perms@.len(),
                        i < graphs@.len(),
                        k <= m,
                        forall|x: int| 0 <= x < graphs@.len() ==> reordered(*base, #[trigger] graphs@[x], v as int),
                        forall|x: int| 0 <= x < m ==> is_arrangement(base.order(v as int), #[trigger] perms@[x]@),
                        forall|j: int| 0 <= j < next@.len() ==> reordered(*base, #[trigger] next@[j], v + 1),
                        forall|a: int, b: int| 0 <= a < i && 0 <= b < m ==> #[trigger] made(next@, graphs@[a], v as int, #[trigger] perms@[b]@),
                        forall|b: int| 0 <= b < k ==> #[trigger] made(next@, graphs@[i as int], v as int, perms@[b]@),
                        next@.len() == i * m + k,
                    decreases m - k,
                {
                    let h = set_order(&graphs[i], v, &perms[k]);
                    let ghost old_next = next@;
                    next.push(h);
                    proof {
                        let g = graphs@[i as int];
                        assert(reordered(*base, g, v as int));
                        assert(reordered(*base, h, v + 1)) by {
                            assert forall|u: int| 0 <= u < base.nv() implies #[trigger] h.order(u) == base.order(u)
                                || (u < v + 1 && base.order(u).len() > 1 && is_arrangement(base.order(u), h.order(u))) by {
                                if u != v {
                                    assert(h.order(u) == g.order(u));
                                } else {
                                    assert(h.order(u) == perms@[k as int]@);
                                }
                            }
                        }
                        assert forall|j: int| 0 <= j < next@.len() implies reordered(*base, #[trigger] next@[j], v + 1) by {
                            if j < old_next.len() {
                                assert(next@[j] == old_next[j]);
                            }
                        }
                        assert forall|a: int, b: int| 0 <= a < i && 0 <= b < m implies #[trigger] made(next@, graphs@[a], v as int, #[trigger] perms@[b]@) by {
                            assert(made(old_next, graphs@[a], v as int, perms@[b]@));
                            let j = choose|j: int| 0 <= j < old_next.len() && #[trigger] with_order(graphs@[a], old_next[j], v as int, perms@[b]@);
                            assert(next@[j] == old_next[j]);
                        }
                        assert forall|b: int| 0 <= b < k + 1 implies #[trigger] made(next@, graphs@[i as int], v as int, perms@[b]@) by {
                            if b < k {
                                assert(made(old_next, graphs@[i as int], v as int, perms@[b]@));
                                let j = choose|j: int| 0 <= j < old_next.len() && #[trigger] with_order(graphs@[i as int], old_next[j], v as int, perms@[b]@);
                                assert(next@[j] == old_next[j]);
                            } else {
                                assert(with_order(g, next@[old_next.len() as int], v as int, perms@[b]@));
                            }
                        }
                    }
                    k = k + 1;
                }
                assert(next@.len() == (i + 1) * m) by (nonlinear_arith)
                    requires
                        next@.len() == i * m + m,
                ;
                i = i + 1;
            }
            proof {
                let o = base.order(v as int);
                assert forall|ch: Seq<Seq<usize>>| #[trigger] choice_ok(*base, ch, v + 1) implies
                    exists|k: int| 0 <= k < next@.len() && #[trigger] meets_choice(*base, next@[k], ch, v + 1) by {
                    assert(choice_ok(*base, ch, v as int));
                    let a = choose|a: int| 0 <= a < graphs@.len() && #[trigger] meets_choice(*base, graphs@[a], ch, v as int);
                    assert(is_arrangement(o, ch[v as int]));
                    let p = choose|p: Seq<usize>| is_permutation(p, 1, o.len() as int) && ch[v as int] == #[trigger] arranged(o, p);
                    assert(is_permutation(p, 1, o.len() as int));
                    let b = choose|b: int| 0 <= b < perms@.len() && rotation_of(perms@[b]@, arranged(o, p));
                    assert(made(next@, graphs@[a], v as int, perms@[b]@));
                    let j = choose|j: int| 0 <= j < next@.len() && #[trigger] with_order(graphs@[a], next@[j], v as int, perms@[b]@);
                    assert forall|u: int| 0 <= u < v + 1 && u < base.nv() && base.order(u).len() > 1 implies
                        rotation_of(#[trigger] next@[j].order(u), ch[u]) by {
                        if u < v {
                            assert(next@[j].order(u) == graphs@[a].order(u));
                            assert(rotation_of(graphs@[a].order(u), ch[u]));
                        }
                    }
                    assert(meets_choice(*base, next@[j], ch, v + 1));
                }
                let id = Seq::new((o.len() - 1) as nat, |x: int| (x + 1) as usize);
                assert(is_permutation(id, 1, o.len() as int));
                assert(perms@.len() > 0);
                assert(made(next@, graphs@[0], v as int, perms@[0]@));
                if base.wf() {
                    assert(o.no_duplicates()) by {
                        assert(base.order(v as int) == o);
                    }
                    assert(m == factorial((o.len() - 1) as nat));
                    assert(orderings_count(*base, v + 1) == orderings_count(*base, v as int) * factorial((o.len() - 1) as nat));
                }
            }
            graphs = next;
        } else {
            proof {
                assert forall|k: int| 0 <= k < graphs@.len() implies reordered(*base, #[trigger] graphs@[k], v + 1) by {
                    assert(reordered(*base, graphs@[k], v as int));
                }
                assert forall|ch: Seq<Seq<usize>>| #[trigger] choice_ok(*base, ch, v + 1) implies
                    exists|k: int| 0 <= k < graphs@.len() && #[trigger] meets_choice(*base, graphs@[k], ch, v + 1) by {
                    assert(choice_ok(*base, ch, v as int));
                    let a = choose|a: int| 0 <= a < graphs@.len() && #[trigger] meets_choice(*base, graphs@[a], ch, v as int);
                    assert(meets_choice(*base, graphs@[a], ch, v + 1));
                }
            }
        }
        v = v + 1;
    }
    graphs
}

/// The embedded graphs of a multigraph on `0..n` that can carry a Jacobi diagram: the graph
/// built from its edges at each vertex, with the half-edges at every vertex put in each of
/// their cyclic orders (see `vertex_orderings`); none when it is no such skeleton.
pub fn jacobi_embeddings(n: usize, edges: &Vec<(usize, usize)>) -> (r: Vec<EmbGraph>)
    requires
        forall|k: int| 0 <= k < edges@.len() ==> (#[trigger] edges@[k]).0 < n && edges@[k].1 < n,
        2 * edges@.len() + 1 < usize::MAX,
    ensures
        r@.len() > 0 <==> jacobi_skeleton(n as nat, edges@),
        jacobi_skeleton(n as nat, edges@) ==> exists|base: EmbGraph| #[trigger] built_from(n as nat, edges@, base)
            && (forall|k: int| 0 <= k < r@.len() ==> reordered(base, #[trigger] r@[k], n as int))
            && all_choices_met(base, r@, n as int)
            && (base.wf() ==> r@.len() == orderings_count(base, n as int)),
{
    if !is_jacobi_skeleton(n, edges) {
        return Vec::new();
    }
    let base = jacobi_base(n, edges);
    let r = vertex_orderings(&base);
    assert(built_from(n as nat, edges@, base));
    r
}

/// The sum of the multiplicities of the triples.
pub open spec fn multiplicity_sum(t: Seq<(usize, usize, usize)>) -> nat
    decreases t.len(),
{
    if t.len() == 0 { 0 } else { multiplicity_sum(t.drop_last()) + t.last().2 as nat }
}

/// The multigraph that triples describe has as many edges as their multiplicities add up to,
/// and each of its edges joins the two ends of a triple with a positive multiplicity.
pub proof fn law_multig_edges(t: Seq<(usize, usize, usize)>)
    ensures
        expanded(t).len() == multiplicity_sum(t),
        forall|k: int| 0 <= k < expanded(t).len() ==> exists|i: int| 0 <= i < t.len() && t[i].2 > 0
            && (#[trigger] expanded(t)[k]).0 == t[i].0 && expanded(t)[k].1 == t[i].1,
    decreases t.len(),
{
    if t.len() > 0 {
        let rest = t.drop_last();
        law_multig_edges(rest);
        let e = expanded(t);
        let er = expanded(rest);
        assert forall|k: int| 0 <= k < e.len() implies exists|i: int| 0 <= i < t.len() && t[i].2 > 0
            && (#[trigger] e[k]).0 == t[i].0 && e[k].1 == t[i].1 by {
            if k < er.len() {
                assert(e[k] == er[k]);
                let i = choose|i: int| 0 <= i < rest.len() && rest[i].2 > 0 && (#[trigger] er[k]).0 == rest[i].0 && er[k].1 == rest[i].1;
                assert(t[i] == rest[i]);
            } else {
                let i = t.len() - 1;
                assert(t[i] == t.last());
            }
        }
    }
}

/// The edge ids listed at `v` are the ids of the edges at `v`: each listed edge has `v` as an
/// end, and every edge with `v` as an end is listed.
pub proof fn law_incident_ids(edges: Seq<(usize, usize)>, v: usize)
    requires
        edges.len() <= usize::MAX,
    ensures
        forall|i: int| 0 <= i < incident_ids(edges, v).len() ==> {
            let k = #[trigger] incident_ids(edges, v)[i];
            k < edges.len() && (edges[k as int].0 == v || edges[k as int].1 == v)
        },
        forall|k: int| 0 <= k < edges.len() && (#[trigger] edges[k].0 == v || edges[k].1 == v) ==>
            incident_ids(edges, v).contains(k as usize),
{
    lemma_ids_touch(edges, v, 0);
    assert forall|k: int| 0 <= k < edges.len() && (#[trigger] edges[k].0 == v || edges[k].1 == v) implies
        incident_ids(edges, v).contains(k as usize) by {
        lemma_ids_listed(edges, v, 0, k);
        let o = out_edge_ids(edges, v, 0);
        let i = in_edge_ids(edges, v, 0);
        if o.contains(k as usize) {
            let p = choose|p: int| 0 <= p < o.len() && o[p] == k as usize;
            assert(incident_ids(edges, v)[p] == k as usize);
        } else {
            let p = choose|p: int| 0 <= p < i.len() && i[p] == k as usize;
            assert(incident_ids(edges, v)[o.len() + p] == k as usize);
        }
    }
}

proof fn lemma_ids_touch(edges: Seq<(usize, usize)>, v: usize, k: int)
    requires
        0 <= k,
        edges.len() <= usize::MAX,
    ensures
        forall|i: int| 0 <= i < out_edge_ids(edges, v, k).len() ==> {
            let x = #[trigger] out_edge_ids(edges, v, k)[i];
            x < edges.len() && edges[x as int].0 == v
        },
        forall|i: int| 0 <= i < in_edge_ids(edges, v, k).len() ==> {
            let x = #[trigger] in_edge_ids(edges, v, k)[i];
            x < edges.len() && edges[x as int].1 == v
        },
        k == 0 ==> forall|i: int| 0 <= i < incident_ids(edges, v).len() ==> {
            let x = #[trigger] incident_ids(edges, v)[i];
            x < edges.len() && (edges[x as int].0 == v || edges[x as int].1 == v)
        },
    decreases edges.len() - k,
{
    if k < edges.len() {
        lemma_ids_touch(edges, v, k + 1);
        let o = out_edge_ids(edges, v, k);
        let o1 = out_edge_ids(edges, v, k + 1);
        assert forall|i: int| 0 <= i < o.len() implies {
            let x = #[trigger] o[i];
            x < edges.len() && edges[x as int].0 == v
        } by {
            if i < o1.len() {
                assert(o[i] == o1[i]);
            } else {
                assert(edges[k].0 == v);
                assert(o[i] == k as usize);
            }
        }
        let n = in_edge_ids(edges, v, k);
        let n1 = in_edge_ids(edges, v, k + 1);
        assert forall|i: int| 0 <= i < n.len() implies {
            let x = #[trigger] n[i];
            x < edges.len() && edges[x as int].1 == v
        } by {
            if i < n1.len() {
                assert(n[i] == n1[i]);
            } else {
                assert(edges[k].1 == v);
                assert(n[i] == k as usize);
            }
        }
    }
    if k == 0 {
        let o = out_edge_ids(edges, v, 0);
        let n = in_edge_ids(edges, v, 0);
        assert forall|i: int| 0 <= i < incident_ids(edges, v).len() implies {
            let x = #[trigger] incident_ids(edges, v)[i];
            x < edges.len() && (edges[x as int].0 == v || edges[x as int].1 == v)
        } by {
            if i < o.len() {
                assert(incident_ids(edges, v)[i] == o[i]);
            } else {
                assert(incident_ids(edges, v)[i] == n[i - o.len()]);
            }
        }
    }
}

proof fn lemma_ids_listed(edges: Seq<(usize, usize)>, v: usize, k: int, m: int)
    requires
        0 <= k <= m < edges.len(),
        edges.len() <= usize::MAX,
        edges[m].0 == v || edges[m].1 == v,
    ensures
        out_edge_ids(edges, v, k).contains(m as usize) || in_edge_ids(edges, v, k).contains(m as usize),
    decreases m - k,
{
    let o = out_edge_ids(edges, v, k);
    let n = in_edge_ids(edges, v, k);
    if k == m {
        if edges[m].0 == v {
            assert(o[o.len() - 1] == m as usize);
        } else {
            assert(n[n.len() - 1] == m as usize);
        }
    } else {
        lemma_ids_listed(edges, v, k + 1, m);
        let o1 = out_edge_ids(edges, v, k + 1);
        let n1 = in_edge_ids(edges, v, k + 1);
        if o1.contains(m as usize) {
            let p = choose|p: int| 0 <= p < o1.len() && o1[p] == m as usize;
            assert(o[p] == m as usize);
        } else {
            let p = choose|p: int| 0 <= p < n1.len() && n1[p] == m as usize;
            assert(n[p] == m as usize);
        }
    }
}

} // verus!
