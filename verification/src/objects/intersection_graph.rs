use vstd::prelude::*;
use crate::{CombEq, CombGrad};
use crate::objects::chord_diagram::{ChordDiagram, crosses, pair_lt, canonical_forms, rooted, ENUMERATION_LIMIT,
    computes_totient};
use crate::objects::graph::Graph;
use crate::objects::graph_template::index_seq;
use crate::objects::graph::kept_values;
use crate::collections::set::CombSet;
use crate::collections::comb_map::{model_get, model_insert_unchecked, bucket_at, matches_to, lemma_first_where_props};

verus! {

/// `cs` lists the chords of `s`, each once, in increasing order of label.
pub open spec fn chord_order(s: Seq<u8>, cs: Seq<u8>) -> bool {
    &&& forall|i: int, j: int| 0 <= i < j < cs.len() ==> cs[i] < cs[j]
    &&& forall|a: u8| #[trigger] cs.contains(a) <==> s.contains(a)
}

/// `es` are the pairs `(i, j)`, `i < j`, of positions of `cs` whose chords cross in `s`, in
/// lexicographic order.
pub open spec fn crossing_pairs(s: Seq<u8>, cs: Seq<u8>, es: Seq<(usize, usize)>) -> bool {
    &&& forall|e: (usize, usize)| #[trigger] es.contains(e) <==> (e.0 < e.1 < cs.len() && crosses(s, cs[e.0 as int], cs[e.1 as int]))
    &&& forall|p: int, q: int| 0 <= p < q < es.len() ==> pair_lt(es[p], es[q])
}

/// `g` is the intersection graph of the diagram `s`: a vertex for each chord, in increasing order
/// of label, and an edge between each pair of crossing chords, in lexicographic order.
pub open spec fn is_intersection_graph(s: Seq<u8>, g: Graph<()>) -> bool {
    exists|cs: Seq<u8>| #[trigger] chord_order(s, cs) && g.nv() == cs.len() && crossing_pairs(s, cs, g.edge_list())
}

/// The key that orders pairs of bytes.
spec fn pair_key(p: (usize, usize)) -> int {
    p.0 * 256 + p.1
}

/// A strictly increasing sequence of numbers below `bound` has at most `bound` elements.
proof fn lemma_increasing_len(s: Seq<int>, bound: int)
    requires
        bound >= 0,
        forall|i: int, j: int| 0 <= i < j < s.len() ==> s[i] < s[j],
        forall|i: int| 0 <= i < s.len() ==> 0 <= #[trigger] s[i] < bound,
    ensures
        s.len() <= bound,
{
    if s.len() > 0 {
        assert forall|i: int| 0 <= i < s.len() implies #[trigger] s[i] >= i by {
            lemma_increasing_from(s, i);
        }
        let last = s.len() - 1;
        assert(s[last] >= last);
        assert(0 <= s[last] < bound);
    }
}

proof fn lemma_increasing_from(s: Seq<int>, i: int)
    requires
        forall|a: int, b: int| 0 <= a < b < s.len() ==> s[a] < s[b],
        forall|a: int| 0 <= a < s.len() ==> 0 <= #[trigger] s[a],
        0 <= i < s.len(),
    ensures
        s[i] >= i,
    decreases i,
{
    if i > 0 {
        lemma_increasing_from(s, i - 1);
    }
}

impl ChordDiagram {
    /// The intersection graph of the diagram: a vertex for each chord, in increasing order of
    /// label, and an edge between each pair of crossing chords, in lexicographic order.
    pub fn intersection_graph(&self) -> (r: Graph<()>)
        ensures
            r.wf(),
            is_intersection_graph(self@, r),
    {
        let (chords, edges) = self.intersection_edges();
        proof {
            let keys = Seq::new(chords@.len(), |i: int| chords@[i] as int);
            lemma_increasing_len(keys, 256);
            assert forall|k: int| 0 <= k < edges@.len() implies (#[trigger] edges@[k]).0 < chords@.len() && edges@[k].1 < chords@.len() by {
                assert(edges@.contains(edges@[k]));
            }
            let ekeys = Seq::new(edges@.len(), |k: int| pair_key(edges@[k]));
            assert forall|k: int| 0 <= k < ekeys.len() implies 0 <= #[trigger] ekeys[k] < 65536 by {
                assert(edges@.contains(edges@[k]));
                assert(edges@[k].0 < 256 && edges@[k].1 < 256);
            }
            assert forall|a: int, b: int| 0 <= a < b < ekeys.len() implies ekeys[a] < ekeys[b] by {
                assert(pair_lt(edges@[a], edges@[b]));
                assert(edges@.contains(edges@[a]) && edges@.contains(edges@[b]));
                assert(edges@[a].1 < 256 && edges@[b].1 < 256);
            }
            lemma_increasing_len(ekeys, 65536);
        }
        let mut verts: Vec<()> = Vec::new();
        let mut i: usize = 0;
        while i < chords.len()
            invariant
                i <= chords@.len(),
                verts@.len() == i,
            decreases chords@.len() - i,
        {
            verts.push(());
            i = i + 1;
        }
        let g = Graph::from_parts(verts, edges);
        proof {
            assert(chord_order(self@, chords@));
            assert(g.nv() == chords@.len());
        }
        g
    }
}

/// A chord diagram together with its intersection graph.
pub struct IntersectionGraph {
    graph: Graph<()>,
    diagram: ChordDiagram,
}

impl IntersectionGraph {
    /// The intersection graph.
    pub closed spec fn spec_graph(self) -> Graph<()> {
        self.graph
    }

    /// The chord diagram.
    pub closed spec fn spec_diagram(self) -> ChordDiagram {
        self.diagram
    }

    /// The diagram with its intersection graph.
    pub fn new(diagram: ChordDiagram) -> (r: Self)
        ensures
            r.spec_diagram() == diagram,
            r.spec_graph().wf(),
            is_intersection_graph(diagram@, r.spec_graph()),
    {
        let graph = diagram.intersection_graph();
        IntersectionGraph { graph, diagram }
    }

    /// The graph and the diagram.
    pub fn into_pair(self) -> (r: (Graph<()>, ChordDiagram))
        ensures
            r == (self.spec_graph(), self.spec_diagram()),
    {
        (self.graph, self.diagram)
    }

    /// The graph.
    pub fn graph(&self) -> (r: &Graph<()>)
        ensures
            *r == self.spec_graph(),
    {
        &self.graph
    }

    /// The graph, consuming the pair.
    pub fn into_graph(self) -> (r: Graph<()>)
        ensures
            r == self.spec_graph(),
    {
        self.graph
    }

    /// The diagram.
    pub fn diagram(&self) -> (r: &ChordDiagram)
        ensures
            *r == self.spec_diagram(),
    {
        &self.diagram
    }

    /// The diagram, consuming the pair.
    pub fn into_diagram(self) -> (r: ChordDiagram)
        ensures
            r == self.spec_diagram(),
    {
        self.diagram
    }
}

impl CombGrad<usize> for IntersectionGraph {
    open spec fn spec_degree(&self) -> usize {
        self.spec_graph().nv() as usize
    }

    /// The number of chords, the vertices of the graph.
    fn degree(&self) -> (r: usize) {
        self.graph.num_verts()
    }
}

/// The set of graphs that `intersection_graphs` has kept after seeing the graphs `gs`: a graph
/// is kept when the set holds none isomorphic to it (as `contains` decides), and is then added
/// without a check.
pub open spec fn class_model(gs: Seq<Graph<()>>) -> Map<Seq<usize>, Seq<(Graph<()>, ())>>
    decreases gs.len(),
{
    if gs.len() == 0 {
        Map::empty()
    } else {
        let m = class_model(gs.drop_last());
        if model_get(m, gs.last()) is None {
            model_insert_unchecked(m, gs.last(), ())
        } else {
            m
        }
    }
}

/// Which of the graphs `gs` are kept, as `class_model` decides.
pub open spec fn new_flags(gs: Seq<Graph<()>>) -> Seq<bool> {
    Seq::new(gs.len(), |i: int| model_get(class_model(gs.take(i)), gs[i]) is None)
}

/// `ds` are the diagrams that `collect_deg` gives for `size` chords, and `gs` their
/// intersection graphs.
pub open spec fn diagrams_with_graphs(size: nat, ds: Seq<ChordDiagram>, gs: Seq<Graph<()>>) -> bool {
    &&& forall|i: int, j: int| 0 <= i < j < ds.len() ==> ds[i]@ != ds[j]@
    &&& forall|i: int| 0 <= i < ds.len() ==> canonical_forms(rooted(size)).contains(#[trigger] ds[i]@)
    &&& ChordDiagram::count_deg_spec(size as usize) is None ==> forall|c: Seq<u8>| canonical_forms(rooted(size)).contains(c)
        ==> exists|i: int| 0 <= i < ds.len() && #[trigger] ds[i]@ == c
    &&& ChordDiagram::count_deg_spec(size as usize) matches Some(k) ==> ds.len() <= k
    &&& gs.len() == ds.len()
    &&& forall|i: int| 0 <= i < gs.len() ==> (#[trigger] gs[i]).wf() && is_intersection_graph(ds[i]@, gs[i])
}

/// `r` holds, in order, the diagrams of `ds` whose graph `new_flags` keeps, each with a copy of
/// its graph.
pub open spec fn kept_pairs(ds: Seq<ChordDiagram>, gs: Seq<Graph<()>>, r: Seq<IntersectionGraph>) -> bool {
    let idx = kept_values(index_seq(gs.len()), new_flags(gs));
    &&& r.len() == idx.len()
    &&& forall|k: int| 0 <= k < r.len() ==> (#[trigger] r[k]).spec_diagram()@ == ds[idx[k] as int]@
        && r[k].spec_graph().weights() == gs[idx[k] as int].weights()
        && r[k].spec_graph().edge_list() == gs[idx[k] as int].edge_list()
}

/// The intersection graphs of the chord diagrams with `size` chords, each isomorphism class once,
/// with the first diagram (in the order of `collect_deg`) that has it. `phi` computes Euler's
/// totient.
pub fn intersection_graphs<F: Fn(u128) -> u128>(size: usize, phi: &F) -> (r: Vec<IntersectionGraph>)
    requires
        size <= ENUMERATION_LIMIT,
        computes_totient(*phi),
    ensures
        exists|ds: Seq<ChordDiagram>, gs: Seq<Graph<()>>| #[trigger] diagrams_with_graphs(size as nat, ds, gs)
            && kept_pairs(ds, gs, r@),
{
    let ds = ChordDiagram::collect_deg(size, phi);
    let mut seen: CombSet<Graph<()>> = CombSet::new();
    let mut r: Vec<IntersectionGraph> = Vec::new();
    let ghost mut gs: Seq<Graph<()>> = Seq::empty();
    let mut i: usize = 0;
    while i < ds.len()
        invariant
            i <= ds@.len(),
            gs.len() == i,
            seen.wf(),
            seen.inner()@ == class_model(gs),
            forall|j: int| 0 <= j < i ==> (#[trigger] gs[j]).wf() && is_intersection_graph(ds@[j]@, gs[j]),
            kept_pairs(ds@.take(i as int), gs, r@),
        decreases ds@.len() - i,
    {
        let d = ChordDiagram::from_raw(vstd::slice::slice_to_vec(ds[i].ends()));
        let g = d.intersection_graph();
        let ghost gs0 = gs;
        let ghost r0 = r@;
        proof {
            gs = gs.push(g);
            assert(gs.drop_last() =~= gs0);
            assert(gs.take(i as int) =~= gs0);
        }
        if !seen.contains(&g) {
            let out = g.duplicate();
            seen.insert_unchecked(g);
            r.push(IntersectionGraph { graph: out, diagram: d });
        }
        proof {
            let fl = new_flags(gs);
            let fl0 = new_flags(gs0);
            assert forall|j: int| 0 <= j < i implies fl[j] == fl0[j] by {
                assert(gs.take(j) =~= gs0.take(j));
                assert(gs[j] == gs0[j]);
            }
            let idx = kept_values(index_seq(gs.len()), fl);
            let idx0 = kept_values(index_seq(gs0.len()), fl0);
            assert(index_seq(gs.len()).drop_last() =~= index_seq(gs0.len()));
            assert(kept_values(index_seq(gs0.len()), fl) =~= idx0) by {
                lemma_kept_values_same_flags(index_seq(gs0.len()), fl, fl0);
            }
            assert(ds@.take(i + 1).take(i as int) =~= ds@.take(i as int));
            assert forall|k: int| 0 <= k < idx0.len() implies #[trigger] idx0[k] < i by {
                lemma_kept_index_bound(gs0.len(), fl0, k);
            }
            assert forall|k: int| 0 <= k < r@.len() implies (#[trigger] r@[k]).spec_diagram()@ == ds@.take(i + 1)[idx[k] as int]@
                && r@[k].spec_graph().weights() == gs[idx[k] as int].weights()
                && r@[k].spec_graph().edge_list() == gs[idx[k] as int].edge_list() by {
                if k < r0.len() {
                    assert(r@[k] == r0[k]);
                    assert(idx[k] == idx0[k]);
                    assert(ds@.take(i + 1)[idx0[k] as int] == ds@.take(i as int)[idx0[k] as int]);
                    assert(gs[idx0[k] as int] == gs0[idx0[k] as int]);
                }
            }
        }
        i = i + 1;
    }
    proof {
        assert(ds@.take(i as int) =~= ds@);
        assert(diagrams_with_graphs(size as nat, ds@, gs));
    }
    r
}

/// Flags that agree on the values' positions keep the same values.
proof fn lemma_kept_values_same_flags<T>(vals: Seq<T>, a: Seq<bool>, b: Seq<bool>)
    requires
        forall|j: int| 0 <= j < vals.len() ==> a[j] == b[j],
    ensures
        kept_values(vals, a) == kept_values(vals, b),
    decreases vals.len(),
{
    if vals.len() > 0 {
        lemma_kept_values_same_flags(vals.drop_last(), a, b);
    }
}

/// The kept indices lie below the number of flags.
proof fn lemma_kept_index_bound(n: nat, flags: Seq<bool>, k: int)
    requires
        0 <= k < kept_values(index_seq(n), flags).len(),
    ensures
        kept_values(index_seq(n), flags)[k] < n,
    decreases n,
{
    let vals = index_seq(n);
    let kv = kept_values(vals, flags);
    let rest = kept_values(vals.drop_last(), flags);
    assert(vals.drop_last() =~= index_seq((n - 1) as nat));
    if k < rest.len() {
        assert(kv[k] == rest[k]);
        lemma_kept_index_bound((n - 1) as nat, flags, k);
    } else {
        assert(kv[k] == vals.last());
    }
}

/// The number of intersection graphs of chord diagrams with `n` chords, up to isomorphism
/// (OEIS A156809), as far as it is tabulated here and fits.
pub open spec fn a156809(n: nat) -> Option<usize> {
    if n == 0 { Some(1) }
    else if n == 1 { Some(1) }
    else if n == 2 { Some(2) }
    else if n == 3 { Some(4) }
    else if n == 4 { Some(11) }
    else if n == 5 { Some(34) }
    else if n == 6 { Some(154) }
    else if n == 7 { Some(978) }
    else if n == 8 { Some(9497) }
    else if n == 9 { Some(127954) }
    else if n == 10 { Some(2165291) }
    else if n == 11 { Some(42609994) }
    else if n == 12 { Some(937233306) }
    else if n == 13 { if 22576188846 <= usize::MAX { Some(22576188846int as usize) } else { None } }
    else { None }
}

impl IntersectionGraph {
    /// How many intersection graphs there are for `degree` chords, up to isomorphism, where the
    /// table knows it.
    pub fn count_deg(degree: usize) -> (r: Option<usize>)
        ensures
            r == a156809(degree as nat),
    {
        match degree {
            0 => Some(1),
            1 => Some(1),
            2 => Some(2),
            3 => Some(4),
            4 => Some(11),
            5 => Some(34),
            6 => Some(154),
            7 => Some(978),
            8 => Some(9497),
            9 => Some(127954),
            10 => Some(2165291),
            11 => Some(42609994),
            12 => Some(937233306),
            13 => {
                let v: u64 = 22576188846;
                if v <= usize::MAX as u64 {
                    Some(v as usize)
                } else {
                    None
                }
            },
            _ => None,
        }
    }
}

/// A graph that was kept stays in its bucket of the model from then on.
proof fn lemma_kept_stays(gs: Seq<Graph<()>>, i: int, k: int)
    requires
        0 <= i < k <= gs.len(),
        new_flags(gs)[i],
    ensures
        bucket_at(class_model(gs.take(k)), gs[i].spec_hash()).contains((gs[i], ())),
    decreases k,
{
    let t = gs.take(k);
    assert(t.drop_last() =~= gs.take(k - 1));
    assert(t.last() == gs[k - 1]);
    let m0 = class_model(gs.take(k - 1));
    let h = gs[i].spec_hash();
    if k - 1 == i {
        assert(model_get(m0, gs[i]) is None);
        let b = bucket_at(m0, h);
        assert(bucket_at(class_model(t), h) == b.push((gs[i], ())));
        assert(b.push((gs[i], ()))[b.len() as int] == (gs[i], ()));
    } else {
        lemma_kept_stays(gs, i, k - 1);
        let b = bucket_at(m0, h);
        let j = choose|j: int| 0 <= j < b.len() && b[j] == (gs[i], ());
        if model_get(m0, gs[k - 1]) is None {
            let g = gs[k - 1];
            if g.spec_hash() == h {
                assert(bucket_at(class_model(t), h) == b.push((g, ())));
                assert(b.push((g, ()))[j] == (gs[i], ()));
            } else {
                assert(bucket_at(class_model(t), h) == b);
            }
        }
    }
}

/// Intersection graphs come out once per isomorphism class: of two graphs that
/// `intersection_graphs` keeps, the later one has another hash than the earlier one, or the
/// earlier one is not isomorphic to it (as `is_isomorphic` decides).
pub proof fn law_intersection_graphs_distinct(gs: Seq<Graph<()>>, i: int, j: int)
    requires
        0 <= i < j < gs.len(),
        new_flags(gs)[i],
        new_flags(gs)[j],
    ensures
        !(gs[i].spec_hash() == gs[j].spec_hash() && gs[i].spec_iso(&gs[j])),
{
    lemma_kept_stays(gs, i, j);
    let m = class_model(gs.take(j));
    if gs[i].spec_hash() == gs[j].spec_hash() && gs[i].spec_iso(&gs[j]) {
        let b = bucket_at(m, gs[j].spec_hash());
        let q = choose|q: int| 0 <= q < b.len() && b[q] == (gs[i], ());
        lemma_first_where_props(b, matches_to::<Graph<()>, ()>(gs[j]));
        assert(matches_to::<Graph<()>, ()>(gs[j])(b[q]));
        assert(model_get(m, gs[j]) is Some);
    }
}

} // verus!
