use vstd::prelude::*;
use crate::objects::cyclic_order::{CyclicOrder, first_pos, lemma_first_pos, somes};
use fixedbitset::FixedBitSet;

verus! {

broadcast use vstd::laws_eq::group_laws_eq;

/// A graph embedded in a surface: each vertex carries the cyclic order of its half-edges,
/// each edge is made of two half-edges.
pub struct EmbGraph<V = (), HE = (), E = ()> {
    /// (cyclic order of half-edge ids, vertex data)
    pub vertices: Vec<(CyclicOrder<usize>, V)>,
    /// (vertex id, edge id, half-edge data)
    pub half_edges: Vec<(usize, usize, HE)>,
    /// (source half-edge id, target half-edge id, edge data)
    pub edges: Vec<(usize, usize, E)>,
}

impl<V, HE, E> EmbGraph<V, HE, E> {
    /// The number of vertices.
    pub open spec fn nv(self) -> int {
        self.vertices@.len() as int
    }

    /// The number of half-edges.
    pub open spec fn nhe(self) -> int {
        self.half_edges@.len() as int
    }

    /// The number of edges.
    pub open spec fn ne(self) -> int {
        self.edges@.len() as int
    }

    /// The cyclic order of the half-edges at `v`.
    pub open spec fn order(self, v: int) -> Seq<usize> {
        self.vertices@[v].0@
    }

    /// The vertex of half-edge `h`.
    pub open spec fn he_v(self, h: int) -> int {
        self.half_edges@[h].0 as int
    }

    /// The edge of half-edge `h`.
    pub open spec fn he_e(self, h: int) -> int {
        self.half_edges@[h].1 as int
    }

    /// The half-edge of `e` other than `h`.
    pub open spec fn other_end(self, h: int) -> int {
        let e = self.he_e(h);
        if self.edges@[e].0 == h {
            self.edges@[e].1 as int
        } else {
            self.edges@[e].0 as int
        }
    }

    /// Well-formed edges: two distinct half-edges that point back at the edge.
    pub open spec fn wf_edges(self) -> bool {
        forall|e: int| 0 <= e < self.ne() ==> {
            let (a, b, _) = #[trigger] self.edges@[e];
            &&& a < self.nhe()
            &&& b < self.nhe()
            &&& a != b
            &&& self.half_edges@[a as int].1 == e
            &&& self.half_edges@[b as int].1 == e
        }
    }

    /// Well-formed half-edges: at a vertex, in an edge that has them as an end, and in the
    /// cyclic order of their vertex.
    pub open spec fn wf_half_edges(self) -> bool {
        forall|h: int| 0 <= h < self.nhe() ==> {
            let (v, e, _) = #[trigger] self.half_edges@[h];
            &&& v < self.nv()
            &&& e < self.ne()
            &&& (self.edges@[e as int].0 == h || self.edges@[e as int].1 == h)
            &&& self.order(v as int).contains(h as usize)
        }
    }

    /// Well-formed vertices: the cyclic order lists distinct half-edges at the vertex.
    pub open spec fn wf_vertices(self) -> bool {
        forall|v: int| 0 <= v < self.nv() ==> {
            let o = #[trigger] self.order(v);
            &&& forall|i: int| 0 <= i < o.len() ==> #[trigger] o[i] < self.nhe() && self.half_edges@[o[i] as int].0 == v
            &&& forall|i: int, j: int| 0 <= i < j < o.len() ==> o[i] != o[j]
        }
    }

    /// Well-formedness of the incidence structure.
    pub open spec fn wf(self) -> bool {
        &&& self.wf_edges()
        &&& self.wf_half_edges()
        &&& self.wf_vertices()
    }

    /// The part of well-formedness that does not speak of edges: the vertex orders are well
    /// formed, and each half-edge is at a vertex, in its order.
    pub open spec fn wf_at_vertices(self) -> bool {
        &&& self.wf_vertices()
        &&& forall|h: int| 0 <= h < self.nhe() ==> {
            let v = (#[trigger] self.half_edges@[h]).0;
            v < self.nv() && self.order(v as int).contains(h as usize)
        }
    }
}

/// Removing a half-edge `he` other than the last, at vertex `v`, and giving its id to the last
/// one, at vertex `vl`, keeps the vertex part of well-formedness.
proof fn lemma_remove_keeps_vertices<V, HE, E>(g0: EmbGraph<V, HE, E>, g1: EmbGraph<V, HE, E>, g: EmbGraph<V, HE, E>, he: usize, v: int, vl: int)
    requires
        g0.wf_at_vertices(),
        g0.nhe() <= usize::MAX,
        0 <= he < g0.nhe() - 1,
        v == g0.half_edges@[he as int].0,
        vl == g0.half_edges@.last().0,
        g.half_edges@ == g0.half_edges@.update(he as int, g0.half_edges@.last()).drop_last(),
        g1.nv() == g0.nv(),
        g.nv() == g0.nv(),
        g1.order(v) == g0.order(v).remove(first_pos(g0.order(v), he)),
        forall|w: int| 0 <= w < g0.nv() && w != v ==> #[trigger] g1.order(w) == g0.order(w),
        g.order(vl) == g1.order(vl).update(first_pos(g1.order(vl), (g0.nhe() - 1) as usize), he),
        forall|w: int| 0 <= w < g0.nv() && w != vl ==> #[trigger] g.order(w) == g1.order(w),
        forall|w: int, y: usize| 0 <= w < g0.nv() && y != he && y != g0.nhe() - 1 ==>
            (#[trigger] g.order(w).contains(y) <==> g0.order(w).contains(y)),
        g.order(vl).contains(he),
    ensures
        g.wf_at_vertices(),
{
    let last = g0.nhe() - 1;
    let o0 = g0.order(v);
    assert(o0.contains(he));
    lemma_first_pos(o0, he);
    let p = first_pos(o0, he);
    lemma_remove_distinct(o0, p);
    assert(g0.order(vl).contains(last as usize));
    let o1 = g1.order(vl);
    assert(o1.contains(last as usize)) by {
        if vl == v {
            assert(o1 == o0.remove(p));
            assert(o0.contains(last as usize));
            assert(o0[p] == he);
            let y = last as usize;
            assert(y != he);
            assert(o0.contains(y));
            assert(o0.remove(p).contains(y) <==> (o0.contains(y) && y != o0[p]));
            assert(o0.remove(p).contains(y));
        } else {
            assert(o1 == g0.order(vl));
        }
    }
    assert(forall|i: int, j: int| 0 <= i < j < o1.len() ==> o1[i] != o1[j]);
    assert(!o1.contains(he)) by {
        if vl != v {
            if o1.contains(he) {
                let i = choose|i: int| 0 <= i < o1.len() && o1[i] == he;
                assert(g0.half_edges@[he as int].0 == vl);
            }
        }
    }
    lemma_first_pos(o1, last as usize);
    lemma_update_distinct(o1, first_pos(o1, last as usize), he);
    assert forall|w: int| 0 <= w < g.nv() implies {
        let o = #[trigger] g.order(w);
        &&& forall|i: int| 0 <= i < o.len() ==> #[trigger] o[i] < g.nhe() && g.half_edges@[o[i] as int].0 == w
        &&& forall|i: int, j: int| 0 <= i < j < o.len() ==> o[i] != o[j]
    } by {
        let o = g.order(w);
        assert forall|i: int| 0 <= i < o.len() implies #[trigger] o[i] < g.nhe() && g.half_edges@[o[i] as int].0 == w by {
            let x = o[i];
            assert(o.contains(x));
            if x == he {
                if w != vl {
                    assert(g1.order(w).contains(x));
                    if w == v {
                    } else {
                        assert(g0.order(w).contains(x));
                        let k = choose|k: int| 0 <= k < g0.order(w).len() && g0.order(w)[k] == x;
                    }
                }
            } else if x == last as usize {
                if w == vl {
                } else {
                    assert(g1.order(w).contains(x));
                    if w != v {
                        let k = choose|k: int| 0 <= k < g0.order(w).len() && g0.order(w)[k] == x;
                    }
                    assert(g0.order(w).contains(x));
                    let k = choose|k: int| 0 <= k < g0.order(w).len() && g0.order(w)[k] == x;
                    assert(g0.half_edges@[last].0 == w);
                }
            } else {
                assert(g0.order(w).contains(x));
                let k = choose|k: int| 0 <= k < g0.order(w).len() && g0.order(w)[k] == x;
                assert(g0.half_edges@[x as int].0 == w);
                assert(g.half_edges@[x as int] == g0.half_edges@[x as int]);
            }
        }
        if w == vl {
        } else if w == v {
        } else {
            assert(o == g0.order(w));
        }
    }
    assert forall|h: int| 0 <= h < g.nhe() implies {
        let vv = (#[trigger] g.half_edges@[h]).0;
        vv < g.nv() && g.order(vv as int).contains(h as usize)
    } by {
        if h == he {
            assert(g.half_edges@[h] == g0.half_edges@[last]);
        } else {
            assert(g.half_edges@[h] == g0.half_edges@[h]);
            let vv = g0.half_edges@[h].0 as int;
            assert(g0.order(vv).contains(h as usize));
        }
    }
}

/// Removing the last half-edge keeps the vertex part of well-formedness.
proof fn lemma_remove_last_keeps_vertices<V, HE, E>(g0: EmbGraph<V, HE, E>, g: EmbGraph<V, HE, E>, he: usize, v: int)
    requires
        g0.wf_at_vertices(),
        g0.nhe() <= usize::MAX,
        he == g0.nhe() - 1,
        0 <= he,
        v == g0.half_edges@[he as int].0,
        g.half_edges@ == g0.half_edges@.update(he as int, g0.half_edges@.last()).drop_last(),
        g.nv() == g0.nv(),
        g.order(v) == g0.order(v).remove(first_pos(g0.order(v), he)),
        forall|w: int| 0 <= w < g0.nv() && w != v ==> #[trigger] g.order(w) == g0.order(w),
    ensures
        g.wf_at_vertices(),
{
    let o0 = g0.order(v);
    assert(o0.contains(he));
    lemma_first_pos(o0, he);
    lemma_remove_distinct(o0, first_pos(o0, he));
    assert forall|w: int| 0 <= w < g.nv() implies {
        let o = #[trigger] g.order(w);
        &&& forall|i: int| 0 <= i < o.len() ==> #[trigger] o[i] < g.nhe() && g.half_edges@[o[i] as int].0 == w
        &&& forall|i: int, j: int| 0 <= i < j < o.len() ==> o[i] != o[j]
    } by {
        let o = g.order(w);
        assert forall|i: int| 0 <= i < o.len() implies #[trigger] o[i] < g.nhe() && g.half_edges@[o[i] as int].0 == w by {
            let x = o[i];
            assert(o.contains(x));
            assert(g0.order(w).contains(x));
            let k = choose|k: int| 0 <= k < g0.order(w).len() && g0.order(w)[k] == x;
            if x == he {
                assert(g0.half_edges@[he as int].0 == w);
            }
            assert(g.half_edges@[x as int] == g0.half_edges@[x as int]);
        }
    }
    assert forall|h: int| 0 <= h < g.nhe() implies {
        let vv = (#[trigger] g.half_edges@[h]).0;
        vv < g.nv() && g.order(vv as int).contains(h as usize)
    } by {
        assert(g.half_edges@[h] == g0.half_edges@[h]);
        let vv = g0.half_edges@[h].0 as int;
        assert(g0.order(vv).contains(h as usize));
        let k = choose|k: int| 0 <= k < g0.order(vv).len() && g0.order(vv)[k] == h as usize;
        if vv == v {
            assert(h as usize != he);
            assert(g.order(vv).contains(h as usize));
        }
    }
}

/// Changing only the edges keeps the vertex part of well-formedness.
proof fn lemma_same_vertex_part<V, HE, E>(g0: EmbGraph<V, HE, E>, g1: EmbGraph<V, HE, E>)
    requires
        g0.wf(),
        g1.vertices@ == g0.vertices@,
        g1.half_edges@ == g0.half_edges@,
    ensures
        g1.wf_at_vertices(),
{
    assert forall|v: int| 0 <= v < g1.nv() implies #[trigger] g1.order(v) == g0.order(v) by {}
    assert forall|h: int| 0 <= h < g1.nhe() implies {
        let v = (#[trigger] g1.half_edges@[h]).0;
        v < g1.nv() && g1.order(v as int).contains(h as usize)
    } by {
        assert(g1.half_edges@[h] == g0.half_edges@[h]);
    }
}

/// Where half-edge `x` of the old graph goes when `a` and then `b` are removed, each time the
/// last half-edge taking the freed id.
pub open spec fn he_after_removal(m: int, a: int, b: int, x: int) -> int {
    let y = if x == m - 1 { a } else { x };
    if y == m - 2 { b } else { y }
}

/// Some half-edge other than `a` and `b` gets the id `h`.
pub open spec fn kept_source(m: int, a: int, b: int, h: int) -> bool {
    exists|x: int| 0 <= x < m && x != a && x != b && #[trigger] he_after_removal(m, a, b, x) == h
}

/// Where edge `k` of the old graph goes when edge `e` is removed and the last edge takes its id.
pub open spec fn edge_after_removal(n: int, e: int, k: int) -> int {
    if k == n - 1 { e } else { k }
}

/// The edge part of well-formedness after `remove_edge`: `g1` after the edge is taken out,
/// `g2` and `g3` after each of its half-edges is removed, `g` after the moved edge's
/// half-edges are pointed at its new id.
#[verifier::rlimit(100)]
proof fn lemma_removed_edge_wf<V, HE, E>(
    g0: EmbGraph<V, HE, E>,
    g1: EmbGraph<V, HE, E>,
    g2: EmbGraph<V, HE, E>,
    g3: EmbGraph<V, HE, E>,
    g: EmbGraph<V, HE, E>,
    e: int,
    a: int,
    b: int,
)
    requires
        g0.wf(),
        g0.remove_edge_ok(e),
        a == g0.edges@[e].0,
        b == g0.edges@[e].1,
        g1.edges@ == g0.edges@.update(e, g0.edges@.last()).drop_last(),
        g1.half_edges@ == g0.half_edges@,
        g2.half_edges@ == g1.half_edges@.update(a, g1.half_edges@.last()).drop_last(),
        g2.ne() == g1.ne(),
        forall|k: int| 0 <= k < g1.ne() && k != g1.half_edges@.last().1 ==> #[trigger] g2.edges@[k] == g1.edges@[k],
        a != g1.nhe() - 1 ==> {
            let k = g1.half_edges@.last().1 as int;
            let t = g1.edges@[k];
            g2.edges@[k] == if t.0 == g1.nhe() - 1 { (a as usize, t.1, t.2) } else { (t.0, a as usize, t.2) }
        },
        a == g1.nhe() - 1 ==> g2.edges@ == g1.edges@,
        g3.half_edges@ == g2.half_edges@.update(b, g2.half_edges@.last()).drop_last(),
        g3.ne() == g2.ne(),
        forall|k: int| 0 <= k < g2.ne() && k != g2.half_edges@.last().1 ==> #[trigger] g3.edges@[k] == g2.edges@[k],
        b != g2.nhe() - 1 ==> {
            let k = g2.half_edges@.last().1 as int;
            let t = g2.edges@[k];
            g3.edges@[k] == if t.0 == g2.nhe() - 1 { (b as usize, t.1, t.2) } else { (t.0, b as usize, t.2) }
        },
        b == g2.nhe() - 1 ==> g3.edges@ == g2.edges@,
        g3.wf_at_vertices(),
        g.edges@ == g3.edges@,
        g.vertices@ == g3.vertices@,
        g.nhe() == g3.nhe(),
        forall|h: int| 0 <= h < g3.nhe() ==> (#[trigger] g.half_edges@[h]).0 == g3.half_edges@[h].0
            && g.half_edges@[h].1 == (if e != g0.ne() - 1 && (h == g3.edges@[e].0 || h == g3.edges@[e].1) { e as usize } else { g3.half_edges@[h].1 }),
    ensures
        g.wf(),
{
    let m = g0.nhe();
    let n = g0.ne();
    let ll = n - 1;
    assert(g0.half_edges@[a].1 == e && g0.half_edges@[b].1 == e);
    assert(a != b);
    assert(b != m - 1);
    // the half-edges: each one that stays is found, renamed, in `g3`
    assert forall|x: int| 0 <= x < m && x != a && x != b implies
        #[trigger] g3.half_edges@[he_after_removal(m, a, b, x)] == g0.half_edges@[x] by {
        let y = if x == m - 1 { a } else { x };
        assert(g2.half_edges@[y] == g0.half_edges@[x]);
        assert(y != b && y < m - 1);
    }
    // the half-edge ids that are last in turn, and their edges
    let ka = g0.half_edges@[m - 1].1 as int;
    let z = if a == m - 2 { m - 1 } else { m - 2 };
    assert(b != m - 2 ==> z != a && z != b);
    assert(b != m - 2 ==> g2.half_edges@.last() == g0.half_edges@[z]);
    let kb = g0.half_edges@[z].1 as int;
    assert(a != m - 1 ==> ka != e && ka != ll);
    assert(b != m - 2 ==> kb != e && kb != ll);
    // the edges: each one that stays is found, renamed, in `g3`
    assert forall|k: int| 0 <= k < n && k != e implies {
        let t = #[trigger] g3.edges@[edge_after_removal(n, e, k)];
        &&& t.0 == he_after_removal(m, a, b, g0.edges@[k].0 as int)
        &&& t.1 == he_after_removal(m, a, b, g0.edges@[k].1 as int)
    } by {
        let k1 = edge_after_removal(n, e, k);
        let x0 = g0.edges@[k].0 as int;
        let y0 = g0.edges@[k].1 as int;
        assert(g0.half_edges@[x0].1 == k && g0.half_edges@[y0].1 == k);
        assert(x0 != a && x0 != b && y0 != a && y0 != b);
        assert(g1.edges@[k1] == g0.edges@[k]);
        let ax = if x0 == m - 1 { a } else { x0 };
        let ay = if y0 == m - 1 { a } else { y0 };
        assert(g2.edges@[k1].0 == ax && g2.edges@[k1].1 == ay) by {
            if a != m - 1 && k1 == ka {
                assert(k == ka);
                assert(g0.edges@[ka].0 == m - 1 || g0.edges@[ka].1 == m - 1);
            } else if a != m - 1 {
                assert(k1 != ka);
                assert(x0 != m - 1 && y0 != m - 1);
            }
        }
        if b != m - 2 && k1 == kb {
            assert(k == kb);
            assert(g0.edges@[kb].0 == z || g0.edges@[kb].1 == z);
            assert(ax == m - 2 || ay == m - 2);
            assert(ax != ay);
        } else if b != m - 2 {
            assert(k != kb);
            assert(x0 != z && y0 != z);
            assert(ax != m - 2 && ay != m - 2);
            assert(g3.edges@[k1] == g2.edges@[k1]);
        }
    }
    // renaming is one to one onto the new ids
    assert forall|x1: int, x2: int| 0 <= x1 < m && x1 != a && x1 != b && 0 <= x2 < m && x2 != a && x2 != b && x1 != x2
        implies #[trigger] he_after_removal(m, a, b, x1) != #[trigger] he_after_removal(m, a, b, x2) by {}
    assert forall|x: int| 0 <= x < m && x != a && x != b implies 0 <= #[trigger] he_after_removal(m, a, b, x) < m - 2 by {}
    let p0 = g0.edges@[ll].0 as int;
    let q0 = g0.edges@[ll].1 as int;
    assert(e != ll ==> p0 != a && p0 != b && q0 != a && q0 != b) by {
        if e != ll {
            assert(g0.half_edges@[p0].1 == ll && g0.half_edges@[q0].1 == ll);
        }
    }
    assert(e != ll ==> g3.edges@[e].0 == he_after_removal(m, a, b, p0) && g3.edges@[e].1 == he_after_removal(m, a, b, q0)) by {
        if e != ll {
            assert(edge_after_removal(n, e, ll) == e);
        }
    }
    // every half-edge that stays keeps its vertex and points at its edge's new id
    assert forall|x: int| 0 <= x < m && x != a && x != b implies
        (#[trigger] g.half_edges@[he_after_removal(m, a, b, x)]).0 == g0.half_edges@[x].0
        && g.half_edges@[he_after_removal(m, a, b, x)].1 == edge_after_removal(n, e, g0.half_edges@[x].1 as int) by {
        let h = he_after_removal(m, a, b, x);
        assert(g3.half_edges@[h] == g0.half_edges@[x]);
        let k = g0.half_edges@[x].1 as int;
        assert(g0.edges@[k].0 == x || g0.edges@[k].1 == x);
        if e != ll {
            if x == p0 || x == q0 {
                assert(g0.half_edges@[x].1 == ll);
            } else {
                assert(h != g3.edges@[e].0 && h != g3.edges@[e].1);
                assert(k != ll);
            }
        }
    }
    // each new half-edge id comes from a half-edge that stays
    assert forall|h: int| 0 <= h < m - 2 implies #[trigger] kept_source(m, a, b, h) by {
        let y = if h == b { m - 2 } else { h };
        let x = if y == a { m - 1 } else { y };
        assert(he_after_removal(m, a, b, x) == h);
    }
    assert(g.nhe() == m - 2);
    assert(g.ne() == n - 1);
    assert(g.wf_edges()) by {
        assert forall|k1: int| 0 <= k1 < g.ne() implies {
            let (p, q, _) = #[trigger] g.edges@[k1];
            &&& p < g.nhe()
            &&& q < g.nhe()
            &&& p != q
            &&& g.half_edges@[p as int].1 == k1
            &&& g.half_edges@[q as int].1 == k1
        } by {
            let k = if k1 == e { ll } else { k1 };
            assert(k != e);
            assert(edge_after_removal(n, e, k) == k1);
            let x0 = g0.edges@[k].0 as int;
            let y0 = g0.edges@[k].1 as int;
            assert(g0.half_edges@[x0].1 == k && g0.half_edges@[y0].1 == k);
            assert(x0 != a && x0 != b && y0 != a && y0 != b);
            assert(g.edges@[k1] == g3.edges@[k1]);
            assert(g.half_edges@[he_after_removal(m, a, b, x0)].1 == edge_after_removal(n, e, k));
            assert(g.half_edges@[he_after_removal(m, a, b, y0)].1 == edge_after_removal(n, e, k));
        }
    }
    assert(g.wf_half_edges()) by {
        assert forall|h: int| 0 <= h < g.nhe() implies {
            let (v, k1, _) = #[trigger] g.half_edges@[h];
            &&& v < g.nv()
            &&& k1 < g.ne()
            &&& (g.edges@[k1 as int].0 == h || g.edges@[k1 as int].1 == h)
            &&& g.order(v as int).contains(h as usize)
        } by {
            assert(kept_source(m, a, b, h));
            let x = choose|x: int| 0 <= x < m && x != a && x != b && #[trigger] he_after_removal(m, a, b, x) == h;
            let k = g0.half_edges@[x].1 as int;
            assert(g0.edges@[k].0 == x || g0.edges@[k].1 == x);
            assert(k != e);
            assert(g.half_edges@[h].1 == edge_after_removal(n, e, k));
            assert(g.edges@[edge_after_removal(n, e, k)] == g3.edges@[edge_after_removal(n, e, k)]);
            assert(g3.half_edges@[h].0 < g3.nv() && g3.order(g3.half_edges@[h].0 as int).contains(h as usize));
            assert(g.order(g.half_edges@[h].0 as int) == g3.order(g3.half_edges@[h].0 as int));
        }
    }
    assert(g.wf_vertices()) by {
        assert forall|v: int| 0 <= v < g.nv() implies {
            let o = #[trigger] g.order(v);
            &&& forall|i: int| 0 <= i < o.len() ==> #[trigger] o[i] < g.nhe() && g.half_edges@[o[i] as int].0 == v
            &&& forall|i: int, j: int| 0 <= i < j < o.len() ==> o[i] != o[j]
        } by {
            assert(g.order(v) == g3.order(v));
            let o = g3.order(v);
            assert forall|i: int| 0 <= i < o.len() implies #[trigger] o[i] < g.nhe() && g.half_edges@[o[i] as int].0 == v by {
                assert(o[i] < g3.nhe() && g3.half_edges@[o[i] as int].0 == v);
            }
        }
    }
}

/// Removing the entry at `p` from a sequence without repetitions leaves one without
/// repetitions that holds the other entries.
proof fn lemma_remove_distinct(o: Seq<usize>, p: int)
    requires
        0 <= p < o.len(),
        forall|i: int, j: int| 0 <= i < j < o.len() ==> o[i] != o[j],
    ensures
        forall|i: int, j: int| 0 <= i < j < o.remove(p).len() ==> o.remove(p)[i] != o.remove(p)[j],
        forall|y: usize| #[trigger] o.remove(p).contains(y) <==> (o.contains(y) && y != o[p]),
{
    let r = o.remove(p);
    assert forall|i: int, j: int| 0 <= i < j < r.len() implies r[i] != r[j] by {
        let ii = if i < p { i } else { i + 1 };
        let jj = if j < p { j } else { j + 1 };
        assert(r[i] == o[ii] && r[j] == o[jj]);
    }
    assert forall|y: usize| r.contains(y) <==> (o.contains(y) && y != o[p]) by {
        if r.contains(y) {
            let i = choose|i: int| 0 <= i < r.len() && r[i] == y;
            let ii = if i < p { i } else { i + 1 };
            assert(o[ii] == y);
        }
        if o.contains(y) && y != o[p] {
            let k = choose|k: int| 0 <= k < o.len() && o[k] == y;
            if k < p { assert(r[k] == y); } else { assert(r[k - 1] == y); }
        }
    }
}

/// Setting the entry at `q` of a sequence without repetitions to a value it does not hold
/// leaves one without repetitions.
proof fn lemma_update_distinct(o: Seq<usize>, q: int, z: usize)
    requires
        0 <= q < o.len(),
        forall|i: int, j: int| 0 <= i < j < o.len() ==> o[i] != o[j],
        !o.contains(z),
    ensures
        forall|i: int, j: int| 0 <= i < j < o.update(q, z).len() ==> o.update(q, z)[i] != o.update(q, z)[j],
        forall|y: usize| #[trigger] o.update(q, z).contains(y) <==> (y == z || (o.contains(y) && y != o[q])),
{
    let r = o.update(q, z);
    assert forall|i: int, j: int| 0 <= i < j < r.len() implies r[i] != r[j] by {
        if i == q { assert(o[j] == r[j]); } else if j == q { assert(o[i] == r[i]); }
    }
    assert forall|y: usize| r.contains(y) <==> (y == z || (o.contains(y) && y != o[q])) by {
        if r.contains(y) {
            let i = choose|i: int| 0 <= i < r.len() && r[i] == y;
            if i != q { assert(o[i] == y); }
        }
        if y == z {
            assert(r[q] == y);
        } else if o.contains(y) && y != o[q] {
            let k = choose|k: int| 0 <= k < o.len() && o[k] == y;
            assert(r[k] == y);
        }
    }
}

proof fn lemma_xor_other(h: usize, a: usize, b: usize)
    ensures
        h == a ==> h ^ a ^ b == b,
        h == b ==> h ^ a ^ b == a,
{
    assert(h == a ==> h ^ a ^ b == b) by (bit_vector);
    assert(h == b ==> h ^ a ^ b == a) by (bit_vector);
}

impl<V, HE, E> EmbGraph<V, HE, E> {
    /// `n` vertices, with the data that `v_data` gives for each, and no edges.
    pub fn new<F: Fn(usize) -> V>(n: usize, v_data: F) -> (r: Self)
        requires
            forall|k: usize| k < n ==> call_requires(v_data, (k,)),
        ensures
            r.wf(),
            r.nv() == n,
            r.nhe() == 0,
            r.ne() == 0,
            forall|k: int| 0 <= k < n ==> (#[trigger] r.vertices@[k]).0@ == Seq::<usize>::empty()
                && call_ensures(v_data, (k as usize,), r.vertices@[k].1),
    {
        let mut vertices: Vec<(CyclicOrder<usize>, V)> = Vec::new();
        let mut k: usize = 0;
        while k < n
            invariant
                k <= n,
                vertices.len() == k,
                forall|j: usize| j < n ==> call_requires(v_data, (j,)),
                forall|j: int| 0 <= j < k ==> (#[trigger] vertices@[j]).0@ == Seq::<usize>::empty()
                    && call_ensures(v_data, (j as usize,), vertices@[j].1),
            decreases n - k,
        {
            let d = v_data(k);
            let ghost before = vertices@;
            vertices.push((CyclicOrder { data: Vec::new() }, d));
            proof {
                assert forall|j: int| 0 <= j < k + 1 implies (#[trigger] vertices@[j]).0@ == Seq::<usize>::empty()
                    && call_ensures(v_data, (j as usize,), vertices@[j].1) by {
                    if j < k {
                        assert(vertices@[j] == before[j]);
                    }
                }
            }
            k = k + 1;
        }
        let r = EmbGraph { vertices, half_edges: Vec::new(), edges: Vec::new() };
        proof {
            assert forall|v: int| 0 <= v < r.nv() implies {
                let o = #[trigger] r.order(v);
                &&& forall|i: int| 0 <= i < o.len() ==> #[trigger] o[i] < r.nhe() && r.half_edges@[o[i] as int].0 == v
                &&& forall|i: int, j: int| 0 <= i < j < o.len() ==> o[i] != o[j]
            } by {
                assert(r.vertices@[v].0@ == Seq::<usize>::empty());
            }
        }
        r
    }

    /// Replaces the data of vertex `v`; returns the old data.
    pub fn update_vertex(&mut self, v: usize, v_data: V) -> (r: V)
        requires
            v < old(self).nv(),
        ensures
            r == old(self).vertices@[v as int].1,
            final(self).vertices@ == old(self).vertices@.update(v as int, (old(self).vertices@[v as int].0, v_data)),
            final(self).half_edges == old(self).half_edges,
            final(self).edges == old(self).edges,
    {
        let mut d = v_data;
        core::mem::swap(&mut self.vertices[v].1, &mut d);
        d
    }

    /// Replaces the data of half-edge `he`; returns the old data.
    pub fn update_half_edge(&mut self, he: usize, he_data: HE) -> (r: HE)
        requires
            he < old(self).nhe(),
        ensures
            r == old(self).half_edges@[he as int].2,
            final(self).half_edges@ == old(self).half_edges@.update(he as int,
                (old(self).half_edges@[he as int].0, old(self).half_edges@[he as int].1, he_data)),
            final(self).vertices == old(self).vertices,
            final(self).edges == old(self).edges,
    {
        let mut d = he_data;
        core::mem::swap(&mut self.half_edges[he].2, &mut d);
        d
    }

    /// Replaces the data of edge `e`; returns the old data.
    pub fn update_edge(&mut self, e: usize, e_data: E) -> (r: E)
        requires
            e < old(self).ne(),
        ensures
            r == old(self).edges@[e as int].2,
            final(self).edges@ == old(self).edges@.update(e as int,
                (old(self).edges@[e as int].0, old(self).edges@[e as int].1, e_data)),
            final(self).vertices == old(self).vertices,
            final(self).half_edges == old(self).half_edges,
    {
        let mut d = e_data;
        core::mem::swap(&mut self.edges[e].2, &mut d);
        d
    }

    /// The data of vertex `v`.
    pub fn v(&self, v: usize) -> (r: &V)
        requires
            v < self.nv(),
        ensures
            *r == self.vertices@[v as int].1,
    {
        &self.vertices[v].1
    }

    /// The data of half-edge `he`.
    pub fn he(&self, he: usize) -> (r: &HE)
        requires
            he < self.nhe(),
        ensures
            *r == self.half_edges@[he as int].2,
    {
        &self.half_edges[he].2
    }

    /// The data of edge `e`.
    pub fn e(&self, e: usize) -> (r: &E)
        requires
            e < self.ne(),
        ensures
            *r == self.edges@[e as int].2,
    {
        &self.edges[e].2
    }

    /// The vertex of half-edge `he`.
    pub fn he_vertex(&self, he: usize) -> (r: usize)
        requires
            he < self.nhe(),
        ensures
            r == self.he_v(he as int),
    {
        self.half_edges[he].0
    }

    /// The edge of half-edge `he`.
    pub fn he_edge(&self, he: usize) -> (r: usize)
        requires
            he < self.nhe(),
        ensures
            r == self.he_e(he as int),
    {
        self.half_edges[he].1
    }

    /// The other half-edge of the edge of `he`.
    pub fn he_other(&self, he: usize) -> (r: usize)
        requires
            self.wf(),
            he < self.nhe(),
        ensures
            r == self.other_end(he as int),
            r < self.nhe(),
            r != he,
            self.he_e(r as int) == self.he_e(he as int),
    {
        let e = self.he_edge(he);
        let (u_he, v_he) = (self.edges[e].0, self.edges[e].1);
        proof {
            lemma_xor_other(he, u_he, v_he);
            let t = self.half_edges@[he as int];
            let ed = self.edges@[e as int];
        }
        he ^ u_he ^ v_he
    }

    /// The half-edge that follows `he` round its face: the successor of the other half-edge
    /// of its edge in the cyclic order at that half-edge's vertex.
    pub fn he_next(&self, he: usize) -> (r: usize)
        requires
            self.wf(),
            he < self.nhe(),
        ensures
            ({
                let o = self.other_end(he as int);
                let ord = self.order(self.he_v(o));
                r == ord[(first_pos(ord, o as usize) + 1) % (ord.len() as int)]
            }),
            r < self.nhe(),
    {
        let he_other = self.he_other(he);
        let v_other = self.he_vertex(he_other);
        proof {
            let t = self.half_edges@[he_other as int];
            let o = self.order(v_other as int);
        }
        let r = self.vertices[v_other].0.next(he_other);
        proof {
            let o = self.order(v_other as int);
            let p = (first_pos(o, he_other) + 1) % (o.len() as int);
            assert(0 <= p < o.len());
        }
        r
    }

    /// The number of vertices.
    pub fn num_verts(&self) -> (r: usize)
        ensures
            r == self.nv(),
    {
        self.vertices.len()
    }

    /// The number of edges.
    pub fn num_edges(&self) -> (r: usize)
        ensures
            r == self.ne(),
    {
        self.edges.len()
    }

    /// The number of half-edges at `v`.
    pub fn vertex_degree(&self, v: usize) -> (r: usize)
        requires
            v < self.nv(),
        ensures
            r == self.order(v as int).len(),
    {
        self.vertices[v].0.len()
    }

    /// The neighbour across each half-edge at `v`, in the cyclic order.
    pub fn neighbours(&self, v: usize) -> (r: Vec<usize>)
        requires
            self.wf(),
            v < self.nv(),
        ensures
            r.len() == self.order(v as int).len(),
            forall|i: int| 0 <= i < r.len() ==> r@[i] == self.he_v(self.other_end(#[trigger] self.order(v as int)[i] as int)),
    {
        let mut r: Vec<usize> = Vec::new();
        let ord = &self.vertices[v].0.data;
        let mut i: usize = 0;
        while i < ord.len()
            invariant
                self.wf(),
                v < self.nv(),
                *ord == self.vertices@[v as int].0.data,
                i <= ord.len(),
                r.len() == i,
                forall|j: int| 0 <= j < i ==> r@[j] == self.he_v(self.other_end(#[trigger] self.order(v as int)[j] as int)),
            decreases ord.len() - i,
        {
            let he = ord[i];
            proof {
                let o = self.order(v as int);
                assert(o[i as int] == he);
            }
            let he2 = self.he_other(he);
            r.push(self.half_edges[he2].0);
            i = i + 1;
        }
        r
    }

    /// Adds a vertex with no half-edges; returns its id.
    pub fn add_vertex(&mut self, v_data: V) -> (r: usize)
        requires
            old(self).wf(),
        ensures
            final(self).wf(),
            r == old(self).nv(),
            final(self).vertices@ == old(self).vertices@.push((final(self).vertices@[r as int].0, v_data)),
            final(self).order(r as int) == Seq::<usize>::empty(),
            final(self).half_edges == old(self).half_edges,
            final(self).edges == old(self).edges,
    {
        let v = self.vertices.len();
        self.vertices.push((CyclicOrder { data: Vec::new() }, v_data));
        proof {
            assert forall|w: int| 0 <= w < self.nv() implies {
                let o = #[trigger] self.order(w);
                &&& forall|i: int| 0 <= i < o.len() ==> #[trigger] o[i] < self.nhe() && self.half_edges@[o[i] as int].0 == w
                &&& forall|i: int, j: int| 0 <= i < j < o.len() ==> o[i] != o[j]
            } by {
                if w < v {
                    assert(self.order(w) == old(self).order(w));
                }
            }
            assert forall|h: int| 0 <= h < self.nhe() implies {
                let (x, e, _) = #[trigger] self.half_edges@[h];
                &&& x < self.nv()
                &&& e < self.ne()
                &&& (self.edges@[e as int].0 == h || self.edges@[e as int].1 == h)
                &&& self.order(x as int).contains(h as usize)
            } by {
                let x = self.half_edges@[h].0 as int;
                assert(old(self).order(x).contains(h as usize));
                assert(self.order(x) == old(self).order(x));
            }
        }
        v
    }

    /// Adds an edge from `u` to `v`: its half-edge at `u` goes into the cyclic order at `u`
    /// just after `after_u_he` (last if `None`), and likewise at `v`. The new half-edges get
    /// the next two ids, the edge the next id.
    pub fn add_edge(
        &mut self,
        u: usize,
        after_u_he: Option<usize>,
        u_he_data: HE,
        v: usize,
        after_v_he: Option<usize>,
        v_he_data: HE,
        e_data: E,
    )
        requires
            old(self).wf(),
            u < old(self).nv(),
            v < old(self).nv(),
            old(self).nhe() + 2 <= usize::MAX,
            after_u_he matches Some(a) ==> old(self).order(u as int).contains(a),
            after_v_he matches Some(a) ==> old(self).order(v as int).contains(a)
                || (u == v && a == old(self).nhe()),
        ensures
            final(self).wf(),
            final(self).half_edges@ == old(self).half_edges@.push((u, old(self).ne() as usize, u_he_data))
                .push((v, old(self).ne() as usize, v_he_data)),
            final(self).edges@ == old(self).edges@.push((old(self).nhe() as usize, (old(self).nhe() + 1) as usize, e_data)),
            final(self).nv() == old(self).nv(),
            forall|w: int| 0 <= w < old(self).nv() ==> (#[trigger] final(self).vertices@[w]).1 == old(self).vertices@[w].1,
            forall|w: int| 0 <= w < old(self).nv() && w != u && w != v ==> #[trigger] final(self).order(w) == old(self).order(w),
            u != v ==> final(self).order(u as int) == inserted_after(old(self).order(u as int), old(self).nhe() as usize, after_u_he),
            u != v ==> final(self).order(v as int) == inserted_after(old(self).order(v as int), (old(self).nhe() + 1) as usize, after_v_he),
            u == v ==> final(self).order(u as int) == inserted_after(
                inserted_after(old(self).order(u as int), old(self).nhe() as usize, after_u_he),
                (old(self).nhe() + 1) as usize,
                after_v_he,
            ),
    {
        let u_he = self.half_edges.len();
        let v_he = u_he + 1;
        let e = self.edges.len();
        assert(e < usize::MAX) by {
            if e > 0 {
                assert(self.edges@[0].0 < self.nhe());
                lemma_edges_bound(*self);
            }
        }
        let ghost g0 = *self;
        proof {
            assert forall|w: int| 0 <= w < self.nv() implies !(#[trigger] self.order(w)).contains(u_he) && !self.order(w).contains(v_he) by {
                let o = self.order(w);
                if o.contains(u_he) {
                    let i = choose|i: int| 0 <= i < o.len() && o[i] == u_he;
                }
                if o.contains(v_he) {
                    let i = choose|i: int| 0 <= i < o.len() && o[i] == v_he;
                }
            }
        }
        self.vertices[u].0.insert(u_he, after_u_he);
        let ghost g1 = *self;
        proof {
            lemma_insert_after(g0.order(u as int), u_he, after_u_he);
        }
        self.vertices[v].0.insert(v_he, after_v_he);
        let ghost g2 = *self;
        proof {
            lemma_insert_after(g1.order(v as int), v_he, after_v_he);
        }
        self.half_edges.push((u, e, u_he_data));
        self.half_edges.push((v, e, v_he_data));
        self.edges.push((u_he, v_he, e_data));
        proof {
            assert forall|w: int| 0 <= w < g0.nv() && w != u && w != v implies #[trigger] self.order(w) == g0.order(w) by {
                assert(self.vertices@[w] == g0.vertices@[w]);
            }
            assert forall|w: int| 0 <= w < g0.nv() implies (#[trigger] self.vertices@[w]).1 == g0.vertices@[w].1 by {}
            // every order holds, besides the old half-edges at the vertex, at most the new ones
            assert forall|w: int, x: usize| 0 <= w < self.nv() && #[trigger] self.order(w).contains(x) implies
                g0.order(w).contains(x) || (x == u_he && w == u) || (x == v_he && w == v) by {
                if w != u && w != v {
                    assert(self.order(w) == g0.order(w));
                }
            }
            assert forall|w: int| 0 <= w < self.nv() implies !(#[trigger] self.order(w)).contains(u_he) || w == u by {}
            assert forall|e2: int| 0 <= e2 < self.ne() implies {
                let (a, b, _) = #[trigger] self.edges@[e2];
                &&& a < self.nhe()
                &&& b < self.nhe()
                &&& a != b
                &&& self.half_edges@[a as int].1 == e2
                &&& self.half_edges@[b as int].1 == e2
            } by {
                if e2 < e {
                    assert(self.edges@[e2] == g0.edges@[e2]);
                    let (a, b, _) = g0.edges@[e2];
                    assert(self.half_edges@[a as int] == g0.half_edges@[a as int]);
                    assert(self.half_edges@[b as int] == g0.half_edges@[b as int]);
                }
            }
            assert forall|h: int| 0 <= h < self.nhe() implies {
                let (x, e2, _) = #[trigger] self.half_edges@[h];
                &&& x < self.nv()
                &&& e2 < self.ne()
                &&& (self.edges@[e2 as int].0 == h || self.edges@[e2 as int].1 == h)
                &&& self.order(x as int).contains(h as usize)
            } by {
                if h < u_he {
                    assert(self.half_edges@[h] == g0.half_edges@[h]);
                    let (x, e2, _) = g0.half_edges@[h];
                    assert(self.edges@[e2 as int] == g0.edges@[e2 as int]);
                    assert(g0.order(x as int).contains(h as usize));
                    if x as int == u && x as int == v {
                        assert(g1.order(x as int).contains(h as usize));
                    } else if x as int == u {
                        assert(g1.order(x as int).contains(h as usize));
                        assert(self.order(x as int) == g1.order(x as int));
                    } else if x as int == v {
                        assert(g1.order(x as int) == g0.order(x as int));
                    } else {
                        assert(self.order(x as int) == g0.order(x as int));
                    }
                } else if h == u_he {
                    assert(g1.order(u as int).contains(u_he));
                    if u != v {
                        assert(self.order(u as int) == g1.order(u as int));
                    }
                } else {
                    assert(self.order(v as int).contains(v_he));
                }
            }
            assert forall|w: int| 0 <= w < self.nv() implies {
                let o = #[trigger] self.order(w);
                &&& forall|i: int| 0 <= i < o.len() ==> #[trigger] o[i] < self.nhe() && self.half_edges@[o[i] as int].0 == w
                &&& forall|i: int, j: int| 0 <= i < j < o.len() ==> o[i] != o[j]
            } by {
                let o = self.order(w);
                assert forall|i: int| 0 <= i < o.len() implies #[trigger] o[i] < self.nhe() && self.half_edges@[o[i] as int].0 == w by {
                    let x = o[i];
                    assert(o.contains(x));
                    if g0.order(w).contains(x) {
                        let k = choose|k: int| 0 <= k < g0.order(w).len() && g0.order(w)[k] == x;
                        assert(g0.half_edges@[x as int].0 == w);
                        assert(self.half_edges@[x as int] == g0.half_edges@[x as int]);
                    }
                }
                if w == u && w == v {
                } else if w == u {
                    assert(self.order(w) == g1.order(w));
                } else if w == v {
                    assert(g1.order(w) == g0.order(w));
                } else {
                    assert(self.order(w) == g0.order(w));
                }
            }
        }
    }
}

impl<V, HE, E> EmbGraph<V, HE, E> {
    /// `remove_half_edge(he)` does not panic: `he` is in the order of its vertex, and when
    /// the last half-edge moves into its place, that one is in the order of its vertex and an
    /// end of an existing edge.
    pub open spec fn remove_half_edge_ok(self, he: int) -> bool {
        let last = self.nhe() - 1;
        let x = self.half_edges@[last];
        &&& 0 <= he < self.nhe()
        &&& self.he_v(he) < self.nv()
        &&& self.order(self.he_v(he)).contains(he as usize)
        &&& he != last ==> {
            &&& x.0 < self.nv()
            &&& x.1 < self.ne()
            &&& (self.edges@[x.1 as int].0 == last || self.edges@[x.1 as int].1 == last)
            &&& (x.0 == self.he_v(he) ==> exists|i: int| 0 <= i < self.order(x.0 as int).len() && self.order(x.0 as int)[i] == last && i != first_pos(self.order(x.0 as int), he as usize))
            &&& (x.0 != self.he_v(he) ==> self.order(x.0 as int).contains(last as usize))
        }
    }

    /// `remove_edge(e)` does not panic. Its two half-edges `a` and `b` are removed in turn, and
    /// each time the last half-edge moves into the freed place; the edge record of the moved
    /// half-edge must then still be in range. (For the graphs that `build` and `add_edge`
    /// make, where `a < b` and the last half-edge belongs to the last edge, this never holds.)
    pub open spec fn remove_edge_ok(self, e: int) -> bool {
        let m = self.nhe();
        let n = self.ne();
        let a = self.edges@[e].0 as int;
        let b = self.edges@[e].1 as int;
        &&& 0 <= e < n
        &&& m >= 2
        &&& if a == m - 1 {
            b == m - 2 || self.he_e(m - 2) != n - 1 || e == n - 1
        } else {
            &&& b != m - 1
            &&& (self.he_e(m - 1) != n - 1 || e == n - 1)
            &&& (b == m - 2 || a == m - 2 || self.he_e(m - 2) != n - 1 || e == n - 1)
        }
    }

    /// Removes half-edge `he` from the lists; the last half-edge takes its id.
    fn remove_half_edge(&mut self, he: usize) -> (r: HE)
        requires
            old(self).remove_half_edge_ok(he as int),
        ensures
            r == old(self).half_edges@[he as int].2,
            final(self).half_edges@ == old(self).half_edges@.update(he as int, old(self).half_edges@.last()).drop_last(),
            final(self).nv() == old(self).nv(),
            final(self).ne() == old(self).ne(),
            forall|w: int| 0 <= w < old(self).nv() ==> (#[trigger] final(self).vertices@[w]).1 == old(self).vertices@[w].1,
            forall|w: int, y: usize| 0 <= w < old(self).nv() && y != he && y != old(self).nhe() - 1 ==>
                (#[trigger] final(self).order(w).contains(y) <==> old(self).order(w).contains(y)),
            he != old(self).nhe() - 1 ==> final(self).order(old(self).half_edges@.last().0 as int).contains(he),
            forall|k: int| 0 <= k < old(self).ne() && k != old(self).half_edges@.last().1 ==> #[trigger] final(self).edges@[k] == old(self).edges@[k],
            he != old(self).nhe() - 1 ==> {
                let k = old(self).half_edges@.last().1 as int;
                let t = old(self).edges@[k];
                final(self).edges@[k] == if t.0 == old(self).nhe() - 1 { (he, t.1, t.2) } else { (t.0, he, t.2) }
            },
            he == old(self).nhe() - 1 ==> final(self).edges@ == old(self).edges@,
            old(self).wf_at_vertices() ==> final(self).wf_at_vertices(),
    {
        let he_last = self.half_edges.len() - 1;
        let ghost g0 = *self;
        let (v, _, he_data) = self.half_edges.swap_remove(he);
        proof {
            lemma_first_pos(g0.order(v as int), he);
        }
        self.vertices[v].0.remove(he);
        let ghost g1 = *self;
        proof {
            assert forall|w: int, y: usize| 0 <= w < g0.nv() && y != he implies
                (#[trigger] g1.order(w).contains(y) <==> g0.order(w).contains(y)) by {
                if w == v {
                    let o = g0.order(w);
                    let p = first_pos(o, he);
                    if o.contains(y) {
                        let k = choose|k: int| 0 <= k < o.len() && o[k] == y;
                        if k < p { assert(g1.order(w)[k] == y); } else { assert(k != p); assert(g1.order(w)[k - 1] == y); }
                    }
                    if g1.order(w).contains(y) {
                        let k = choose|k: int| 0 <= k < g1.order(w).len() && g1.order(w)[k] == y;
                        if k < p { assert(o[k] == y); } else { assert(o[k + 1] == y); }
                    }
                } else {
                    assert(g1.vertices@[w] == g0.vertices@[w]);
                }
            }
        }
        if he != he_last {
            let v_last = self.he_vertex(he);
            let e_last = self.he_edge(he);
            proof {
                let o = g0.order(v_last as int);
                if v_last == v {
                    let i = choose|i: int| 0 <= i < o.len() && o[i] == he_last && i != first_pos(o, he);
                    let p = first_pos(o, he);
                    if i < p { assert(g1.order(v as int)[i] == he_last); } else { assert(g1.order(v as int)[i - 1] == he_last); }
                } else {
                    assert(g1.order(v_last as int) == o);
                }
            }
            let ghost g2a = *self;
            self.vertices[v_last].0.replace(he_last, he);
            let ghost g2 = *self;
            proof {
                let o = g2a.order(v_last as int);
                lemma_first_pos(o, he_last);
                assert forall|w: int, y: usize| 0 <= w < g0.nv() && y != he && y != he_last implies
                    (#[trigger] g2.order(w).contains(y) <==> g0.order(w).contains(y)) by {
                    if w == v_last {
                        let p = first_pos(o, he_last);
                        if o.contains(y) {
                            let k = choose|k: int| 0 <= k < o.len() && o[k] == y;
                            assert(g2.order(w)[k] == y);
                        }
                        if g2.order(w).contains(y) {
                            let k = choose|k: int| 0 <= k < g2.order(w).len() && g2.order(w)[k] == y;
                            assert(o[k] == y);
                        }
                        assert(g1.order(w).contains(y) <==> g0.order(w).contains(y));
                    } else {
                        assert(g2.vertices@[w] == g1.vertices@[w]);
                        assert(g1.order(w).contains(y) <==> g0.order(w).contains(y));
                    }
                }
                assert(g2.order(v_last as int)[first_pos(o, he_last)] == he);
            }
            if self.edges[e_last].0 == he_last {
                self.edges[e_last].0 = he;
            } else {
                self.edges[e_last].1 = he;
            }
            proof {
                assert(self.vertices == g2.vertices);
                assert forall|w: int, y: usize| 0 <= w < g0.nv() && y != he && y != he_last implies
                    (#[trigger] self.order(w).contains(y) <==> g0.order(w).contains(y)) by {
                    assert(g2.order(w).contains(y) <==> g0.order(w).contains(y));
                }
                if g0.wf_at_vertices() {
                    lemma_remove_keeps_vertices(g0, g1, *self, he, v as int, v_last as int);
                }
            }
        } else {
            proof {
                if g0.wf_at_vertices() {
                    lemma_remove_last_keeps_vertices(g0, *self, he, v as int);
                }
            }
        }
        proof {
            assert forall|w: int| 0 <= w < g0.nv() implies (#[trigger] self.vertices@[w]).1 == g0.vertices@[w].1 by {
                assert(self.vertices@[w].1 == g1.vertices@[w].1);
            }
        }
        he_data
    }

    /// Removes edge `e` with its two half-edges and returns its data. The last edge takes its
    /// id, and each removal of a half-edge gives its id to the last half-edge; the graph
    /// stays well formed.
    #[verifier::rlimit(100)]
    #[verifier::spinoff_prover]
    pub fn remove_edge(&mut self, e: usize) -> (r: E)
        requires
            old(self).wf(),
            old(self).remove_edge_ok(e as int),
        ensures
            r == old(self).edges@[e as int].2,
            final(self).nv() == old(self).nv(),
            final(self).ne() == old(self).ne() - 1,
            final(self).nhe() == old(self).nhe() - 2,
            forall|w: int| 0 <= w < old(self).nv() ==> (#[trigger] final(self).vertices@[w]).1 == old(self).vertices@[w].1,
            final(self).wf(),
    {
        let ghost g0 = *self;
        let m = self.half_edges.len();
        let e_last = self.edges.len() - 1;
        let (u_he, v_he, e_data) = self.edges.swap_remove(e);
        let ghost g1 = *self;
        proof {
            assert(g1.vertices == g0.vertices);
            assert(g1.half_edges == g0.half_edges);
            let (a, b, _) = g0.edges@[e as int];
            assert(g0.half_edges@[a as int].1 == e && g0.half_edges@[b as int].1 == e);
            let ta = g0.half_edges@[a as int];
            let tl = g0.half_edges@[m - 1];
            assert(g0.order(ta.0 as int).contains(a));
            assert(g0.order(tl.0 as int).contains((m - 1) as usize));
            if a != m - 1 {
                let o = g0.order(tl.0 as int);
                lemma_first_pos(o, a);
                let i = choose|i: int| 0 <= i < o.len() && o[i] == (m - 1) as usize;
                if tl.0 == ta.0 {
                    assert(i != first_pos(o, a));
                    assert(g1.order(tl.0 as int)[i] == (m - 1) as usize);
                }
                let k = tl.1 as int;
                assert(g0.edges@[k].0 == m - 1 || g0.edges@[k].1 == m - 1);
                assert(k != e);
                assert(k != e_last || e == e_last);
                assert(k < g1.ne());
                assert(g1.edges@[k] == g0.edges@[k]);
            }
            assert(g1.remove_half_edge_ok(a as int));
        }
        self.remove_half_edge(u_he);
        let ghost g2 = *self;
        proof {
            let (a, b, _) = g0.edges@[e as int];
            let tb = g0.half_edges@[b as int];
            assert(g2.half_edges@[b as int] == tb);
            assert(g0.order(tb.0 as int).contains(b));
            assert(g2.order(tb.0 as int).contains(b));
            let last2 = m - 2;
            if b != last2 {
                let x = g2.half_edges@[last2];
                if a == last2 {
                    let tl = g0.half_edges@[m - 1];
                    assert(x == tl);
                    assert(g2.order(tl.0 as int).contains(a));
                    let k = tl.1 as int;
                    assert(k != e);
                    assert(g2.edges@[k].0 == last2 || g2.edges@[k].1 == last2);
                    let o = g2.order(tl.0 as int);
                    if tl.0 == tb.0 {
                        lemma_first_pos(o, b);
                        let i = choose|i: int| 0 <= i < o.len() && o[i] == a;
                        assert(i != first_pos(o, b));
                    }
                } else {
                    let t2 = g0.half_edges@[last2];
                    assert(x == t2);
                    assert(g0.order(t2.0 as int).contains(last2 as usize));
                    assert(g2.order(t2.0 as int).contains(last2 as usize));
                    let k = t2.1 as int;
                    assert(k != e);
                    assert(g0.edges@[k].0 == last2 || g0.edges@[k].1 == last2);
                    if a != m - 1 && k == g0.half_edges@[m - 1].1 {
                        assert(g2.edges@[k].0 == last2 || g2.edges@[k].1 == last2);
                    } else {
                        assert(g2.edges@[k] == g1.edges@[k]);
                    }
                    let o = g2.order(t2.0 as int);
                    if t2.0 == tb.0 {
                        lemma_first_pos(o, b);
                        let i = choose|i: int| 0 <= i < o.len() && o[i] == last2;
                        assert(i != first_pos(o, b));
                    }
                }
            }
        }
        self.remove_half_edge(v_he);
        proof {
            if e != e_last {
                let (a, b, _) = g0.edges@[e as int];
                let t = g0.edges@[e_last as int];
                assert(g1.edges@[e as int] == t);
                assert(g0.half_edges@[t.0 as int].1 == e_last && g0.half_edges@[t.1 as int].1 == e_last);
                assert(t.0 != a && t.0 != b && t.1 != a && t.1 != b);
                if a != m - 1 {
                    assert(g0.he_e(m - 1) != e_last);
                    assert(t.0 != m - 1 && t.1 != m - 1);
                    let k1 = g0.half_edges@[m - 1].1 as int;
                    assert(k1 != e);
                } else {
                    assert(t.0 != m - 1 && t.1 != m - 1);
                }
                assert(g2.edges@[e as int] == t);
                if b != m - 2 {
                    let x = g2.half_edges@[m - 2];
                    if a == m - 2 {
                        assert(x == g0.half_edges@[m - 1]);
                        assert(x.1 != e);
                    } else {
                        assert(x == g0.half_edges@[m - 2]);
                        assert(g0.he_e(m - 2) != e_last);
                        assert(x.1 != e);
                        assert(t.0 != m - 2 && t.1 != m - 2);
                    }
                } else {
                    assert(t.0 != m - 2 && t.1 != m - 2);
                }
                assert(self.edges@[e as int] == t);
            }
        }
        let ghost g3 = *self;
        if e != e_last {
            let h0 = self.edges[e].0;
            let h1 = self.edges[e].1;
            self.half_edges[h0].1 = e;
            self.half_edges[h1].1 = e;
        }
        proof {
            let (a, b, _) = g0.edges@[e as int];
            lemma_same_vertex_part(g0, g1);
            assert(g2.wf_at_vertices());
            assert(g3.wf_at_vertices());
            let p3 = g3.edges@[e as int].0 as int;
            let q3 = g3.edges@[e as int].1 as int;
            assert forall|h: int| 0 <= h < g3.nhe() implies (#[trigger] self.half_edges@[h]).0 == g3.half_edges@[h].0
                && self.half_edges@[h].1 == (if e != e_last && (h == p3 || h == q3) { e } else { g3.half_edges@[h].1 }) by {
            }
            lemma_removed_edge_wf(g0, g1, g2, g3, *self, e as int, a as int, b as int);
        }
        e_data
    }
}

impl<V, HE, E> EmbGraph<V, HE, E> {
    /// Removes vertex `v`, which has no half-edges, and returns its data; the last vertex
    /// takes its id.
    pub fn remove_vertex(&mut self, v: usize) -> (r: V)
        requires
            old(self).wf(),
            v < old(self).nv(),
            old(self).order(v as int).len() == 0,
        ensures
            final(self).wf(),
            r == old(self).vertices@[v as int].1,
            final(self).vertices@ == old(self).vertices@.update(v as int, old(self).vertices@.last()).drop_last(),
            final(self).edges == old(self).edges,
            final(self).nhe() == old(self).nhe(),
            forall|h: int| 0 <= h < old(self).nhe() ==> #[trigger] final(self).half_edges@[h] == {
                let t = old(self).half_edges@[h];
                (if t.0 == old(self).nv() - 1 { v } else { t.0 }, t.1, t.2)
            },
    {
        let ghost g0 = *self;
        let v_last = self.vertices.len() - 1;
        let (_, v_data) = self.vertices.swap_remove(v);
        let ghost g1 = *self;
        if v != v_last {
            let mut h: usize = 0;
            while h < self.half_edges.len()
                invariant
                    h <= self.nhe(),
                    self.nhe() == g0.nhe(),
                    v_last == g0.nv() - 1,
                    self.vertices == g1.vertices,
                    self.edges == g1.edges,
                    forall|k: int| 0 <= k < h ==> #[trigger] self.half_edges@[k] == {
                        let t = g0.half_edges@[k];
                        (if t.0 == v_last { v } else { t.0 }, t.1, t.2)
                    },
                    forall|k: int| h <= k < self.nhe() ==> #[trigger] self.half_edges@[k] == g0.half_edges@[k],
                decreases self.nhe() - h,
            {
                if self.half_edges[h].0 == v_last {
                    self.half_edges[h].0 = v;
                }
                h = h + 1;
            }
        }
        proof {
            assert(self.vertices == g1.vertices);
            assert(self.edges == g0.edges);
            assert forall|k: int| 0 <= k < g0.nhe() implies #[trigger] self.half_edges@[k] == {
                let t = g0.half_edges@[k];
                (if t.0 == g0.nv() - 1 { v } else { t.0 }, t.1, t.2)
            } by {
                if v == v_last {
                    let t = g0.half_edges@[k];
                    assert(g0.order(t.0 as int).contains(k as usize));
                    assert(t.0 != v);
                }
            }
            assert forall|e: int| 0 <= e < self.ne() implies {
                let (a, b, _) = #[trigger] self.edges@[e];
                &&& a < self.nhe()
                &&& b < self.nhe()
                &&& a != b
                &&& self.half_edges@[a as int].1 == e
                &&& self.half_edges@[b as int].1 == e
            } by {
                let (a, b, _) = self.edges@[e];
                assert(g0.edges@[e] == self.edges@[e]);
                assert(self.half_edges@[a as int].1 == g0.half_edges@[a as int].1);
                assert(self.half_edges@[b as int].1 == g0.half_edges@[b as int].1);
            }
            assert forall|h: int| 0 <= h < self.nhe() implies {
                let (x, e, _) = #[trigger] self.half_edges@[h];
                &&& x < self.nv()
                &&& e < self.ne()
                &&& (self.edges@[e as int].0 == h || self.edges@[e as int].1 == h)
                &&& self.order(x as int).contains(h as usize)
            } by {
                let t = g0.half_edges@[h];
                assert(g0.order(t.0 as int).contains(h as usize));
                assert(t.0 != v);
                if t.0 == v_last {
                    assert(self.order(v as int) == g0.order(v_last as int));
                } else {
                    assert(self.order(t.0 as int) == g0.order(t.0 as int));
                }
            }
            assert forall|w: int| 0 <= w < self.nv() implies {
                let o = #[trigger] self.order(w);
                &&& forall|i: int| 0 <= i < o.len() ==> #[trigger] o[i] < self.nhe() && self.half_edges@[o[i] as int].0 == w
                &&& forall|i: int, j: int| 0 <= i < j < o.len() ==> o[i] != o[j]
            } by {
                let w0 = if w == v { v_last as int } else { w };
                assert(self.order(w) == g0.order(w0));
                let o = self.order(w);
                assert forall|i: int| 0 <= i < o.len() implies #[trigger] o[i] < self.nhe() && self.half_edges@[o[i] as int].0 == w by {
                    let hh = o[i] as int;
                    assert(g0.order(w0)[i] == o[i]);
                    assert(g0.half_edges@[hh].0 == w0);
                }
            }
        }
        v_data
    }
}

/// `a` and `b` have the same incidence structure: equal cyclic orders, and half-edges and
/// edges with equal ends.
pub open spec fn same_shape<V, HE, E, V2, HE2, E2>(a: EmbGraph<V, HE, E>, b: EmbGraph<V2, HE2, E2>) -> bool {
    &&& a.nv() == b.nv()
    &&& a.nhe() == b.nhe()
    &&& a.ne() == b.ne()
    &&& forall|v: int| 0 <= v < a.nv() ==> #[trigger] b.order(v) == a.order(v)
    &&& forall|h: int| 0 <= h < a.nhe() ==> (#[trigger] b.half_edges@[h]).0 == a.half_edges@[h].0 && b.half_edges@[h].1 == a.half_edges@[h].1
    &&& forall|e: int| 0 <= e < a.ne() ==> (#[trigger] b.edges@[e]).0 == a.edges@[e].0 && b.edges@[e].1 == a.edges@[e].1
}

/// Well-formedness depends on the incidence structure alone.
pub proof fn lemma_same_shape_wf<V, HE, E, V2, HE2, E2>(a: EmbGraph<V, HE, E>, b: EmbGraph<V2, HE2, E2>)
    requires
        same_shape(a, b),
        a.wf(),
    ensures
        b.wf(),
{
    assert forall|e: int| 0 <= e < b.ne() implies {
        let (x, y, _) = #[trigger] b.edges@[e];
        &&& x < b.nhe()
        &&& y < b.nhe()
        &&& x != y
        &&& b.half_edges@[x as int].1 == e
        &&& b.half_edges@[y as int].1 == e
    } by {
        let t = a.edges@[e];
        let u = b.edges@[e];
        assert(a.half_edges@[t.0 as int].1 == e);
        assert(b.half_edges@[u.0 as int].1 == a.half_edges@[t.0 as int].1);
        assert(b.half_edges@[u.1 as int].1 == a.half_edges@[t.1 as int].1);
    }
    assert forall|h: int| 0 <= h < b.nhe() implies {
        let (x, e, _) = #[trigger] b.half_edges@[h];
        &&& x < b.nv()
        &&& e < b.ne()
        &&& (b.edges@[e as int].0 == h || b.edges@[e as int].1 == h)
        &&& b.order(x as int).contains(h as usize)
    } by {
        let t = a.half_edges@[h];
        let u = b.half_edges@[h];
        assert(b.edges@[u.1 as int].0 == a.edges@[t.1 as int].0);
        assert(b.order(u.0 as int) == a.order(t.0 as int));
    }
    assert forall|v: int| 0 <= v < b.nv() implies {
        let o = #[trigger] b.order(v);
        &&& forall|i: int| 0 <= i < o.len() ==> #[trigger] o[i] < b.nhe() && b.half_edges@[o[i] as int].0 == v
        &&& forall|i: int, j: int| 0 <= i < j < o.len() ==> o[i] != o[j]
    } by {
        assert(b.order(v) == a.order(v));
        let o = a.order(v);
        assert forall|i: int| 0 <= i < o.len() implies #[trigger] o[i] < b.nhe() && b.half_edges@[o[i] as int].0 == v by {
            assert(a.half_edges@[o[i] as int].0 == v);
        }
    }
}

impl<V, HE, E> EmbGraph<V, HE, E> {
    /// The graph with the same incidence structure and the data that the three maps give.
    pub fn map<V2, HE2, E2, F: Fn(usize, &V) -> V2, G: Fn(usize, &HE) -> HE2, H: Fn(usize, &E) -> E2>(
        &self,
        v_map: F,
        he_map: G,
        e_map: H,
    ) -> (r: EmbGraph<V2, HE2, E2>)
        requires
            forall|k: int| 0 <= k < self.nv() ==> call_requires(v_map, (k as usize, &(#[trigger] self.vertices@[k]).1)),
            forall|k: int| 0 <= k < self.nhe() ==> call_requires(he_map, (k as usize, &(#[trigger] self.half_edges@[k]).2)),
            forall|k: int| 0 <= k < self.ne() ==> call_requires(e_map, (k as usize, &(#[trigger] self.edges@[k]).2)),
        ensures
            same_shape(*self, r),
            self.wf() ==> r.wf(),
            forall|k: int| 0 <= k < self.nv() ==> call_ensures(v_map, (k as usize, &self.vertices@[k].1), (#[trigger] r.vertices@[k]).1),
            forall|k: int| 0 <= k < self.nhe() ==> call_ensures(he_map, (k as usize, &self.half_edges@[k].2), (#[trigger] r.half_edges@[k]).2),
            forall|k: int| 0 <= k < self.ne() ==> call_ensures(e_map, (k as usize, &self.edges@[k].2), (#[trigger] r.edges@[k]).2),
    {
        let mut vertices: Vec<(CyclicOrder<usize>, V2)> = Vec::new();
        let mut k: usize = 0;
        while k < self.vertices.len()
            invariant
                k <= self.nv(),
                vertices.len() == k,
                forall|j: int| 0 <= j < self.nv() ==> call_requires(v_map, (j as usize, &(#[trigger] self.vertices@[j]).1)),
                forall|j: int| 0 <= j < k ==> (#[trigger] vertices@[j]).0@ == self.order(j)
                    && call_ensures(v_map, (j as usize, &self.vertices@[j].1), vertices@[j].1),
            decreases self.nv() - k,
        {
            let d = v_map(k, &self.vertices[k].1);
            let o = self.vertices[k].0.clone();
            let ghost before = vertices@;
            vertices.push((o, d));
            proof {
                assert forall|j: int| 0 <= j < k + 1 implies (#[trigger] vertices@[j]).0@ == self.order(j)
                    && call_ensures(v_map, (j as usize, &self.vertices@[j].1), vertices@[j].1) by {
                    if j < k {
                        assert(vertices@[j] == before[j]);
                    }
                }
            }
            k = k + 1;
        }
        let mut half_edges: Vec<(usize, usize, HE2)> = Vec::new();
        let mut k: usize = 0;
        while k < self.half_edges.len()
            invariant
                k <= self.nhe(),
                half_edges.len() == k,
                forall|j: int| 0 <= j < self.nhe() ==> call_requires(he_map, (j as usize, &(#[trigger] self.half_edges@[j]).2)),
                forall|j: int| 0 <= j < k ==> (#[trigger] half_edges@[j]).0 == self.half_edges@[j].0
                    && half_edges@[j].1 == self.half_edges@[j].1
                    && call_ensures(he_map, (j as usize, &self.half_edges@[j].2), half_edges@[j].2),
            decreases self.nhe() - k,
        {
            let d = he_map(k, &self.half_edges[k].2);
            let ghost before = half_edges@;
            half_edges.push((self.half_edges[k].0, self.half_edges[k].1, d));
            proof {
                assert forall|j: int| 0 <= j < k + 1 implies (#[trigger] half_edges@[j]).0 == self.half_edges@[j].0
                    && half_edges@[j].1 == self.half_edges@[j].1
                    && call_ensures(he_map, (j as usize, &self.half_edges@[j].2), half_edges@[j].2) by {
                    if j < k {
                        assert(half_edges@[j] == before[j]);
                    }
                }
            }
            k = k + 1;
        }
        let mut edges: Vec<(usize, usize, E2)> = Vec::new();
        let mut k: usize = 0;
        while k < self.edges.len()
            invariant
                k <= self.ne(),
                edges.len() == k,
                forall|j: int| 0 <= j < self.ne() ==> call_requires(e_map, (j as usize, &(#[trigger] self.edges@[j]).2)),
                forall|j: int| 0 <= j < k ==> (#[trigger] edges@[j]).0 == self.edges@[j].0
                    && edges@[j].1 == self.edges@[j].1
                    && call_ensures(e_map, (j as usize, &self.edges@[j].2), edges@[j].2),
            decreases self.ne() - k,
        {
            let d = e_map(k, &self.edges[k].2);
            let ghost before = edges@;
            edges.push((self.edges[k].0, self.edges[k].1, d));
            proof {
                assert forall|j: int| 0 <= j < k + 1 implies (#[trigger] edges@[j]).0 == self.edges@[j].0
                    && edges@[j].1 == self.edges@[j].1
                    && call_ensures(e_map, (j as usize, &self.edges@[j].2), edges@[j].2) by {
                    if j < k {
                        assert(edges@[j] == before[j]);
                    }
                }
            }
            k = k + 1;
        }
        let r = EmbGraph { vertices, half_edges, edges };
        proof {
            if self.wf() {
                lemma_same_shape_wf(*self, r);
            }
        }
        r
    }
}

/// How many times `x` occurs in `s`.
pub open spec fn count_of(s: Seq<usize>, x: usize) -> nat
    decreases s.len(),
{
    if s.len() == 0 {
        0
    } else {
        count_of(s.drop_last(), x) + if s.last() == x { 1nat } else { 0nat }
    }
}

/// How many times `x` occurs in the rows of `adj` before row `v`.
pub open spec fn count_rows(adj: Seq<Seq<usize>>, v: int, x: usize) -> nat
    decreases v,
{
    if v <= 0 {
        0
    } else {
        count_rows(adj, v - 1, x) + count_of(adj[v - 1], x)
    }
}

/// How many times `x` occurs in `adj` before position `j` of row `v`.
pub open spec fn occ_before(adj: Seq<Seq<usize>>, v: int, j: int, x: usize) -> nat {
    count_rows(adj, v, x) + count_of(adj[v].subrange(0, j), x)
}

/// The half-edge that `build` makes for position `j` of row `v`: an edge's first
/// occurrence gets its even half-edge, the next its odd one, and so on alternately.
pub open spec fn built_half_edge(adj: Seq<Seq<usize>>, v: int, j: int) -> int {
    2 * adj[v][j] + (occ_before(adj, v, j, adj[v][j]) % 2) as int
}

proof fn lemma_count_of_push(s: Seq<usize>, y: usize, x: usize)
    ensures
        count_of(s.push(y), x) == count_of(s, x) + if y == x { 1nat } else { 0nat },
{
    assert(s.push(y).drop_last() == s);
}

/// The rows of `adj` as sequences.
pub open spec fn rows_of(adj: Seq<Vec<usize>>) -> Seq<Seq<usize>> {
    adj.map_values(|row: Vec<usize>| row@)
}

/// `(v, j)` is a position of `adj`.
pub open spec fn is_pos(adj: Seq<Seq<usize>>, v: int, j: int) -> bool {
    0 <= v < adj.len() && 0 <= j < adj[v].len()
}

/// Position `(v1, j1)` comes before `(v2, j2)`, row by row.
pub open spec fn pos_before(v1: int, j1: int, v2: int, j2: int) -> bool {
    v1 < v2 || (v1 == v2 && j1 < j2)
}

/// A position of `adj` after `(u, i)` and before `(v, j)` gets the same half-edge from `build`
/// as `(u, i)`.
pub open spec fn overwritten(adj: Seq<Seq<usize>>, u: int, i: int, v: int, j: int) -> bool {
    exists|u2: int, i2: int| #![trigger built_half_edge(adj, u2, i2)] is_pos(adj, u2, i2) && pos_before(u, i, u2, i2) && pos_before(u2, i2, v, j)
        && built_half_edge(adj, u2, i2) == built_half_edge(adj, u, i)
}

/// Every edge id below `e` occurs exactly twice in `adj`, and no other occurs: the rows
/// describe a rotation system with `e` edges.
pub open spec fn each_edge_twice(adj: Seq<Seq<usize>>, e: int) -> bool {
    &&& forall|x: usize| x < e ==> #[trigger] count_rows(adj, adj.len() as int, x) == 2
    &&& forall|v: int, j: int| is_pos(adj, v, j) ==> #[trigger] adj[v][j] < e
}

proof fn lemma_count_of_take(s: Seq<usize>, x: usize, j: int)
    requires
        0 <= j < s.len(),
    ensures
        count_of(s.take(j + 1), x) == count_of(s.take(j), x) + if s[j] == x { 1nat } else { 0nat },
{
    assert(s.take(j + 1).drop_last() == s.take(j));
}

proof fn lemma_count_of_take_mono(s: Seq<usize>, x: usize, a: int, b: int)
    requires
        0 <= a <= b <= s.len(),
    ensures
        count_of(s.take(a), x) <= count_of(s.take(b), x),
    decreases b - a,
{
    if a < b {
        lemma_count_of_take_mono(s, x, a, b - 1);
        lemma_count_of_take(s, x, b - 1);
    }
}

proof fn lemma_count_rows_mono(adj: Seq<Seq<usize>>, x: usize, a: int, b: int)
    requires
        0 <= a <= b,
    ensures
        count_rows(adj, a, x) <= count_rows(adj, b, x),
    decreases b - a,
{
    if a < b {
        lemma_count_rows_mono(adj, x, a, b - 1);
    }
}

/// Counting occurrences of `x` up to a position: it grows along the rows, and by one past
/// each occurrence of `x`.
proof fn lemma_occ_before_grows(adj: Seq<Seq<usize>>, x: usize, u: int, i: int, v: int, j: int)
    requires
        is_pos(adj, u, i),
        pos_before(u, i, v, j),
        0 <= v <= adj.len(),
        v < adj.len() ==> 0 <= j <= adj[v].len(),
        v == adj.len() ==> j == 0,
    ensures
        occ_before(adj, v, j, x) >= occ_before(adj, u, i, x) + if adj[u][i] == x { 1nat } else { 0nat },
    decreases v, j,
{
    if j > 0 {
        lemma_count_of_take(adj[v], x, j - 1);
        assert(adj[v].subrange(0, j) == adj[v].take(j));
        assert(adj[v].subrange(0, j - 1) == adj[v].take(j - 1));
        if u == v && i == j - 1 {
        } else {
            lemma_occ_before_grows(adj, x, u, i, v, j - 1);
        }
    } else {
        let w = v - 1;
        assert(adj[v].subrange(0, 0) =~= Seq::<usize>::empty());
        assert(adj[w].subrange(0, adj[w].len() as int) == adj[w]);
        assert(occ_before(adj, v, 0, x) == occ_before(adj, w, adj[w].len() as int, x));
        lemma_occ_before_grows(adj, x, u, i, w, adj[w].len() as int);
    }
}

/// An occurrence of `x` is followed by fewer occurrences than `x` has in all.
proof fn lemma_occ_before_bound(adj: Seq<Seq<usize>>, x: usize, u: int, i: int)
    requires
        is_pos(adj, u, i),
        adj[u][i] == x,
    ensures
        occ_before(adj, u, i, x) + 1 <= count_rows(adj, adj.len() as int, x),
{
    let n = adj.len() as int;
    lemma_occ_before_grows(adj, x, u, i, n, 0);
    assert(adj[n].subrange(0, 0) =~= Seq::<usize>::empty());
}

proof fn lemma_find_in_row(s: Seq<usize>, x: usize, m: nat)
    requires
        count_of(s, x) > m,
    ensures
        exists|i: int| 0 <= i < s.len() && s[i] == x && #[trigger] count_of(s.take(i), x) == m,
    decreases s.len(),
{
    let t = s.drop_last();
    if count_of(t, x) > m {
        lemma_find_in_row(t, x, m);
        let i = choose|i: int| 0 <= i < t.len() && t[i] == x && #[trigger] count_of(t.take(i), x) == m;
        assert(t.take(i) == s.take(i));
        assert(s[i] == x);
    } else {
        let i = s.len() - 1;
        assert(s.take(i) == t);
        assert(s[i] == x);
    }
}

/// Some position before row `v` holds the occurrence of `x` that has `k` before it.
proof fn lemma_find_occurrence(adj: Seq<Seq<usize>>, x: usize, k: nat, v: int)
    requires
        0 <= v <= adj.len(),
        count_rows(adj, v, x) > k,
    ensures
        exists|u: int, i: int| #![trigger adj[u][i]] is_pos(adj, u, i) && u < v && adj[u][i] == x && occ_before(adj, u, i, x) == k,
    decreases v,
{
    if count_rows(adj, v - 1, x) > k {
        lemma_find_occurrence(adj, x, k, v - 1);
    } else {
        let m = (k - count_rows(adj, v - 1, x)) as nat;
        lemma_find_in_row(adj[v - 1], x, m);
        let i = choose|i: int| 0 <= i < adj[v - 1].len() && adj[v - 1][i] == x && #[trigger] count_of(adj[v - 1].take(i), x) == m;
        assert(adj[v - 1].subrange(0, i) == adj[v - 1].take(i));
        assert(occ_before(adj, v - 1, i, x) == k);
    }
}

impl EmbGraph {
    /// The embedded graph with a vertex for each row of `adj`: row `v` lists, in cyclic order,
    /// the edge ids at vertex `v`. Edge `k` gets half-edges `2k` and `2k + 1`, given out in
    /// turn to the occurrences of `k`.
    pub fn build(adj: Vec<Vec<usize>>) -> (r: Self)
        requires
            forall|v: int, j: int| 0 <= v < adj@.len() && 0 <= j < adj@[v]@.len() ==> 2 * (#[trigger] adj@[v]@[j]) + 1 < usize::MAX,
        ensures
            r.nv() == adj@.len(),
            r.nhe() == 2 * r.ne(),
            forall|v: int, j: int| 0 <= v < adj@.len() && 0 <= j < adj@[v]@.len() ==> #[trigger] adj@[v]@[j] < r.ne(),
            r.ne() == 0 || exists|v: int, j: int| 0 <= v < adj@.len() && 0 <= j < adj@[v]@.len() && #[trigger] adj@[v]@[j] + 1 == r.ne(),
            forall|k: int| 0 <= k < r.ne() ==> (#[trigger] r.edges@[k]).0 == 2 * k && r.edges@[k].1 == 2 * k + 1,
            forall|h: int| 0 <= h < r.nhe() ==> (#[trigger] r.half_edges@[h]).1 == h / 2,
            forall|v: int| 0 <= v < adj@.len() ==> (#[trigger] r.order(v)).len() == adj@[v]@.len(),
            forall|v: int, j: int| 0 <= v < adj@.len() && 0 <= j < adj@[v]@.len() ==>
                #[trigger] r.order(v)[j] == built_half_edge(rows_of(adj@), v, j),
            forall|h: int| 0 <= h < r.nhe() ==> (#[trigger] r.half_edges@[h]).0 < adj@.len(),
            forall|u: int, i: int| #![trigger built_half_edge(rows_of(adj@), u, i)]
                is_pos(rows_of(adj@), u, i)
                && !overwritten(rows_of(adj@), u, i, adj@.len() as int, 0)
                ==> r.half_edges@[built_half_edge(rows_of(adj@), u, i)].0 == u,
            each_edge_twice(rows_of(adj@), r.ne()) ==> r.wf(),
    {
        let ghost rows = rows_of(adj@);
        let n = adj.len();
        // the number of edges: one more than the largest entry
        let mut e: usize = 0;
        let mut v: usize = 0;
        while v < n
            invariant
                n == adj@.len(),
                v <= n,
                forall|u: int, j: int| 0 <= u < n && 0 <= j < adj@[u]@.len() ==> 2 * (#[trigger] adj@[u]@[j]) + 1 < usize::MAX,
                forall|u: int, j: int| 0 <= u < v && 0 <= j < adj@[u]@.len() ==> #[trigger] adj@[u]@[j] < e,
                2 * e <= usize::MAX,
                e > 0 ==> n > 0,
                e == 0 || exists|u: int, j: int| 0 <= u < n && 0 <= j < adj@[u]@.len() && #[trigger] adj@[u]@[j] + 1 == e,
            decreases n - v,
        {
            let mut j: usize = 0;
            while j < adj[v].len()
                invariant
                    n == adj@.len(),
                    v < n,
                    j <= adj@[v as int]@.len(),
                    forall|u: int, i: int| 0 <= u < n && 0 <= i < adj@[u]@.len() ==> 2 * (#[trigger] adj@[u]@[i]) + 1 < usize::MAX,
                    forall|u: int, i: int| 0 <= u < v && 0 <= i < adj@[u]@.len() ==> #[trigger] adj@[u]@[i] < e,
                    forall|i: int| 0 <= i < j ==> #[trigger] adj@[v as int]@[i] < e,
                    2 * e <= usize::MAX,
                    e == 0 || exists|u: int, i: int| 0 <= u < n && 0 <= i < adj@[u]@.len() && #[trigger] adj@[u]@[i] + 1 == e,
                decreases adj@[v as int]@.len() - j,
            {
                let x = adj[v][j];
                if x + 1 > e {
                    e = x + 1;
                    assert(adj@[v as int]@[j as int] + 1 == e);
                }
                j = j + 1;
            }
            v = v + 1;
        }
        let mut edges: Vec<(usize, usize, ())> = Vec::new();
        let mut k: usize = 0;
        while k < e
            invariant
                e > 0 ==> n > 0,
                k <= e,
                2 * e <= usize::MAX,
                edges.len() == k,
                forall|i: int| 0 <= i < k ==> (#[trigger] edges@[i]).0 == 2 * i && edges@[i].1 == 2 * i + 1,
            decreases e - k,
        {
            edges.push((2 * k, 2 * k + 1, ()));
            k = k + 1;
        }
        let mut half_edges: Vec<(usize, usize, ())> = Vec::new();
        let mut k: usize = 0;
        while k < 2 * e
            invariant
                k <= 2 * e,
                2 * e <= usize::MAX,
                half_edges.len() == k,
                forall|i: int| 0 <= i < k ==> (#[trigger] half_edges@[i]).1 == i / 2 && half_edges@[i].0 < n,
                n == adj@.len(),
                n > 0 || e == 0,
            decreases 2 * e - k,
        {
            half_edges.push((0, k / 2, ()));
            k = k + 1;
        }
        let mut vertices: Vec<(CyclicOrder<usize>, ())> = Vec::new();
        let mut he_shift: Vec<usize> = Vec::new();
        let mut k: usize = 0;
        while k < e
            invariant
                k <= e,
                he_shift.len() == k,
                forall|i: int| 0 <= i < k ==> #[trigger] he_shift@[i] == 0,
            decreases e - k,
        {
            he_shift.push(0);
            k = k + 1;
        }
        let mut v: usize = 0;
        while v < n
            invariant
                n == adj@.len(),
                rows == rows_of(adj@),
                v <= n,
                2 * e <= usize::MAX,
                he_shift.len() == e,
                half_edges.len() == 2 * e,
                vertices.len() == v,
                forall|u: int, j: int| 0 <= u < n && 0 <= j < adj@[u]@.len() ==> #[trigger] adj@[u]@[j] < e,
                forall|x: int| 0 <= x < e ==> #[trigger] he_shift@[x] == count_rows(rows, v as int, x as usize) % 2,
                forall|i: int| 0 <= i < 2 * e ==> (#[trigger] half_edges@[i]).1 == i / 2,
                forall|u: int| 0 <= u < v ==> (#[trigger] vertices@[u]).0@.len() == rows[u].len()
                    && forall|j: int| 0 <= j < rows[u].len() ==> #[trigger] vertices@[u].0@[j] == built_half_edge(rows, u, j),
                forall|i: int| 0 <= i < 2 * e ==> (#[trigger] half_edges@[i]).0 < n,
                forall|u: int, i: int| #![trigger built_half_edge(rows, u, i)] is_pos(rows, u, i) && pos_before(u, i, v as int, 0)
                    && !overwritten(rows, u, i, v as int, 0) ==> half_edges@[built_half_edge(rows, u, i)].0 == u,
            decreases n - v,
        {
            let mut data: Vec<usize> = Vec::new();
            let mut j: usize = 0;
            proof {
                assert(rows[v as int] == adj@[v as int]@);
            }
            while j < adj[v].len()
                invariant
                    n == adj@.len(),
                    rows == rows_of(adj@),
                    v < n,
                    j <= rows[v as int].len(),
                    rows[v as int] == adj@[v as int]@,
                    2 * e <= usize::MAX,
                    he_shift.len() == e,
                    half_edges.len() == 2 * e,
                    forall|u: int, i: int| 0 <= u < n && 0 <= i < adj@[u]@.len() ==> #[trigger] adj@[u]@[i] < e,
                    forall|x: int| 0 <= x < e ==> #[trigger] he_shift@[x] == occ_before(rows, v as int, j as int, x as usize) % 2,
                    forall|i: int| 0 <= i < 2 * e ==> (#[trigger] half_edges@[i]).1 == i / 2,
                    data.len() == j,
                    forall|i: int| 0 <= i < j ==> #[trigger] data@[i] == built_half_edge(rows, v as int, i),
                    forall|i: int| 0 <= i < 2 * e ==> (#[trigger] half_edges@[i]).0 < n,
                    forall|u: int, i: int| #![trigger built_half_edge(rows, u, i)] is_pos(rows, u, i) && pos_before(u, i, v as int, j as int)
                        && !overwritten(rows, u, i, v as int, j as int) ==> half_edges@[built_half_edge(rows, u, i)].0 == u,
                decreases rows[v as int].len() - j,
            {
                let x = adj[v][j];
                assert(x < e);
                let h = 2 * x + he_shift[x];
                proof {
                    assert(he_shift@[x as int] < 2);
                    assert(h == built_half_edge(rows, v as int, j as int));
                }
                data.push(h);
                let ghost he_before = half_edges@;
                half_edges.set(h, (v, x, ()));
                he_shift.set(x, (he_shift[x] + 1) % 2);
                proof {
                    let vv = v as int;
                    let jj = j as int;
                    assert(is_pos(rows, vv, jj));
                    assert forall|u: int, i: int| #![trigger built_half_edge(rows, u, i)] is_pos(rows, u, i) && pos_before(u, i, vv, jj + 1)
                        && !overwritten(rows, u, i, vv, jj + 1) implies half_edges@[built_half_edge(rows, u, i)].0 == u by {
                        if u == vv && i == jj {
                        } else {
                            if overwritten(rows, u, i, vv, jj) {
                                let (u2, i2) = choose|u2: int, i2: int| #![trigger built_half_edge(rows, u2, i2)] is_pos(rows, u2, i2)
                                    && pos_before(u, i, u2, i2) && pos_before(u2, i2, vv, jj)
                                    && built_half_edge(rows, u2, i2) == built_half_edge(rows, u, i);
                                assert(pos_before(u2, i2, vv, jj + 1));
                            }
                            if built_half_edge(rows, u, i) == built_half_edge(rows, vv, jj) {
                                assert(pos_before(vv, jj, vv, jj + 1));
                            }
                            assert(half_edges@[built_half_edge(rows, u, i)] == he_before[built_half_edge(rows, u, i)]);
                        }
                    }
                }
                proof {
                    let r = rows[v as int];
                    assert(r.subrange(0, j + 1) == r.subrange(0, j as int).push(r[j as int]));
                    assert forall|y: int| 0 <= y < e implies #[trigger] he_shift@[y] == occ_before(rows, v as int, j + 1, y as usize) % 2 by {
                        lemma_count_of_push(r.subrange(0, j as int), r[j as int], y as usize);
                    }
                    assert(h / 2 == x) by (nonlinear_arith)
                        requires
                            h == 2 * x + he_shift@[x as int] || h == 2 * x + 0 || h == 2 * x + 1,
                            h == 2 * x || h == 2 * x + 1,
                    ;
                }
                j = j + 1;
            }
            vertices.push((CyclicOrder { data }, ()));
            proof {
                let r = rows[v as int];
                let vv = v as int;
                let len = r.len() as int;
                assert forall|u: int, i: int| #![trigger built_half_edge(rows, u, i)] is_pos(rows, u, i) && pos_before(u, i, vv + 1, 0)
                    && !overwritten(rows, u, i, vv + 1, 0) implies half_edges@[built_half_edge(rows, u, i)].0 == u by {
                    assert(pos_before(u, i, vv, len));
                    if overwritten(rows, u, i, vv, len) {
                        let (u2, i2) = choose|u2: int, i2: int| #![trigger built_half_edge(rows, u2, i2)] is_pos(rows, u2, i2)
                            && pos_before(u, i, u2, i2) && pos_before(u2, i2, vv, len)
                            && built_half_edge(rows, u2, i2) == built_half_edge(rows, u, i);
                        assert(pos_before(u2, i2, vv + 1, 0));
                    }
                }
                assert(r.subrange(0, r.len() as int) == r);
                assert forall|x: int| 0 <= x < e implies #[trigger] he_shift@[x] == count_rows(rows, v + 1, x as usize) % 2 by {}
            }
            v = v + 1;
        }
        let r = EmbGraph { vertices, half_edges, edges };
        proof {
            if each_edge_twice(rows, r.ne()) {
                lemma_built_wf(rows, r);
            }
        }
        r
    }
}

impl<V, HE, E> crate::CombGrad for EmbGraph<V, HE, E> {
    /// The number of vertices.
    open spec fn spec_degree(&self) -> usize {
        self.vertices@.len() as usize
    }

    fn degree(&self) -> (r: usize) {
        self.vertices.len()
    }
}

/// The degree of Jacobi diagrams: half the number of vertices. Their vertices have degree 1 or
/// 3, and every component has a vertex of degree 1; diagrams with loops are left out, as they
/// vanish modulo the AS relation.
#[derive(Clone, Copy, Debug, PartialEq, Eq, Structural)]
pub struct JacobiDeg(pub usize);

impl<V, HE, E> crate::CombGrad<JacobiDeg> for EmbGraph<V, HE, E> {
    /// Half the number of vertices.
    open spec fn spec_degree(&self) -> JacobiDeg {
        JacobiDeg((self.vertices@.len() / 2) as usize)
    }

    fn degree(&self) -> (r: JacobiDeg) {
        JacobiDeg(self.vertices.len() / 2)
    }
}

/// `fixedbitset::FixedBitSet`, a set of bits below a fixed length.
#[verifier::external_type_specification]
#[verifier::external_body]
pub struct ExFixedBitSet(FixedBitSet);

/// The bits that a `FixedBitSet` holds.
pub uninterp spec fn bits_of(b: FixedBitSet) -> Set<nat>;

/// The length of a `FixedBitSet`, that is, the number of bits it can hold.
pub uninterp spec fn bits_len(b: FixedBitSet) -> nat;

/// `FixedBitSet::with_capacity`: a set of `n` bits, all clear.
#[verifier::external_body]
fn bits_with_capacity(n: usize) -> (b: FixedBitSet)
    ensures
        bits_of(b) == Set::<nat>::empty(),
        bits_len(b) == n,
{
    FixedBitSet::with_capacity(n)
}

/// `FixedBitSet::insert`: sets bit `i`; it asserts that `i` is below the length.
#[verifier::external_body]
fn bits_insert(b: &mut FixedBitSet, i: usize)
    requires
        i < bits_len(*old(b)),
    ensures
        bits_of(*final(b)) == bits_of(*old(b)).insert(i as nat),
        bits_len(*final(b)) == bits_len(*old(b)),
{
    b.insert(i)
}

/// `FixedBitSet::contains`: whether bit `i` is set (false beyond the length).
#[verifier::external_body]
pub(crate) fn bits_contains(b: &FixedBitSet, i: usize) -> (r: bool)
    ensures
        r == bits_of(*b).contains(i as nat),
{
    b.contains(i)
}

impl<V, HE, E> EmbGraph<V, HE, E> {
    /// Vertices `a` and `b` are joined by an edge.
    pub open spec fn adjacent(self, a: int, b: int) -> bool {
        exists|e: int| 0 <= e < self.ne() && #[trigger] self.joins(e, a, b)
    }

    /// Edge `e` joins `a` and `b`, in one direction or the other.
    pub open spec fn joins(self, e: int, a: int, b: int) -> bool {
        let x = self.he_v(self.edges@[e].0 as int);
        let y = self.he_v(self.edges@[e].1 as int);
        (x == a && y == b) || (x == b && y == a)
    }

    /// The number of vertices below `i` adjacent to `v`.
    pub open spec fn adj_count(self, v: int, i: int) -> nat
        decreases i,
    {
        if i <= 0 {
            0
        } else {
            self.adj_count(v, i - 1) + if self.adjacent(v, i - 1) { 1nat } else { 0nat }
        }
    }

    /// Vertex `w` shares a neighbour with `v`.
    pub open spec fn second_neighbour(self, v: int, w: int) -> bool {
        exists|u: int| 0 <= u < self.nv() && #[trigger] self.adjacent(v, u) && self.adjacent(w, u)
    }

    /// The number of vertices below `i` that share a neighbour with `v`.
    pub open spec fn second_count(self, v: int, i: int) -> nat
        decreases i,
    {
        if i <= 0 {
            0
        } else {
            self.second_count(v, i - 1) + if self.second_neighbour(v, i - 1) { 1nat } else { 0nat }
        }
    }

    /// The number of vertices below `i` with `k` neighbours.
    pub open spec fn degree_hist(self, k: int, i: int) -> nat
        decreases i,
    {
        if i <= 0 {
            0
        } else {
            self.degree_hist(k, i - 1) + if self.adj_count(i - 1, self.nv()) == k { 1nat } else { 0nat }
        }
    }

    /// The number of vertices below `i` with `k` second neighbours.
    pub open spec fn second_hist(self, k: int, i: int) -> nat
        decreases i,
    {
        if i <= 0 {
            0
        } else {
            self.second_hist(k, i - 1) + if self.second_count(i - 1, self.nv()) == k { 1nat } else { 0nat }
        }
    }

    /// The invariant that `graph_hash` computes: at `k < n`, the number of vertices with `k`
    /// neighbours; at `n + k`, the number with `k` second neighbours (at `n` both counts add).
    pub open spec fn spec_graph_hash(self) -> Seq<usize> {
        let n = self.nv();
        Seq::new((2 * n + 1) as nat, |k: int|
            (self.degree_hist(k, n) + if k >= n { self.second_hist(k - n, n) } else { 0nat }) as usize)
    }

    /// The adjacency matrix, as the bits `a * n + b` for adjacent `a` and `b`.
    pub fn adjacency_matrix(&self) -> (m: FixedBitSet)
        requires
            self.wf(),
            self.nv() * self.nv() <= usize::MAX,
        ensures
            bits_len(m) == self.nv() * self.nv(),
            forall|a: int, b: int| 0 <= a < self.nv() && 0 <= b < self.nv() ==>
                (bits_of(m).contains((a * self.nv() + b) as nat) <==> #[trigger] self.adjacent(a, b)),
    {
        let n = self.vertices.len();
        let mut matrix = bits_with_capacity(n * n);
        let mut e: usize = 0;
        while e < self.edges.len()
            invariant
                self.wf(),
                n == self.nv(),
                n * n <= usize::MAX,
                e <= self.ne(),
                bits_len(matrix) == n * n,
                forall|x: nat| #[trigger] bits_of(matrix).contains(x) ==> exists|f: int, a: int, b: int|
                    0 <= f < e && 0 <= a < n && 0 <= b < n && #[trigger] self.joins(f, a, b) && x == a * n + b,
                forall|f: int, a: int, b: int| 0 <= f < e && 0 <= a < n && 0 <= b < n && #[trigger] self.joins(f, a, b) ==>
                    bits_of(matrix).contains((a * n + b) as nat),
            decreases self.ne() - e,
        {
            let (e_i, e_j, _) = self.edges[e];
            let i = self.half_edges[e_i].0;
            let j = self.half_edges[e_j].0;
            proof {
                lemma_cell_bound(i as int, j as int, n as int);
                lemma_cell_bound(j as int, i as int, n as int);
            }
            bits_insert(&mut matrix, i * n + j);
            bits_insert(&mut matrix, j * n + i);
            proof {
                assert(self.joins(e as int, i as int, j as int));
                assert(self.joins(e as int, j as int, i as int));
                assert forall|x: nat| #[trigger] bits_of(matrix).contains(x) implies exists|f: int, a: int, b: int|
                    0 <= f < e + 1 && 0 <= a < n && 0 <= b < n && #[trigger] self.joins(f, a, b) && x == a * n + b by {
                    if x == i * n + j {
                        assert(self.joins(e as int, i as int, j as int));
                    } else if x == j * n + i {
                        assert(self.joins(e as int, j as int, i as int));
                    } else {
                        let (f, a, b) = choose|f: int, a: int, b: int|
                            0 <= f < e && 0 <= a < n && 0 <= b < n && #[trigger] self.joins(f, a, b) && x == a * n + b;
                        assert(self.joins(f, a, b));
                    }
                }
                assert forall|f: int, a: int, b: int| 0 <= f < e + 1 && 0 <= a < n && 0 <= b < n && #[trigger] self.joins(f, a, b) implies
                    bits_of(matrix).contains((a * n + b) as nat) by {
                    if f == e {
                        if a == i && b == j {
                        } else {
                            assert(a == j && b == i);
                        }
                    }
                }
            }
            e = e + 1;
        }
        proof {
            assert forall|a: int, b: int| 0 <= a < n && 0 <= b < n implies
                (bits_of(matrix).contains((a * n + b) as nat) <==> #[trigger] self.adjacent(a, b)) by {
                lemma_cell_bound(a, b, n as int);
                if bits_of(matrix).contains((a * n + b) as nat) {
                    let (f, a2, b2) = choose|f: int, a2: int, b2: int|
                        0 <= f < self.ne() && 0 <= a2 < n && 0 <= b2 < n && #[trigger] self.joins(f, a2, b2) && (a * n + b) as nat == a2 * n + b2;
                    lemma_cell_unique(a, b, a2, b2, n as int);
                    assert(self.joins(f, a, b));
                }
                if self.adjacent(a, b) {
                    let f = choose|f: int| 0 <= f < self.ne() && #[trigger] self.joins(f, a, b);
                    assert(self.joins(f, a, b));
                }
            }
        }
        matrix
    }

    /// Whether `a` and `b` are adjacent, read from the adjacency matrix.
    pub fn is_adjacent(&self, matrix: &FixedBitSet, a: usize, b: usize) -> (r: bool)
        requires
            self.wf(),
            a < self.nv(),
            b < self.nv(),
            self.nv() * self.nv() <= usize::MAX,
            forall|x: int, y: int| 0 <= x < self.nv() && 0 <= y < self.nv() ==>
                (bits_of(*matrix).contains((x * self.nv() + y) as nat) <==> #[trigger] self.adjacent(x, y)),
        ensures
            r == self.adjacent(a as int, b as int),
    {
        let n = self.vertices.len();
        proof {
            lemma_cell_bound(a as int, b as int, n as int);
        }
        bits_contains(matrix, a * n + b)
    }

    /// A hash invariant under isomorphism: the numbers of vertices by number of neighbours,
    /// and by number of second neighbours.
    pub fn graph_hash(&self) -> (r: Vec<usize>)
        requires
            self.wf(),
            self.nv() * self.nv() <= usize::MAX,
            2 * self.nv() + 1 <= usize::MAX,
        ensures
            r@ == self.spec_graph_hash(),
    {
        let n = self.vertices.len();
        let mut data: Vec<usize> = Vec::new();
        let mut k: usize = 0;
        while k < 2 * n + 1
            invariant
                k <= 2 * n + 1,
                2 * n + 1 <= usize::MAX,
                data.len() == k,
                forall|i: int| 0 <= i < k ==> #[trigger] data@[i] == 0,
            decreases 2 * n + 1 - k,
        {
            data.push(0);
            k = k + 1;
        }
        let adj = self.adjacency_matrix();
        let mut v: usize = 0;
        while v < n
            invariant
                self.wf(),
                n == self.nv(),
                n * n <= usize::MAX,
                2 * n + 1 <= usize::MAX,
                v <= n,
                data.len() == 2 * n + 1,
                forall|x: int, y: int| 0 <= x < n && 0 <= y < n ==>
                    (bits_of(adj).contains((x * n + y) as nat) <==> #[trigger] self.adjacent(x, y)),
                forall|i: int| 0 <= i < 2 * n + 1 ==> #[trigger] data@[i] == self.degree_hist(i, v as int),
            decreases n - v,
        {
            let deg = self.count_neighbours(&adj, v);
            proof {
                lemma_count_bound(*self, v as int, n as int);
                lemma_hist_bound(*self, deg as int, v as int);
            }
            data.set(deg, data[deg] + 1);
            v = v + 1;
        }
        let mut v: usize = 0;
        while v < n
            invariant
                self.wf(),
                n == self.nv(),
                n * n <= usize::MAX,
                2 * n + 1 <= usize::MAX,
                v <= n,
                data.len() == 2 * n + 1,
                forall|x: int, y: int| 0 <= x < n && 0 <= y < n ==>
                    (bits_of(adj).contains((x * n + y) as nat) <==> #[trigger] self.adjacent(x, y)),
                forall|i: int| 0 <= i < 2 * n + 1 ==> #[trigger] data@[i] == self.degree_hist(i, n as int)
                    + if i >= n { self.second_hist(i - n, v as int) } else { 0nat },
            decreases n - v,
        {
            let deg2 = self.count_second_neighbours(&adj, v);
            proof {
                lemma_second_count_bound(*self, v as int, n as int);
                lemma_second_hist_bound(*self, deg2 as int, v as int);
                lemma_hist_bound(*self, (n + deg2) as int, n as int);
            }
            data.set(n + deg2, data[n + deg2] + 1);
            v = v + 1;
        }
        proof {
            assert(data@ =~= self.spec_graph_hash());
        }
        data
    }

    /// The number of neighbours of `v`.
    fn count_neighbours(&self, adj: &FixedBitSet, v: usize) -> (r: usize)
        requires
            self.wf(),
            v < self.nv(),
            self.nv() * self.nv() <= usize::MAX,
            forall|x: int, y: int| 0 <= x < self.nv() && 0 <= y < self.nv() ==>
                (bits_of(*adj).contains((x * self.nv() + y) as nat) <==> #[trigger] self.adjacent(x, y)),
        ensures
            r == self.adj_count(v as int, self.nv()),
    {
        let n = self.vertices.len();
        let mut c: usize = 0;
        let mut u: usize = 0;
        while u < n
            invariant
                self.wf(),
                n == self.nv(),
                v < n,
                n * n <= usize::MAX,
                u <= n,
                c == self.adj_count(v as int, u as int),
                c <= u,
                forall|x: int, y: int| 0 <= x < n && 0 <= y < n ==>
                    (bits_of(*adj).contains((x * n + y) as nat) <==> #[trigger] self.adjacent(x, y)),
            decreases n - u,
        {
            if self.is_adjacent(adj, v, u) {
                c = c + 1;
            }
            u = u + 1;
        }
        c
    }

    /// The number of vertices that share a neighbour with `v`.
    fn count_second_neighbours(&self, adj: &FixedBitSet, v: usize) -> (r: usize)
        requires
            self.wf(),
            v < self.nv(),
            self.nv() * self.nv() <= usize::MAX,
            forall|x: int, y: int| 0 <= x < self.nv() && 0 <= y < self.nv() ==>
                (bits_of(*adj).contains((x * self.nv() + y) as nat) <==> #[trigger] self.adjacent(x, y)),
        ensures
            r == self.second_count(v as int, self.nv()),
    {
        let n = self.vertices.len();
        let mut c: usize = 0;
        let mut w: usize = 0;
        while w < n
            invariant
                self.wf(),
                n == self.nv(),
                v < n,
                n * n <= usize::MAX,
                w <= n,
                c == self.second_count(v as int, w as int),
                c <= w,
                forall|x: int, y: int| 0 <= x < n && 0 <= y < n ==>
                    (bits_of(*adj).contains((x * n + y) as nat) <==> #[trigger] self.adjacent(x, y)),
            decreases n - w,
        {
            let mut found = false;
            let mut u: usize = 0;
            while u < n && !found
                invariant
                    self.wf(),
                    n == self.nv(),
                    v < n,
                    w < n,
                    n * n <= usize::MAX,
                    u <= n,
                    found ==> self.second_neighbour(v as int, w as int),
                    !found ==> forall|x: int| 0 <= x < u ==> !(#[trigger] self.adjacent(v as int, x) && self.adjacent(w as int, x)),
                    forall|x: int, y: int| 0 <= x < n && 0 <= y < n ==>
                        (bits_of(*adj).contains((x * n + y) as nat) <==> #[trigger] self.adjacent(x, y)),
                decreases n - u,
            {
                if self.is_adjacent(adj, v, u) && self.is_adjacent(adj, w, u) {
                    found = true;
                }
                u = u + 1;
            }
            proof {
                if !found {
                    assert(!self.second_neighbour(v as int, w as int));
                }
            }
            if found {
                c = c + 1;
            }
            w = w + 1;
        }
        c
    }
}

pub proof fn lemma_cell_bound(a: int, b: int, n: int)
    requires
        0 <= a < n,
        0 <= b < n,
    ensures
        0 <= a * n + b < n * n,
{
    assert(a * n + b < n * n) by (nonlinear_arith)
        requires
            0 <= a < n,
            0 <= b < n,
    ;
    assert(0 <= a * n) by (nonlinear_arith)
        requires
            0 <= a,
            0 <= n,
    ;
}

pub proof fn lemma_cell_unique(a: int, b: int, c: int, d: int, n: int)
    requires
        0 <= a < n,
        0 <= b < n,
        0 <= c < n,
        0 <= d < n,
        a * n + b == c * n + d,
    ensures
        a == c,
        b == d,
{
    assert(a == c) by (nonlinear_arith)
        requires
            0 <= a < n,
            0 <= b < n,
            0 <= c < n,
            0 <= d < n,
            a * n + b == c * n + d,
    ;
}

proof fn lemma_count_bound<V, HE, E>(g: EmbGraph<V, HE, E>, v: int, i: int)
    requires
        i >= 0,
    ensures
        g.adj_count(v, i) <= i,
    decreases i,
{
    if i > 0 {
        lemma_count_bound(g, v, i - 1);
    }
}

proof fn lemma_second_count_bound<V, HE, E>(g: EmbGraph<V, HE, E>, v: int, i: int)
    requires
        i >= 0,
    ensures
        g.second_count(v, i) <= i,
    decreases i,
{
    if i > 0 {
        lemma_second_count_bound(g, v, i - 1);
    }
}

proof fn lemma_hist_bound<V, HE, E>(g: EmbGraph<V, HE, E>, k: int, i: int)
    requires
        i >= 0,
    ensures
        g.degree_hist(k, i) <= i,
    decreases i,
{
    if i > 0 {
        lemma_hist_bound(g, k, i - 1);
    }
}

proof fn lemma_second_hist_bound<V, HE, E>(g: EmbGraph<V, HE, E>, k: int, i: int)
    requires
        i >= 0,
    ensures
        g.second_hist(k, i) <= i,
    decreases i,
{
    if i > 0 {
        lemma_second_hist_bound(g, k, i - 1);
    }
}

/// `m` renumbers the positions it keeps: the kept positions get `0..n`, in increasing order.
pub open spec fn renumbering(m: Seq<Option<usize>>, n: int) -> bool {
    &&& forall|i: int| 0 <= i < m.len() && (#[trigger] m[i]) is Some ==> m[i].unwrap() < n
    &&& forall|i: int, j: int| 0 <= i < j < m.len() && (#[trigger] m[i]) is Some && (#[trigger] m[j]) is Some ==> m[i].unwrap() < m[j].unwrap()
    &&& forall|k: int| 0 <= k < n ==> #[trigger] has_number(m, k)
}

/// Some position of `m` gets the number `k`.
pub open spec fn has_number(m: Seq<Option<usize>>, k: int) -> bool {
    exists|i: int| 0 <= i < m.len() && #[trigger] m[i] == Some(k as usize)
}

/// The renumbered entries of `s` that `m` keeps, in order.
pub open spec fn renumbered(s: Seq<usize>, m: Seq<Option<usize>>) -> Seq<usize> {
    somes(s.map_values(|l: usize| m[l as int]))
}

/// `filter_map` can keep every edge: each edge whose data `e_map` can keep has both end
/// vertices kept, whatever `v_map` answers on them.
pub open spec fn filter_map_ok<V, HE, E, V2, E2, F: Fn(usize, &V) -> Option<V2>, H: Fn(usize, &E) -> Option<E2>>(
    g: EmbGraph<V, HE, E>,
    v_map: F,
    e_map: H,
) -> bool {
    forall|e: int, o: Option<E2>| 0 <= e < g.ne() && #[trigger] call_ensures(e_map, (e as usize, &g.edges@[e].2), o) && o is Some ==> {
        &&& forall|vo: Option<V2>| #[trigger] call_ensures(v_map, (g.he_v(g.edges@[e].0 as int) as usize, &g.vertices@[g.he_v(g.edges@[e].0 as int)].1), vo) ==> vo is Some
        &&& forall|vo: Option<V2>| #[trigger] call_ensures(v_map, (g.he_v(g.edges@[e].1 as int) as usize, &g.vertices@[g.he_v(g.edges@[e].1 as int)].1), vo) ==> vo is Some
    }
}

/// `r` is what `filter_map` makes of `g` with the renumberings `vm`, `em` and `hm` of the
/// kept vertices, edges and half-edges.
pub open spec fn filtered_by<V, HE, E, V2, HE2, E2, F: Fn(usize, &V) -> Option<V2>, G: Fn(usize, &HE) -> HE2, H: Fn(usize, &E) -> Option<E2>>(
    g: EmbGraph<V, HE, E>,
    r: EmbGraph<V2, HE2, E2>,
    vm: Seq<Option<usize>>,
    em: Seq<Option<usize>>,
    hm: Seq<Option<usize>>,
    v_map: F,
    he_map: G,
    e_map: H,
) -> bool {
    &&& vm.len() == g.nv() && em.len() == g.ne() && hm.len() == g.nhe()
    &&& renumbering(vm, r.nv()) && renumbering(em, r.ne()) && renumbering(hm, r.nhe())
    &&& forall|v: int| 0 <= v < g.nv() ==> #[trigger] vertex_filtered(g, r, vm, hm, v_map, v)
    &&& forall|e: int| 0 <= e < g.ne() ==> #[trigger] edge_filtered(g, r, em, hm, e_map, e)
    &&& forall|h: int| 0 <= h < g.nhe() ==> ((#[trigger] hm[h]) is Some <==> vm[g.he_v(h)] is Some && em[g.he_e(h)] is Some)
    &&& forall|h: int| 0 <= h < g.nhe() && (#[trigger] hm[h]) is Some ==> r.half_edges@[hm[h].unwrap() as int].0 == vm[g.he_v(h)].unwrap()
        && r.half_edges@[hm[h].unwrap() as int].1 == em[g.he_e(h)].unwrap()
        && call_ensures(he_map, (h as usize, &g.half_edges@[h].2), r.half_edges@[hm[h].unwrap() as int].2)
}

/// Vertex `v` of `g` is kept by `filter_map` exactly when `v_map` gives data for it, and then
/// it carries that data and its order renumbered.
pub open spec fn vertex_filtered<V, HE, E, V2, HE2, E2, F: Fn(usize, &V) -> Option<V2>>(
    g: EmbGraph<V, HE, E>,
    r: EmbGraph<V2, HE2, E2>,
    vm: Seq<Option<usize>>,
    hm: Seq<Option<usize>>,
    v_map: F,
    v: int,
) -> bool {
    exists|o: Option<V2>| #[trigger] call_ensures(v_map, (v as usize, &g.vertices@[v].1), o)
        && (o is Some <==> vm[v] is Some)
        && (o matches Some(d) ==> r.vertices@[vm[v].unwrap() as int].1 == d)
        && (o is Some ==> r.order(vm[v].unwrap() as int) == renumbered(g.order(v), hm))
}

/// Edge `e` of `g` is kept by `filter_map` exactly when `e_map` gives data for it, and then
/// it joins the renumbered half-edges and carries that data.
pub open spec fn edge_filtered<V, HE, E, V2, HE2, E2, H: Fn(usize, &E) -> Option<E2>>(
    g: EmbGraph<V, HE, E>,
    r: EmbGraph<V2, HE2, E2>,
    em: Seq<Option<usize>>,
    hm: Seq<Option<usize>>,
    e_map: H,
    e: int,
) -> bool {
    exists|o: Option<E2>| #[trigger] call_ensures(e_map, (e as usize, &g.edges@[e].2), o)
        && (o is Some <==> em[e] is Some)
        && (o is Some ==> hm[g.edges@[e].0 as int] is Some && hm[g.edges@[e].1 as int] is Some)
        && (o matches Some(d) ==> r.edges@[em[e].unwrap() as int] == (hm[g.edges@[e].0 as int].unwrap(), hm[g.edges@[e].1 as int].unwrap(), d))
}

/// Appends to a renumbering: kept with the next number, or dropped.
proof fn lemma_renumbering_push(m: Seq<Option<usize>>, n: int, keep: bool)
    requires
        renumbering(m, n),
        0 <= n <= usize::MAX,
    ensures
        keep ==> renumbering(m.push(Some(n as usize)), n + 1),
        !keep ==> renumbering(m.push(None), n),
{
    if keep {
        let m2 = m.push(Some(n as usize));
        assert forall|k: int| 0 <= k < n + 1 implies #[trigger] has_number(m2, k) by {
            if k < n {
                assert(has_number(m, k));
                let i = choose|i: int| 0 <= i < m.len() && #[trigger] m[i] == Some(k as usize);
                assert(m2[i] == m[i]);
            } else {
                assert(m2[m.len() as int] == Some(k as usize));
            }
        }
        assert forall|i: int, j: int| 0 <= i < j < m2.len() && (#[trigger] m2[i]) is Some && (#[trigger] m2[j]) is Some implies m2[i].unwrap() < m2[j].unwrap() by {
            if j == m.len() {
                assert(m2[i] == m[i]);
            } else {
                assert(m2[i] == m[i] && m2[j] == m[j]);
            }
        }
    } else {
        let m2 = m.push(None);
        assert forall|k: int| 0 <= k < n implies #[trigger] has_number(m2, k) by {
            assert(has_number(m, k));
            let i = choose|i: int| 0 <= i < m.len() && #[trigger] m[i] == Some(k as usize);
            assert(m2[i] == m[i]);
        }
        assert forall|i: int, j: int| 0 <= i < j < m2.len() && (#[trigger] m2[i]) is Some && (#[trigger] m2[j]) is Some implies m2[i].unwrap() < m2[j].unwrap() by {
            assert(m2[i] == m[i] && m2[j] == m[j]);
        }
    }
}

/// What `somes` of a renumbered order holds.
proof fn lemma_renumbered(s: Seq<usize>, m: Seq<Option<usize>>)
    requires
        forall|i: int| 0 <= i < s.len() ==> #[trigger] s[i] < m.len(),
    ensures
        forall|x: usize| #[trigger] renumbered(s, m).contains(x) <==> exists|i: int| 0 <= i < s.len() && m[s[i] as int] == Some(x),
        (forall|i: int, j: int| 0 <= i < j < s.len() ==> s[i] != s[j])
            && (forall|a: int, b: int| 0 <= a < b < m.len() && (#[trigger] m[a]) is Some && (#[trigger] m[b]) is Some ==> m[a].unwrap() < m[b].unwrap())
            ==> forall|i: int, j: int| 0 <= i < j < renumbered(s, m).len() ==> renumbered(s, m)[i] != renumbered(s, m)[j],
    decreases s.len(),
{
    let mapped = s.map_values(|l: usize| m[l as int]);
    if s.len() > 0 {
        let s0 = s.drop_last();
        lemma_renumbered(s0, m);
        assert(mapped.drop_last() == s0.map_values(|l: usize| m[l as int]));
        let r0 = renumbered(s0, m);
        let last = m[s.last() as int];
        assert(mapped.last() == last);
        assert forall|x: usize| #[trigger] renumbered(s, m).contains(x) <==> exists|i: int| 0 <= i < s.len() && m[s[i] as int] == Some(x) by {
            if renumbered(s, m).contains(x) {
                if r0.contains(x) {
                    let i = choose|i: int| 0 <= i < s0.len() && m[s0[i] as int] == Some(x);
                    assert(s[i] == s0[i]);
                } else {
                    let k = choose|k: int| 0 <= k < renumbered(s, m).len() && renumbered(s, m)[k] == x;
                    match last {
                        Some(y) => {
                            assert(renumbered(s, m) == r0.push(y));
                            if k < r0.len() {
                                assert(r0.contains(x));
                            }
                            assert(m[s[s.len() - 1] as int] == Some(x));
                        },
                        None => {
                            assert(renumbered(s, m) == r0);
                        },
                    }
                }
            }
            if exists|i: int| 0 <= i < s.len() && m[s[i] as int] == Some(x) {
                let i = choose|i: int| 0 <= i < s.len() && m[s[i] as int] == Some(x);
                if i < s.len() - 1 {
                    assert(s0[i] == s[i]);
                    assert(r0.contains(x));
                    let k = choose|k: int| 0 <= k < r0.len() && r0[k] == x;
                    match last {
                        Some(y) => { assert(renumbered(s, m) == r0.push(y)); assert(renumbered(s, m)[k] == x); },
                        None => { assert(renumbered(s, m) == r0); },
                    }
                } else {
                    assert(last == Some(x));
                    assert(renumbered(s, m) == r0.push(x));
                    assert(renumbered(s, m)[r0.len() as int] == x);
                }
            }
        }
        if (forall|i: int, j: int| 0 <= i < j < s.len() ==> s[i] != s[j])
            && (forall|a: int, b: int| 0 <= a < b < m.len() && (#[trigger] m[a]) is Some && (#[trigger] m[b]) is Some ==> m[a].unwrap() < m[b].unwrap()) {
            match last {
                Some(y) => {
                    assert(renumbered(s, m) == r0.push(y));
                    assert forall|i: int, j: int| 0 <= i < j < renumbered(s, m).len() implies renumbered(s, m)[i] != renumbered(s, m)[j] by {
                        if j == r0.len() {
                            let x = r0[i];
                            assert(r0.contains(x));
                            let i0 = choose|i0: int| 0 <= i0 < s0.len() && m[s0[i0] as int] == Some(x);
                            assert(s0[i0] != s.last());
                            let a = s0[i0] as int;
                            let b = s.last() as int;
                            if a < b {
                                assert(m[a].unwrap() < m[b].unwrap());
                            } else {
                                assert(m[b].unwrap() < m[a].unwrap());
                            }
                        }
                    }
                },
                None => {
                    assert(renumbered(s, m) == r0);
                },
            }
        }
    } else {
        assert(renumbered(s, m) == Seq::<usize>::empty());
    }
}

/// Keeps the vertices on which `f` gives data: returns the renumbering and the kept
/// `(id, data)` pairs in order.
fn filter_vertices<V, HE, E, Y, F: Fn(usize, &V) -> Option<Y>>(g: &EmbGraph<V, HE, E>, f: &F) -> (r: (Vec<Option<usize>>, Vec<(usize, Y)>))
    requires
        forall|k: int| 0 <= k < g.vertices.len() ==> call_requires(*f, (k as usize, &g.vertices@[k].1)),
    ensures
        r.0.len() == g.vertices.len(),
        renumbering(r.0@, r.1.len() as int),
        forall|k: int| 0 <= k < r.1.len() ==> (#[trigger] r.1@[k]).0 < g.vertices.len() && r.0@[r.1@[k].0 as int] == Some(k as usize),
        forall|i: int| 0 <= i < g.vertices.len() ==> #[trigger] vertex_kept(*g, r.0@, r.1@, *f, i),
{
    let mut m: Vec<Option<usize>> = Vec::new();
    let mut kept: Vec<(usize, Y)> = Vec::new();
    let mut i: usize = 0;
    while i < g.vertices.len()
        invariant
            i <= g.vertices.len(),
            m.len() == i,
            kept.len() <= i,
            renumbering(m@, kept.len() as int),
            forall|k: int| 0 <= k < g.vertices.len() ==> call_requires(*f, (k as usize, &g.vertices@[k].1)),
            forall|k: int| 0 <= k < kept.len() ==> (#[trigger] kept@[k]).0 < i && m@[kept@[k].0 as int] == Some(k as usize),
            forall|j: int| 0 <= j < i ==> #[trigger] vertex_kept(*g, m@, kept@, *f, j),
        decreases g.vertices.len() - i,
    {
        let o = f(i, &g.vertices[i].1);
        let ghost m0 = m@;
        let ghost k0 = kept@;
        match o {
            Some(y) => {
                proof {
                    lemma_renumbering_push(m0, k0.len() as int, true);
                }
                m.push(Some(kept.len()));
                kept.push((i, y));
                proof {
                    assert forall|k: int| 0 <= k < kept.len() implies (#[trigger] kept@[k]).0 < i + 1 && m@[kept@[k].0 as int] == Some(k as usize) by {
                        if k < k0.len() {
                            assert(kept@[k] == k0[k]);
                        }
                    }
                    assert forall|j: int| 0 <= j < i + 1 implies #[trigger] vertex_kept(*g, m@, kept@, *f, j) by {
                        if j < i {
                            assert(vertex_kept(*g, m0, k0, *f, j));
                            let oo = choose|oo: Option<Y>| #[trigger] call_ensures(*f, (j as usize, &g.vertices@[j].1), oo)
                                && (oo is Some <==> m0[j] is Some)
                                && (oo matches Some(d) ==> k0[m0[j].unwrap() as int].1 == d);
                            assert(m@[j] == m0[j]);
                            if m0[j] is Some {
                                assert(m0[j].unwrap() < k0.len());
                                assert(kept@[m0[j].unwrap() as int] == k0[m0[j].unwrap() as int]);
                            }
                        } else {
                            assert(m@[j] == Some(k0.len() as usize));
                            assert(kept@[k0.len() as int].1 == y);
                        }
                    }
                }
            },
            None => {
                proof {
                    lemma_renumbering_push(m0, k0.len() as int, false);
                }
                m.push(None);
                proof {
                    assert forall|j: int| 0 <= j < i + 1 implies #[trigger] vertex_kept(*g, m@, kept@, *f, j) by {
                        if j < i {
                            assert(vertex_kept(*g, m0, k0, *f, j));
                            assert(m@[j] == m0[j]);
                        } else {
                            assert(m@[j] is None);
                        }
                    }
                }
            },
        }
        i = i + 1;
    }
    (m, kept)
}

/// Keeps the edges on which `f` gives data: returns the renumbering and the kept
/// `(id, data)` pairs in order.
fn filter_edges<V, HE, E, Y, F: Fn(usize, &E) -> Option<Y>>(g: &EmbGraph<V, HE, E>, f: &F) -> (r: (Vec<Option<usize>>, Vec<(usize, Y)>))
    requires
        forall|k: int| 0 <= k < g.edges.len() ==> call_requires(*f, (k as usize, &g.edges@[k].2)),
    ensures
        r.0.len() == g.edges.len(),
        renumbering(r.0@, r.1.len() as int),
        forall|k: int| 0 <= k < r.1.len() ==> (#[trigger] r.1@[k]).0 < g.edges.len() && r.0@[r.1@[k].0 as int] == Some(k as usize),
        forall|i: int| 0 <= i < g.edges.len() ==> #[trigger] edge_kept(*g, r.0@, r.1@, *f, i),
{
    let mut m: Vec<Option<usize>> = Vec::new();
    let mut kept: Vec<(usize, Y)> = Vec::new();
    let mut i: usize = 0;
    while i < g.edges.len()
        invariant
            i <= g.edges.len(),
            m.len() == i,
            kept.len() <= i,
            renumbering(m@, kept.len() as int),
            forall|k: int| 0 <= k < g.edges.len() ==> call_requires(*f, (k as usize, &g.edges@[k].2)),
            forall|k: int| 0 <= k < kept.len() ==> (#[trigger] kept@[k]).0 < i && m@[kept@[k].0 as int] == Some(k as usize),
            forall|j: int| 0 <= j < i ==> #[trigger] edge_kept(*g, m@, kept@, *f, j),
        decreases g.edges.len() - i,
    {
        let o = f(i, &g.edges[i].2);
        let ghost m0 = m@;
        let ghost k0 = kept@;
        match o {
            Some(y) => {
                proof {
                    lemma_renumbering_push(m0, k0.len() as int, true);
                }
                m.push(Some(kept.len()));
                kept.push((i, y));
                proof {
                    assert forall|k: int| 0 <= k < kept.len() implies (#[trigger] kept@[k]).0 < i + 1 && m@[kept@[k].0 as int] == Some(k as usize) by {
                        if k < k0.len() {
                            assert(kept@[k] == k0[k]);
                        }
                    }
                    assert forall|j: int| 0 <= j < i + 1 implies #[trigger] edge_kept(*g, m@, kept@, *f, j) by {
                        if j < i {
                            assert(edge_kept(*g, m0, k0, *f, j));
                            let oo = choose|oo: Option<Y>| #[trigger] call_ensures(*f, (j as usize, &g.edges@[j].2), oo)
                                && (oo is Some <==> m0[j] is Some)
                                && (oo matches Some(d) ==> k0[m0[j].unwrap() as int].1 == d);
                            assert(m@[j] == m0[j]);
                            if m0[j] is Some {
                                assert(m0[j].unwrap() < k0.len());
                                assert(kept@[m0[j].unwrap() as int] == k0[m0[j].unwrap() as int]);
                            }
                        } else {
                            assert(m@[j] == Some(k0.len() as usize));
                            assert(kept@[k0.len() as int].1 == y);
                        }
                    }
                }
            },
            None => {
                proof {
                    lemma_renumbering_push(m0, k0.len() as int, false);
                }
                m.push(None);
                proof {
                    assert forall|j: int| 0 <= j < i + 1 implies #[trigger] edge_kept(*g, m@, kept@, *f, j) by {
                        if j < i {
                            assert(edge_kept(*g, m0, k0, *f, j));
                            assert(m@[j] == m0[j]);
                        } else {
                            assert(m@[j] is None);
                        }
                    }
                }
            },
        }
        i = i + 1;
    }
    (m, kept)
}

/// Vertex `i` is kept exactly when `f` gives data for it, and its kept pair holds that data.
pub open spec fn vertex_kept<V, HE, E, Y, F: Fn(usize, &V) -> Option<Y>>(g: EmbGraph<V, HE, E>, m: Seq<Option<usize>>, kept: Seq<(usize, Y)>, f: F, i: int) -> bool {
    exists|o: Option<Y>| #[trigger] call_ensures(f, (i as usize, &g.vertices@[i].1), o)
        && (o is Some <==> m[i] is Some)
        && (o matches Some(d) ==> kept[m[i].unwrap() as int].1 == d)
}

/// Edge `i` is kept exactly when `f` gives data for it, and its kept pair holds that data.
pub open spec fn edge_kept<V, HE, E, Y, F: Fn(usize, &E) -> Option<Y>>(g: EmbGraph<V, HE, E>, m: Seq<Option<usize>>, kept: Seq<(usize, Y)>, f: F, i: int) -> bool {
    exists|o: Option<Y>| #[trigger] call_ensures(f, (i as usize, &g.edges@[i].2), o)
        && (o is Some <==> m[i] is Some)
        && (o matches Some(d) ==> kept[m[i].unwrap() as int].1 == d)
}

impl<V, HE, E> EmbGraph<V, HE, E> {
    /// The subgraph of the vertices and edges on which `v_map` and `e_map` give data, with
    /// that data, and the half-edges at kept vertices on kept edges, with the data `he_map`
    /// gives. Kept vertices, edges and half-edges are numbered in their old order, and each
    /// cyclic order keeps its kept half-edges.
    ///
    /// The renumbering is carried through: new vertex `k` gets the cyclic order of the `k`-th
    /// kept vertex (not of old vertex `k`), and new edge `k` the half-edges of the `k`-th kept
    /// edge (not of old edge `k`), so that the result is well formed whenever the graph is.
    pub fn filter_map<V2, HE2, E2, F: Fn(usize, &V) -> Option<V2>, G: Fn(usize, &HE) -> HE2, H: Fn(usize, &E) -> Option<E2>>(
        &self,
        v_map: F,
        he_map: G,
        e_map: H,
    ) -> (r: EmbGraph<V2, HE2, E2>)
        requires
            self.wf(),
            forall|k: int| 0 <= k < self.nv() ==> call_requires(v_map, (k as usize, &(#[trigger] self.vertices@[k]).1)),
            forall|k: int| 0 <= k < self.nhe() ==> call_requires(he_map, (k as usize, &(#[trigger] self.half_edges@[k]).2)),
            forall|k: int| 0 <= k < self.ne() ==> call_requires(e_map, (k as usize, &(#[trigger] self.edges@[k]).2)),
            filter_map_ok(*self, v_map, e_map),
        ensures
            r.wf(),
            exists|vm: Seq<Option<usize>>, em: Seq<Option<usize>>, hm: Seq<Option<usize>>|
                #[trigger] filtered_by(*self, r, vm, em, hm, v_map, he_map, e_map),
    {
        let (vmap, kept_v) = filter_vertices(self, &v_map);
        let (emap, kept_e) = filter_edges(self, &e_map);
        let ghost vm = vmap@;
        let ghost em = emap@;
        // half-edges at kept vertices on kept edges
        let mut hmap: Vec<Option<usize>> = Vec::new();
        let mut half_edges: Vec<(usize, usize, HE2)> = Vec::new();
        let mut h: usize = 0;
        while h < self.half_edges.len()
            invariant
                self.wf(),
                h <= self.nhe(),
                hmap.len() == h,
                half_edges.len() <= h,
                vm == vmap@,
                em == emap@,
                vm.len() == self.nv(),
                em.len() == self.ne(),
                renumbering(vm, kept_v.len() as int),
                renumbering(em, kept_e.len() as int),
                renumbering(hmap@, half_edges.len() as int),
                forall|k: int| 0 <= k < self.nhe() ==> call_requires(he_map, (k as usize, &(#[trigger] self.half_edges@[k]).2)),
                forall|x: int| 0 <= x < h ==> ((#[trigger] hmap@[x]) is Some <==> vm[self.he_v(x)] is Some && em[self.he_e(x)] is Some),
                forall|x: int| 0 <= x < h && (#[trigger] hmap@[x]) is Some ==> {
                    let t = half_edges@[hmap@[x].unwrap() as int];
                    &&& t.0 == vm[self.he_v(x)].unwrap()
                    &&& t.1 == em[self.he_e(x)].unwrap()
                    &&& call_ensures(he_map, (x as usize, &self.half_edges@[x].2), t.2)
                },
            decreases self.nhe() - h,
        {
            let (v, e) = (self.half_edges[h].0, self.half_edges[h].1);
            let ghost m0 = hmap@;
            let ghost h0 = half_edges@;
            proof {
                let t = self.half_edges@[h as int];
            }
            match (vmap[v], emap[e]) {
                (Some(v2), Some(e2)) => {
                    let d = he_map(h, &self.half_edges[h].2);
                    proof {
                        lemma_renumbering_push(m0, h0.len() as int, true);
                    }
                    hmap.push(Some(half_edges.len()));
                    half_edges.push((v2, e2, d));
                    proof {
                        assert forall|x: int| 0 <= x < h + 1 && (#[trigger] hmap@[x]) is Some implies {
                            let t = half_edges@[hmap@[x].unwrap() as int];
                            &&& t.0 == vm[self.he_v(x)].unwrap()
                            &&& t.1 == em[self.he_e(x)].unwrap()
                            &&& call_ensures(he_map, (x as usize, &self.half_edges@[x].2), t.2)
                        } by {
                            if x < h {
                                assert(hmap@[x] == m0[x]);
                                assert(m0[x].unwrap() < h0.len());
                                assert(half_edges@[m0[x].unwrap() as int] == h0[m0[x].unwrap() as int]);
                            }
                        }
                        assert forall|x: int| 0 <= x < h + 1 implies ((#[trigger] hmap@[x]) is Some <==> vm[self.he_v(x)] is Some && em[self.he_e(x)] is Some) by {
                            if x < h {
                                assert(hmap@[x] == m0[x]);
                            }
                        }
                    }
                },
                _ => {
                    proof {
                        lemma_renumbering_push(m0, h0.len() as int, false);
                    }
                    hmap.push(None);
                    proof {
                        assert forall|x: int| 0 <= x < h + 1 && (#[trigger] hmap@[x]) is Some implies {
                            let t = half_edges@[hmap@[x].unwrap() as int];
                            &&& t.0 == vm[self.he_v(x)].unwrap()
                            &&& t.1 == em[self.he_e(x)].unwrap()
                            &&& call_ensures(he_map, (x as usize, &self.half_edges@[x].2), t.2)
                        } by {
                            assert(hmap@[x] == m0[x]);
                        }
                        assert forall|x: int| 0 <= x < h + 1 implies ((#[trigger] hmap@[x]) is Some <==> vm[self.he_v(x)] is Some && em[self.he_e(x)] is Some) by {
                            if x < h {
                                assert(hmap@[x] == m0[x]);
                            }
                        }
                    }
                },
            }
            h = h + 1;
        }
        let ghost hm = hmap@;
        // the kept vertices with their renumbered orders
        let mut vertices: Vec<(CyclicOrder<usize>, V2)> = Vec::new();
        let ghost kv = kept_v@;
        let mut rev_v = reverse_pairs(kept_v);
        let hr = &hmap;
        while rev_v.len() > 0
            invariant
                self.wf(),
                hm == hr@,
                hm.len() == self.nhe(),
                vertices.len() + rev_v.len() == kv.len(),
                forall|j: int| 0 <= j < rev_v.len() ==> #[trigger] rev_v@[j] == kv[kv.len() - 1 - j],
                forall|k: int| 0 <= k < kv.len() ==> (#[trigger] kv[k]).0 < self.nv(),
                forall|k: int| 0 <= k < vertices.len() ==> (#[trigger] vertices@[k]).1 == kv[k].1
                    && vertices@[k].0@ == renumbered(self.order(kv[k].0 as int), hm),
            decreases rev_v.len(),
        {
            let (k, val) = rev_v.pop().unwrap();
            let ghost idx = vertices.len() as int;
            proof {
                assert(rev_v@.len() == kv.len() - 1 - idx);
                assert(kv[idx] == (k, val));
                let o = self.order(k as int);
                assert(self.vertices@[k as int].0@ == o);
                assert forall|i: int| 0 <= i < o.len() implies #[trigger] o[i] < hm.len() by {}
            }
            let order = renumber_order(&self.vertices[k].0, hr);
            let ghost before = vertices@;
            vertices.push((order, val));
            proof {
                assert forall|j: int| 0 <= j < vertices.len() implies (#[trigger] vertices@[j]).1 == kv[j].1
                    && vertices@[j].0@ == renumbered(self.order(kv[j].0 as int), hm) by {
                    if j < idx {
                        assert(vertices@[j] == before[j]);
                    }
                }
            }
        }
        // the kept edges between their renumbered half-edges
        let mut edges: Vec<(usize, usize, E2)> = Vec::new();
        let ghost ke = kept_e@;
        let mut rev_e = reverse_pairs(kept_e);
        while rev_e.len() > 0
            invariant
                self.wf(),
                hm == hr@,
                vm == vmap@,
                em == emap@,
                hm.len() == self.nhe(),
                vm.len() == self.nv(),
                em.len() == self.ne(),
                renumbering(em, ke.len() as int),
                edges.len() + rev_e.len() == ke.len(),
                forall|j: int| 0 <= j < rev_e.len() ==> #[trigger] rev_e@[j] == ke[ke.len() - 1 - j],
                forall|k: int| 0 <= k < ke.len() ==> (#[trigger] ke[k]).0 < self.ne() && em[ke[k].0 as int] == Some(k as usize),
                forall|i: int| 0 <= i < self.ne() ==> #[trigger] edge_kept(*self, em, ke, e_map, i),
                forall|i: int| 0 <= i < self.nv() ==> #[trigger] vertex_kept(*self, vm, kv, v_map, i),
                forall|x: int| 0 <= x < self.nhe() ==> ((#[trigger] hm[x]) is Some <==> vm[self.he_v(x)] is Some && em[self.he_e(x)] is Some),
                filter_map_ok(*self, v_map, e_map),
                forall|k: int| 0 <= k < edges.len() ==> #[trigger] edge_entry_ok(*self, hm, ke, edges@, k),
            decreases rev_e.len(),
        {
            let (k, val) = rev_e.pop().unwrap();
            let ghost idx = edges.len() as int;
            proof {
                assert(rev_e@.len() == ke.len() - 1 - idx);
                assert(ke[idx] == (k, val));
                let ed = self.edges@[k as int];
                let (a, b) = (ed.0 as int, ed.1 as int);
                assert(edge_kept(*self, em, ke, e_map, k as int));
                assert(em[k as int] == Some(idx as usize));
                let o = choose|o: Option<E2>| #[trigger] call_ensures(e_map, (k as usize, &self.edges@[k as int].2), o)
                    && (o is Some <==> em[k as int] is Some)
                    && (o matches Some(d) ==> ke[em[k as int].unwrap() as int].1 == d);
                assert(call_ensures(e_map, (k as usize, &self.edges@[k as int].2), o));
                let ta = self.half_edges@[a];
                let tb = self.half_edges@[b];
                let va = self.he_v(a);
                let vb = self.he_v(b);
                assert(vertex_kept(*self, vm, kv, v_map, va));
                assert(vertex_kept(*self, vm, kv, v_map, vb));
                let oa = choose|oo: Option<V2>| #[trigger] call_ensures(v_map, (va as usize, &self.vertices@[va].1), oo)
                    && (oo is Some <==> vm[va] is Some)
                    && (oo matches Some(d) ==> kv[vm[va].unwrap() as int].1 == d);
                let ob = choose|oo: Option<V2>| #[trigger] call_ensures(v_map, (vb as usize, &self.vertices@[vb].1), oo)
                    && (oo is Some <==> vm[vb] is Some)
                    && (oo matches Some(d) ==> kv[vm[vb].unwrap() as int].1 == d);
                assert(call_ensures(v_map, (va as usize, &self.vertices@[va].1), oa));
                assert(call_ensures(v_map, (vb as usize, &self.vertices@[vb].1), ob));
                assert(hm[a] is Some);
                assert(hm[b] is Some);
            }
            let ea = self.edges[k].0;
            let eb = self.edges[k].1;
            let ha = hr[ea].unwrap();
            let hb = hr[eb].unwrap();
            let ghost before = edges@;
            edges.push((ha, hb, val));
            proof {
                assert forall|j: int| 0 <= j < edges.len() implies #[trigger] edge_entry_ok(*self, hm, ke, edges@, j) by {
                    if j < idx {
                        assert(edge_entry_ok(*self, hm, ke, before, j));
                        assert(edges@[j] == before[j]);
                    } else {
                        assert(ke[idx].0 == k && ke[idx].1 == val);
                        assert(edges@[idx] == (ha, hb, val));
                    }
                }
            }
        }
        let r = EmbGraph { vertices, half_edges, edges };
        proof {
            assert(filtered_by(*self, r, vm, em, hm, v_map, he_map, e_map)) by {
                assert forall|v: int| 0 <= v < self.nv() implies #[trigger] vertex_filtered(*self, r, vm, hm, v_map, v) by {
                    assert(vertex_kept(*self, vm, kv, v_map, v));
                    let o = choose|oo: Option<V2>| #[trigger] call_ensures(v_map, (v as usize, &self.vertices@[v].1), oo)
                        && (oo is Some <==> vm[v] is Some)
                        && (oo matches Some(d) ==> kv[vm[v].unwrap() as int].1 == d);
                    assert(call_ensures(v_map, (v as usize, &self.vertices@[v].1), o));
                    if vm[v] is Some {
                        let k = vm[v].unwrap() as int;
                        let v2 = kv[k].0 as int;
                        assert(vm[v2] == Some(k as usize));
                        if v2 != v {
                            if v2 < v {
                                assert(vm[v2].unwrap() < vm[v].unwrap());
                            } else {
                                assert(vm[v].unwrap() < vm[v2].unwrap());
                            }
                        }
                        assert(r.vertices@[k].1 == kv[k].1);
                    }
                }
                assert forall|e: int| 0 <= e < self.ne() implies #[trigger] edge_filtered(*self, r, em, hm, e_map, e) by {
                    assert(edge_kept(*self, em, ke, e_map, e));
                    let o = choose|oo: Option<E2>| #[trigger] call_ensures(e_map, (e as usize, &self.edges@[e].2), oo)
                        && (oo is Some <==> em[e] is Some)
                        && (oo matches Some(d) ==> ke[em[e].unwrap() as int].1 == d);
                    assert(call_ensures(e_map, (e as usize, &self.edges@[e].2), o));
                    if em[e] is Some {
                        let k = em[e].unwrap() as int;
                        let e2 = ke[k].0 as int;
                        assert(em[e2] == Some(k as usize));
                        if e2 != e {
                            if e2 < e {
                                assert(em[e2].unwrap() < em[e].unwrap());
                            } else {
                                assert(em[e].unwrap() < em[e2].unwrap());
                            }
                        }
                        assert(edge_entry_ok(*self, hm, ke, r.edges@, k));
                    }
                }
            }
        }
        proof {
            lemma_filtered_wf(*self, r, vm, em, hm, v_map, he_map, e_map);
        }
        r
    }
}

/// `r` is the subgraph of `g` on the vertices and edges that `keep_v` and `keep_e` keep:
/// kept items are renumbered in order, kept data are clones, and each cyclic order keeps its
/// kept half-edges.
pub open spec fn subgraph_by<V: Clone, HE: Clone, E: Clone>(
    g: EmbGraph<V, HE, E>,
    r: EmbGraph<V, HE, E>,
    vm: Seq<Option<usize>>,
    em: Seq<Option<usize>>,
    hm: Seq<Option<usize>>,
    keep_v: spec_fn(int) -> bool,
    keep_e: spec_fn(int) -> bool,
) -> bool {
    &&& vm.len() == g.nv() && em.len() == g.ne() && hm.len() == g.nhe()
    &&& renumbering(vm, r.nv()) && renumbering(em, r.ne()) && renumbering(hm, r.nhe())
    &&& forall|v: int| 0 <= v < g.nv() ==> ((#[trigger] vm[v]) is Some <==> keep_v(v))
        && (vm[v] is Some ==> cloned(g.vertices@[v].1, r.vertices@[vm[v].unwrap() as int].1)
            && r.order(vm[v].unwrap() as int) == renumbered(g.order(v), hm))
    &&& forall|e: int| 0 <= e < g.ne() ==> ((#[trigger] em[e]) is Some <==> keep_e(e))
        && (em[e] is Some ==> r.edges@[em[e].unwrap() as int].0 == hm[g.edges@[e].0 as int].unwrap()
            && r.edges@[em[e].unwrap() as int].1 == hm[g.edges@[e].1 as int].unwrap()
            && cloned(g.edges@[e].2, r.edges@[em[e].unwrap() as int].2))
    &&& forall|h: int| 0 <= h < g.nhe() ==> ((#[trigger] hm[h]) is Some <==> vm[g.he_v(h)] is Some && em[g.he_e(h)] is Some)
        && (hm[h] is Some ==> r.half_edges@[hm[h].unwrap() as int].0 == vm[g.he_v(h)].unwrap()
            && r.half_edges@[hm[h].unwrap() as int].1 == em[g.he_e(h)].unwrap()
            && cloned(g.half_edges@[h].2, r.half_edges@[hm[h].unwrap() as int].2))
}

impl<V: Clone, HE: Clone, E: Clone> EmbGraph<V, HE, E> {
    /// The subgraph on the vertices on which `f` returns `true`, with all edges; `f` must keep
    /// the ends of every edge.
    pub fn vertex_subgraph<F: Fn(usize, &V) -> bool>(&self, f: F) -> (r: Self)
        requires
            self.wf(),
            forall|k: int| 0 <= k < self.nv() ==> call_requires(f, (k as usize, &(#[trigger] self.vertices@[k]).1)),
            forall|e: int, b: bool| 0 <= e < self.ne() && #[trigger] call_ensures(f, (self.he_v(self.edges@[e].0 as int) as usize,
                &self.vertices@[self.he_v(self.edges@[e].0 as int)].1), b) ==> b,
            forall|e: int, b: bool| 0 <= e < self.ne() && #[trigger] call_ensures(f, (self.he_v(self.edges@[e].1 as int) as usize,
                &self.vertices@[self.he_v(self.edges@[e].1 as int)].1), b) ==> b,
        ensures
            r.wf(),
            exists|vm: Seq<Option<usize>>, em: Seq<Option<usize>>, hm: Seq<Option<usize>>, keep: spec_fn(int) -> bool, all: spec_fn(int) -> bool|
                #[trigger] subgraph_by(*self, r, vm, em, hm, keep, all)
                && (forall|e: int| #[trigger] all(e))
                && forall|v: int| 0 <= v < self.nv() ==> call_ensures(f, (v as usize, &self.vertices@[v].1), #[trigger] keep(v)),
    {
        let fr = &f;
        let vc = |k: usize, x: &V| -> (o: Option<V>)
            requires
                call_requires(fr, (k, x)),
            ensures
                exists|b: bool| #[trigger] call_ensures(fr, (k, x), b) && (b <==> o is Some),
                o matches Some(y) ==> cloned(*x, y),
        {
            if fr(k, x) {
                Some(x.clone())
            } else {
                None
            }
        };
        let hc = |k: usize, x: &HE| -> (o: HE)
            ensures
                cloned(*x, o),
        {
            x.clone()
        };
        let ec = |k: usize, x: &E| -> (o: Option<E>)
            ensures
                o is Some,
                o matches Some(y) ==> cloned(*x, y),
        {
            Some(x.clone())
        };
        proof {
            assert forall|e: int, o: Option<E>| 0 <= e < self.ne() && #[trigger] call_ensures(ec, (e as usize, &self.edges@[e].2), o) && o is Some implies {
                &&& forall|vo: Option<V>| #[trigger] call_ensures(vc, (self.he_v(self.edges@[e].0 as int) as usize, &self.vertices@[self.he_v(self.edges@[e].0 as int)].1), vo) ==> vo is Some
                &&& forall|vo: Option<V>| #[trigger] call_ensures(vc, (self.he_v(self.edges@[e].1 as int) as usize, &self.vertices@[self.he_v(self.edges@[e].1 as int)].1), vo) ==> vo is Some
            } by {
                assert forall|vo: Option<V>| #[trigger] call_ensures(vc, (self.he_v(self.edges@[e].0 as int) as usize, &self.vertices@[self.he_v(self.edges@[e].0 as int)].1), vo) implies vo is Some by {
                    let x = self.he_v(self.edges@[e].0 as int);
                    let b = choose|b: bool| #[trigger] call_ensures(fr, (x as usize, &self.vertices@[x].1), b) && (b <==> vo is Some);
                    assert(call_ensures(f, (x as usize, &self.vertices@[x].1), b));
                }
                assert forall|vo: Option<V>| #[trigger] call_ensures(vc, (self.he_v(self.edges@[e].1 as int) as usize, &self.vertices@[self.he_v(self.edges@[e].1 as int)].1), vo) implies vo is Some by {
                    let x = self.he_v(self.edges@[e].1 as int);
                    let b = choose|b: bool| #[trigger] call_ensures(fr, (x as usize, &self.vertices@[x].1), b) && (b <==> vo is Some);
                    assert(call_ensures(f, (x as usize, &self.vertices@[x].1), b));
                }
            }
            assert(filter_map_ok(*self, vc, ec));
        }
        let r = self.filter_map(vc, hc, ec);
        proof {
            let (vm, em, hm) = choose|vm: Seq<Option<usize>>, em: Seq<Option<usize>>, hm: Seq<Option<usize>>|
                #[trigger] filtered_by(*self, r, vm, em, hm, vc, hc, ec);
            let keep = |v: int| vm[v] is Some;
            let all = |e: int| true;
            assert(subgraph_by(*self, r, vm, em, hm, keep, all)) by {
                assert forall|v: int| 0 <= v < self.nv() implies ((#[trigger] vm[v]) is Some <==> keep(v))
                    && (vm[v] is Some ==> cloned(self.vertices@[v].1, r.vertices@[vm[v].unwrap() as int].1)
                        && r.order(vm[v].unwrap() as int) == renumbered(self.order(v), hm)) by {
                    assert(vertex_filtered(*self, r, vm, hm, vc, v));
                }
                assert forall|e: int| 0 <= e < self.ne() implies ((#[trigger] em[e]) is Some <==> all(e))
                    && (em[e] is Some ==> r.edges@[em[e].unwrap() as int].0 == hm[self.edges@[e].0 as int].unwrap()
                        && r.edges@[em[e].unwrap() as int].1 == hm[self.edges@[e].1 as int].unwrap()
                        && cloned(self.edges@[e].2, r.edges@[em[e].unwrap() as int].2)) by {
                    assert(edge_filtered(*self, r, em, hm, ec, e));
                }
            }
            assert forall|v: int| 0 <= v < self.nv() implies call_ensures(f, (v as usize, &self.vertices@[v].1), #[trigger] keep(v)) by {
                assert(vertex_filtered(*self, r, vm, hm, vc, v));
                let o = choose|o: Option<V>| #[trigger] call_ensures(vc, (v as usize, &self.vertices@[v].1), o)
                    && (o is Some <==> vm[v] is Some)
                    && (o matches Some(d) ==> r.vertices@[vm[v].unwrap() as int].1 == d)
                    && (o is Some ==> r.order(vm[v].unwrap() as int) == renumbered(self.order(v), hm));
                let b = choose|b: bool| #[trigger] call_ensures(fr, (v as usize, &self.vertices@[v].1), b) && (b <==> o is Some);
                assert(call_ensures(f, (v as usize, &self.vertices@[v].1), b));
            }
        }
        r
    }

    /// The subgraph with all vertices and the edges on which `f` returns `true`.
    pub fn edge_subgraph<F: Fn(usize, &E) -> bool>(&self, f: F) -> (r: Self)
        requires
            self.wf(),
            forall|k: int| 0 <= k < self.ne() ==> call_requires(f, (k as usize, &(#[trigger] self.edges@[k]).2)),
        ensures
            r.wf(),
            exists|vm: Seq<Option<usize>>, em: Seq<Option<usize>>, hm: Seq<Option<usize>>, all: spec_fn(int) -> bool, keep: spec_fn(int) -> bool|
                #[trigger] subgraph_by(*self, r, vm, em, hm, all, keep)
                && (forall|v: int| #[trigger] all(v))
                && forall|e: int| 0 <= e < self.ne() ==> call_ensures(f, (e as usize, &self.edges@[e].2), #[trigger] keep(e)),
    {
        let fr = &f;
        let vc = |k: usize, x: &V| -> (o: Option<V>)
            ensures
                o is Some,
                o matches Some(y) ==> cloned(*x, y),
        {
            Some(x.clone())
        };
        let hc = |k: usize, x: &HE| -> (o: HE)
            ensures
                cloned(*x, o),
        {
            x.clone()
        };
        let ec = |k: usize, x: &E| -> (o: Option<E>)
            requires
                call_requires(fr, (k, x)),
            ensures
                exists|b: bool| #[trigger] call_ensures(fr, (k, x), b) && (b <==> o is Some),
                o matches Some(y) ==> cloned(*x, y),
        {
            if fr(k, x) {
                Some(x.clone())
            } else {
                None
            }
        };
        let r = self.filter_map(vc, hc, ec);
        proof {
            let (vm, em, hm) = choose|vm: Seq<Option<usize>>, em: Seq<Option<usize>>, hm: Seq<Option<usize>>|
                #[trigger] filtered_by(*self, r, vm, em, hm, vc, hc, ec);
            let keep = |e: int| em[e] is Some;
            let all = |v: int| true;
            assert(subgraph_by(*self, r, vm, em, hm, all, keep)) by {
                assert forall|v: int| 0 <= v < self.nv() implies ((#[trigger] vm[v]) is Some <==> all(v))
                    && (vm[v] is Some ==> cloned(self.vertices@[v].1, r.vertices@[vm[v].unwrap() as int].1)
                        && r.order(vm[v].unwrap() as int) == renumbered(self.order(v), hm)) by {
                    assert(vertex_filtered(*self, r, vm, hm, vc, v));
                }
                assert forall|e: int| 0 <= e < self.ne() implies ((#[trigger] em[e]) is Some <==> keep(e))
                    && (em[e] is Some ==> r.edges@[em[e].unwrap() as int].0 == hm[self.edges@[e].0 as int].unwrap()
                        && r.edges@[em[e].unwrap() as int].1 == hm[self.edges@[e].1 as int].unwrap()
                        && cloned(self.edges@[e].2, r.edges@[em[e].unwrap() as int].2)) by {
                    assert(edge_filtered(*self, r, em, hm, ec, e));
                }
            }
            assert forall|e: int| 0 <= e < self.ne() implies call_ensures(f, (e as usize, &self.edges@[e].2), #[trigger] keep(e)) by {
                assert(edge_filtered(*self, r, em, hm, ec, e));
                let o = choose|o: Option<E>| #[trigger] call_ensures(ec, (e as usize, &self.edges@[e].2), o)
                    && (o is Some <==> em[e] is Some)
                    && (o is Some ==> hm[self.edges@[e].0 as int] is Some && hm[self.edges@[e].1 as int] is Some)
                    && (o matches Some(d) ==> r.edges@[em[e].unwrap() as int] == (hm[self.edges@[e].0 as int].unwrap(), hm[self.edges@[e].1 as int].unwrap(), d));
                let b = choose|b: bool| #[trigger] call_ensures(fr, (e as usize, &self.edges@[e].2), b) && (b <==> o is Some);
                assert(call_ensures(f, (e as usize, &self.edges@[e].2), b));
            }
        }
        r
    }
}

/// What `filter_map` makes of a well-formed graph is well-formed.
pub proof fn lemma_filtered_wf<V, HE, E, V2, HE2, E2, F: Fn(usize, &V) -> Option<V2>, G: Fn(usize, &HE) -> HE2, H: Fn(usize, &E) -> Option<E2>>(
    g: EmbGraph<V, HE, E>,
    r: EmbGraph<V2, HE2, E2>,
    vm: Seq<Option<usize>>,
    em: Seq<Option<usize>>,
    hm: Seq<Option<usize>>,
    v_map: F,
    he_map: G,
    e_map: H,
)
    requires
        g.wf(),
        filtered_by(g, r, vm, em, hm, v_map, he_map, e_map),
    ensures
        r.wf(),
{
    assert forall|k: int| 0 <= k < r.ne() implies {
        let (x, y, _) = #[trigger] r.edges@[k];
        &&& x < r.nhe()
        &&& y < r.nhe()
        &&& x != y
        &&& r.half_edges@[x as int].1 == k
        &&& r.half_edges@[y as int].1 == k
    } by {
        assert(has_number(em, k));
        let e = choose|e: int| 0 <= e < em.len() && #[trigger] em[e] == Some(k as usize);
        assert(edge_filtered(g, r, em, hm, e_map, e));
        let t = g.edges@[e];
        let (a, b) = (t.0 as int, t.1 as int);
        assert(g.half_edges@[a].1 == e && g.half_edges@[b].1 == e);
        let o = choose|o: Option<E2>| #[trigger] call_ensures(e_map, (e as usize, &g.edges@[e].2), o)
            && (o is Some <==> em[e] is Some)
            && (o is Some ==> hm[g.edges@[e].0 as int] is Some && hm[g.edges@[e].1 as int] is Some)
            && (o matches Some(d) ==> r.edges@[em[e].unwrap() as int] == (hm[g.edges@[e].0 as int].unwrap(), hm[g.edges@[e].1 as int].unwrap(), d));
        assert(hm[a] is Some && hm[b] is Some);
        assert(r.edges.len() == r.edges@.len());
        assert(em[e].unwrap() as int == k);
        assert(o is Some);
        assert(r.edges@[k].0 == hm[a].unwrap() && r.edges@[k].1 == hm[b].unwrap());
        assert(r.half_edges@[hm[a].unwrap() as int].1 == em[g.he_e(a)].unwrap());
        assert(r.half_edges@[hm[b].unwrap() as int].1 == em[g.he_e(b)].unwrap());
        if a < b {
            assert(hm[a].unwrap() < hm[b].unwrap());
        } else {
            assert(hm[b].unwrap() < hm[a].unwrap());
        }
    }
    assert forall|k: int| 0 <= k < r.nhe() implies {
        let (x, e2, _) = #[trigger] r.half_edges@[k];
        &&& x < r.nv()
        &&& e2 < r.ne()
        &&& (r.edges@[e2 as int].0 == k || r.edges@[e2 as int].1 == k)
        &&& r.order(x as int).contains(k as usize)
    } by {
        assert(has_number(hm, k));
        let h = choose|h: int| 0 <= h < hm.len() && #[trigger] hm[h] == Some(k as usize);
        let t = g.half_edges@[h];
        let (v, e) = (t.0 as int, t.1 as int);
        assert(vm[v] is Some && em[e] is Some);
        assert(vertex_filtered(g, r, vm, hm, v_map, v));
        assert(edge_filtered(g, r, em, hm, e_map, e));
        let oe = choose|o: Option<E2>| #[trigger] call_ensures(e_map, (e as usize, &g.edges@[e].2), o)
            && (o is Some <==> em[e] is Some)
            && (o is Some ==> hm[g.edges@[e].0 as int] is Some && hm[g.edges@[e].1 as int] is Some)
            && (o matches Some(d) ==> r.edges@[em[e].unwrap() as int] == (hm[g.edges@[e].0 as int].unwrap(), hm[g.edges@[e].1 as int].unwrap(), d));
        let ov = choose|o: Option<V2>| #[trigger] call_ensures(v_map, (v as usize, &g.vertices@[v].1), o)
            && (o is Some <==> vm[v] is Some)
            && (o matches Some(d) ==> r.vertices@[vm[v].unwrap() as int].1 == d)
            && (o is Some ==> r.order(vm[v].unwrap() as int) == renumbered(g.order(v), hm));
        assert(r.half_edges.len() == r.half_edges@.len());
        assert(hm[h].unwrap() as int == k);
        assert(r.half_edges@[k].0 == vm[v].unwrap() && r.half_edges@[k].1 == em[e].unwrap());
        assert(oe is Some);
        assert(r.edges.len() == r.edges@.len());
        let te = g.edges@[e];
        assert(te.0 == h || te.1 == h);
        assert(g.order(v).contains(h as usize));
        let o = g.order(v);
        assert forall|i: int| 0 <= i < o.len() implies #[trigger] o[i] < hm.len() by {}
        lemma_renumbered(o, hm);
        let i = choose|i: int| 0 <= i < o.len() && o[i] == h as usize;
        assert(hm[o[i] as int] == Some(k as usize));
    }
    assert forall|w: int| 0 <= w < r.nv() implies {
        let o = #[trigger] r.order(w);
        &&& forall|i: int| 0 <= i < o.len() ==> #[trigger] o[i] < r.nhe() && r.half_edges@[o[i] as int].0 == w
        &&& forall|i: int, j: int| 0 <= i < j < o.len() ==> o[i] != o[j]
    } by {
        assert(has_number(vm, w));
        let v = choose|v: int| 0 <= v < vm.len() && #[trigger] vm[v] == Some(w as usize);
        assert(vertex_filtered(g, r, vm, hm, v_map, v));
        let go = g.order(v);
        assert forall|i: int| 0 <= i < go.len() implies #[trigger] go[i] < hm.len() by {}
        lemma_renumbered(go, hm);
        let ov = choose|oo: Option<V2>| #[trigger] call_ensures(v_map, (v as usize, &g.vertices@[v].1), oo)
            && (oo is Some <==> vm[v] is Some)
            && (oo matches Some(d) ==> r.vertices@[vm[v].unwrap() as int].1 == d)
            && (oo is Some ==> r.order(vm[v].unwrap() as int) == renumbered(g.order(v), hm));
        assert(r.vertices.len() == r.vertices@.len());
        assert(vm[v].unwrap() as int == w);
        assert(ov is Some);
        let o = r.order(w);
        assert(o == renumbered(go, hm));
        assert forall|i: int| 0 <= i < o.len() implies #[trigger] o[i] < r.nhe() && r.half_edges@[o[i] as int].0 == w by {
            assert(o.contains(o[i]));
            let ii = choose|ii: int| 0 <= ii < go.len() && hm[go[ii] as int] == Some(o[i]);
            let h = go[ii] as int;
            assert(g.half_edges@[h].0 == v);
            assert(r.half_edges.len() == r.half_edges@.len());
        }
    }
}

/// Entry `j` of the new edges joins the renumbered half-edges of the `j`-th kept edge.
pub open spec fn edge_entry_ok<V, HE, E, E2>(g: EmbGraph<V, HE, E>, hm: Seq<Option<usize>>, ke: Seq<(usize, E2)>, edges: Seq<(usize, usize, E2)>, j: int) -> bool {
    let e = ke[j].0 as int;
    &&& hm[g.edges@[e].0 as int] is Some
    &&& hm[g.edges@[e].1 as int] is Some
    &&& edges[j] == (hm[g.edges@[e].0 as int].unwrap(), hm[g.edges@[e].1 as int].unwrap(), ke[j].1)
}

/// The order of the half-edges of `order` that `hm` keeps, renumbered.
fn renumber_order(order: &CyclicOrder<usize>, hm: &Vec<Option<usize>>) -> (r: CyclicOrder<usize>)
    requires
        forall|i: int| 0 <= i < order@.len() ==> #[trigger] order@[i] < hm@.len(),
    ensures
        r@ == renumbered(order@, hm@),
{
    let mut data: Vec<usize> = Vec::new();
    let mut i: usize = 0;
    while i < order.data.len()
        invariant
            i <= order@.len(),
            forall|j: int| 0 <= j < order@.len() ==> #[trigger] order@[j] < hm@.len(),
            data@ == renumbered(order@.subrange(0, i as int), hm@),
        decreases order@.len() - i,
    {
        let l = order.data[i];
        proof {
            let s1 = order@.subrange(0, i + 1);
            assert(s1.drop_last() == order@.subrange(0, i as int));
            assert(s1.map_values(|l: usize| hm@[l as int]).drop_last() == order@.subrange(0, i as int).map_values(|l: usize| hm@[l as int]));
            assert(s1.map_values(|l: usize| hm@[l as int]).last() == hm@[l as int]);
        }
        match hm[l] {
            Some(x) => data.push(x),
            None => {},
        }
        i = i + 1;
    }
    proof {
        assert(order@.subrange(0, order@.len() as int) == order@);
    }
    CyclicOrder { data }
}

/// Reverses a vector of pairs.
fn reverse_pairs<A, B>(v: Vec<(A, B)>) -> (r: Vec<(A, B)>)
    ensures
        r@ == v@.reverse(),
{
    let ghost orig = v@;
    let mut v = v;
    let mut rev: Vec<(A, B)> = Vec::new();
    while v.len() > 0
        invariant
            orig.len() == v@.len() + rev@.len(),
            forall|j: int| 0 <= j < v@.len() ==> v@[j] == orig[j],
            forall|j: int| 0 <= j < rev@.len() ==> rev@[j] == orig[orig.len() - 1 - j],
        decreases v@.len(),
    {
        let e = v.pop().unwrap();
        rev.push(e);
    }
    assert(rev@ =~= orig.reverse());
    rev
}

/// `o` with `x` inserted just after `after`, or last.
pub open spec fn inserted_after(o: Seq<usize>, x: usize, after: Option<usize>) -> Seq<usize> {
    o.insert(
        match after {
            Some(a) => first_pos(o, a) + 1,
            None => o.len() as int,
        },
        x,
    )
}

/// Inserting a new element keeps the entries distinct, and adds just that element.
proof fn lemma_insert_after(o: Seq<usize>, x: usize, after: Option<usize>)
    requires
        after matches Some(a) ==> o.contains(a),
    ensures
        after matches Some(a) ==> 0 <= first_pos(o, a) < o.len(),
        inserted_after(o, x, after).contains(x),
        forall|y: usize| #[trigger] inserted_after(o, x, after).contains(y) ==> y == x || o.contains(y),
        forall|y: usize| o.contains(y) ==> #[trigger] inserted_after(o, x, after).contains(y),
        (forall|i: int, j: int| 0 <= i < j < o.len() ==> o[i] != o[j]) && !o.contains(x) ==>
            forall|i: int, j: int| 0 <= i < j < o.len() + 1 ==> #[trigger] inserted_after(o, x, after)[i] != #[trigger] inserted_after(o, x, after)[j],
{
    match after {
        Some(a) => {
            lemma_first_pos(o, a);
        },
        None => {},
    }
    let p = match after {
        Some(a) => first_pos(o, a) + 1,
        None => o.len() as int,
    };
    let r = o.insert(p, x);
    assert(r[p] == x);
    assert forall|y: usize| #[trigger] r.contains(y) implies y == x || o.contains(y) by {
        let k = choose|k: int| 0 <= k < r.len() && r[k] == y;
        if k < p {
            assert(o[k] == y);
        } else if k > p {
            assert(o[k - 1] == y);
        }
    }
    assert forall|y: usize| o.contains(y) implies #[trigger] r.contains(y) by {
        let k = choose|k: int| 0 <= k < o.len() && o[k] == y;
        if k < p {
            assert(r[k] == y);
        } else {
            assert(r[k + 1] == y);
        }
    }
    if (forall|i: int, j: int| 0 <= i < j < o.len() ==> o[i] != o[j]) && !o.contains(x) {
        assert forall|i: int, j: int| 0 <= i < j < o.len() + 1 implies #[trigger] r[i] != #[trigger] r[j] by {
            if i == p {
                assert(o.contains(r[j]));
            } else if j == p {
                assert(o.contains(r[i]));
            } else {
                let i0 = if i < p { i } else { i - 1 };
                let j0 = if j < p { j } else { j - 1 };
                assert(r[i] == o[i0] && r[j] == o[j0]);
            }
        }
    }
}

/// In a well-formed graph, the edge count is at most the half-edge count.
proof fn lemma_edges_bound<V, HE, E>(g: EmbGraph<V, HE, E>)
    requires
        g.wf(),
    ensures
        g.ne() <= g.nhe(),
{
    let f = |e: int| g.edges@[e].0 as int;
    let dom = vstd::set_lib::set_int_range(0, g.ne());
    let img = vstd::set_lib::set_int_range(0, g.nhe());
    assert(vstd::relations::injective_on(f, dom)) by {
        assert forall|e1: int, e2: int| dom.contains(e1) && dom.contains(e2) && #[trigger] f(e1) == #[trigger] f(e2) implies e1 == e2 by {
            let t1 = g.edges@[e1];
            let t2 = g.edges@[e2];
            assert(g.half_edges@[t1.0 as int].1 == e1);
            assert(g.half_edges@[t2.0 as int].1 == e2);
        }
    }
    assert(dom.map(f).subset_of(img)) by {
        assert forall|h: int| dom.map(f).contains(h) implies img.contains(h) by {
            let e = choose|e: int| dom.contains(e) && f(e) == h;
            let t = g.edges@[e];
        }
    }
    vstd::set_lib::lemma_int_range(0, g.ne());
    vstd::set_lib::lemma_int_range(0, g.nhe());
    vstd::set_lib::lemma_map_size(dom, dom.map(f), f);
    vstd::set_lib::lemma_len_subset(dom.map(f), img);
}

/// Under `each_edge_twice`, `build` gives distinct positions distinct half-edges.
proof fn lemma_built_injective(adj: Seq<Seq<usize>>, e: int, u: int, i: int, u2: int, i2: int)
    requires
        each_edge_twice(adj, e),
        is_pos(adj, u, i),
        is_pos(adj, u2, i2),
        pos_before(u, i, u2, i2),
    ensures
        built_half_edge(adj, u, i) != built_half_edge(adj, u2, i2),
{
    let x = adj[u][i];
    let y = adj[u2][i2];
    if x == y {
        lemma_occ_before_grows(adj, x, u, i, u2, i2);
        lemma_occ_before_bound(adj, x, u2, i2);
        assert(count_rows(adj, adj.len() as int, x) == 2);
    }
}

/// The half-edge of a position is twice its edge id, plus 0 or 1.
proof fn lemma_built_half(adj: Seq<Seq<usize>>, u: int, i: int)
    requires
        is_pos(adj, u, i),
    ensures
        built_half_edge(adj, u, i) / 2 == adj[u][i],
        2 * adj[u][i] <= built_half_edge(adj, u, i) <= 2 * adj[u][i] + 1,
{
    let b = (occ_before(adj, u, i, adj[u][i]) % 2) as int;
    let x = adj[u][i] as int;
    assert((2 * x + b) / 2 == x) by (nonlinear_arith)
        requires
            0 <= b < 2,
    ;
}

/// What `build` makes of rows in which every edge id below the number of edges occurs exactly
/// twice is well-formed.
proof fn lemma_built_wf(adj: Seq<Seq<usize>>, r: EmbGraph)
    requires
        each_edge_twice(adj, r.ne()),
        r.nv() == adj.len(),
        r.nhe() == 2 * r.ne(),
        forall|k: int| 0 <= k < r.ne() ==> (#[trigger] r.edges@[k]).0 == 2 * k && r.edges@[k].1 == 2 * k + 1,
        forall|h: int| 0 <= h < r.nhe() ==> (#[trigger] r.half_edges@[h]).1 == h / 2,
        forall|v: int| 0 <= v < adj.len() ==> (#[trigger] r.order(v)).len() == adj[v].len(),
        forall|v: int, j: int| 0 <= v < adj.len() && 0 <= j < adj[v].len() ==> #[trigger] r.order(v)[j]
            == built_half_edge(adj, v, j),
        forall|h: int| 0 <= h < r.nhe() ==> (#[trigger] r.half_edges@[h]).0 < adj.len(),
        forall|u: int, i: int| #![trigger built_half_edge(adj, u, i)] is_pos(adj, u, i) && !overwritten(adj, u, i, adj.len() as int, 0)
            ==> r.half_edges@[built_half_edge(adj, u, i)].0 == u,
    ensures
        r.wf(),
{
    let n = adj.len() as int;
    assert forall|u: int, i: int| #![trigger built_half_edge(adj, u, i)] is_pos(adj, u, i) implies !overwritten(adj, u, i, n, 0) by {
        if overwritten(adj, u, i, n, 0) {
            let (u2, i2) = choose|u2: int, i2: int| #![trigger built_half_edge(adj, u2, i2)] is_pos(adj, u2, i2)
                && pos_before(u, i, u2, i2) && pos_before(u2, i2, n, 0)
                && built_half_edge(adj, u2, i2) == built_half_edge(adj, u, i);
            lemma_built_injective(adj, r.ne(), u, i, u2, i2);
        }
    }
    assert forall|h: int| 0 <= h < r.nhe() implies (#[trigger] r.half_edges@[h]).0 < r.nv() && r.half_edges@[h].1 < r.ne()
        && (r.edges@[r.half_edges@[h].1 as int].0 == h || r.edges@[r.half_edges@[h].1 as int].1 == h)
        && r.order(r.half_edges@[h].0 as int).contains(h as usize) by {
        assert(0 <= h / 2 < r.ne() && 2 * (h / 2) + h % 2 == h && 0 <= h % 2 < 2) by (nonlinear_arith)
            requires
                0 <= h < 2 * r.ne(),
        ;
        assert(r.ne() == r.edges.len());
        let x = (h / 2) as usize;
        assert(x == h / 2);
        let k = (h % 2) as nat;
        assert(count_rows(adj, n, x) == 2);
        lemma_find_occurrence(adj, x, k, n);
        let (u, i) = choose|u: int, i: int| #![trigger adj[u][i]] is_pos(adj, u, i) && u < n && adj[u][i] == x && occ_before(adj, u, i, x) == k;
        assert(occ_before(adj, u, i, x) % 2 == k);
        assert(built_half_edge(adj, u, i) == 2 * x + k);
        assert(built_half_edge(adj, u, i) == h);
        assert(r.half_edges@[h].0 == u);
        assert(r.order(u)[i] == h);
        assert(r.order(u).contains(h as usize));
        assert(h / 2 < r.ne());
    }
    assert(r.wf_half_edges());
    assert(r.wf_edges());
    assert forall|v: int| 0 <= v < r.nv() implies #[trigger] r.order(v).len() >= 0 && (forall|i: int| 0 <= i < r.order(v).len() ==> #[trigger] r.order(v)[i]
        < r.nhe() && r.half_edges@[r.order(v)[i] as int].0 == v) && (forall|i: int, j: int| 0 <= i < j < r.order(v).len()
        ==> r.order(v)[i] != r.order(v)[j]) by {
        let o = r.order(v);
        assert forall|i: int| 0 <= i < o.len() implies #[trigger] o[i] < r.nhe() && r.half_edges@[o[i] as int].0 == v by {
            lemma_built_half(adj, v, i);
            assert(adj[v][i] < r.ne());
            assert(o[i] == built_half_edge(adj, v, i));
        }
        assert forall|i: int, j: int| 0 <= i < j < o.len() implies o[i] != o[j] by {
            lemma_built_injective(adj, r.ne(), v, i, v, j);
        }
    }
    assert(r.wf_vertices());
}

} // verus!
