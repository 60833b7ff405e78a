use vstd::prelude::*;
use petgraph::graph::{NodeIndex, UnGraph};
use petgraph::graph6::ToGraph6;
use crate::objects::graph::Graph;
use crate::text::chars_of;

verus! {

/// The six bits that graph6 reads from the character `c`: its code less 63, modulo 64.
pub open spec fn g6_value(c: char) -> int {
    ((c as u32) as int - 63) % 64
}

/// The number of characters that give the order: four after a leading `~`, else one.
pub open spec fn graph6_header_len(s: Seq<char>) -> int {
    if s[0] == '~' { 4 } else { 1 }
}

/// The order that a graph6 string gives: after a leading `~`, the 18 bits of the next three
/// characters; else the six bits of the first character.
pub open spec fn graph6_order(s: Seq<char>) -> int {
    if s[0] == '~' {
        g6_value(s[1]) * 4096 + g6_value(s[2]) * 64 + g6_value(s[3])
    } else {
        g6_value(s[0])
    }
}

/// `s` can be read as graph6: it is not empty, no character is below `?`, the order is
/// complete, and the characters after it hold a bit for every pair of vertices.
pub open spec fn graph6_readable(s: Seq<char>) -> bool {
    &&& s.len() >= 1
    &&& forall|i: int| 0 <= i < s.len() ==> (#[trigger] s[i] as u32) >= 63
    &&& s[0] == '~' ==> s.len() >= 4
    &&& graph6_order(s) * (graph6_order(s) - 1) / 2 <= 6 * (s.len() - graph6_header_len(s))
}

/// The edges that `petgraph` reads from a graph6 string.
pub uninterp spec fn graph6_edges(s: Seq<char>) -> Seq<(usize, usize)>;

/// The graph6 string that `petgraph` writes for a graph with vertices `0..n` and these edges.
pub uninterp spec fn graph6_text(n: nat, edges: Seq<(usize, usize)>) -> Seq<char>;

/// `petgraph::graph6::from_graph6_representation`, which `FromGraph6::from_graph6_string`
/// builds its graph from: the order and the edges of a graph6 string. As its source shows,
/// every edge `(a, b)` has `a < b < order`, and at most one edge is read from each bit after
/// the order. It panics on the strings that `graph6_readable` leaves out.
#[verifier::external_body]
fn graph6_decode(s: &str) -> (r: (usize, Vec<(usize, usize)>))
    requires
        graph6_readable(s@),
    ensures
        r.0 == graph6_order(s@),
        r.1@ == graph6_edges(s@),
        forall|k: int| 0 <= k < r.1@.len() ==> (#[trigger] r.1@[k]).0 < r.1@[k].1 && r.1@[k].1 < r.0,
        r.1@.len() <= 6 * s@.len(),
{
    petgraph::graph6::from_graph6_representation::<usize>(s.to_string())
}

/// `ToGraph6::graph6_string` on the `petgraph` graph with vertices `0..n` and these edges.
/// It panics above order 258047.
#[verifier::external_body]
fn graph6_encode(n: usize, edges: &Vec<(usize, usize)>) -> (r: String)
    requires
        n <= 258047,
        edges@.len() <= u32::MAX,
        forall|k: int| 0 <= k < edges@.len() ==> (#[trigger] edges@[k]).0 < n && edges@[k].1 < n,
    ensures
        r@ == graph6_text(n as nat, edges@),
{
    let mut g: UnGraph<(), ()> = UnGraph::default();
    let nodes: Vec<NodeIndex> = (0..n).map(|_| g.add_node(())).collect();
    for &(a, b) in edges.iter() {
        g.add_edge(nodes[a], nodes[b], ());
    }
    g.graph6_string()
}

/// The six bits of a character, as `g6_value` reads them.
fn char_value(c: char) -> (r: u64)
    requires
        (c as u32) >= 63,
    ensures
        r == g6_value(c),
        r < 64,
{
    ((c as u32 - 63) % 64) as u64
}

impl Graph<()> {
    /// Whether `s` can be read as graph6 (see `graph6_readable`).
    pub fn is_graph6(s: &str) -> (r: bool)
        ensures
            r == graph6_readable(s@),
    {
        let cs = chars_of(s);
        let n = cs.len();
        if n == 0 {
            return false;
        }
        let mut i: usize = 0;
        while i < n
            invariant
                cs@ == s@,
                n == cs@.len(),
                i <= n,
                forall|j: int| 0 <= j < i ==> (#[trigger] cs@[j] as u32) >= 63,
            decreases n - i,
        {
            if (cs[i] as u32) < 63 {
                assert((s@[i as int] as u32) < 63);
                return false;
            }
            i = i + 1;
        }
        let h: usize = if cs[0] == '~' { 4 } else { 1 };
        if n < h {
            return false;
        }
        let order: u64 = if cs[0] == '~' {
            let x = char_value(cs[1]);
            let y = char_value(cs[2]);
            let z = char_value(cs[3]);
            assert(x * 4096 + y * 64 + z < 262144) by (nonlinear_arith)
                requires
                    x < 64,
                    y < 64,
                    z < 64,
            ;
            x * 4096 + y * 64 + z
        } else {
            char_value(cs[0])
        };
        assert(order < 262144);
        let pairs: u64 = if order == 0 {
            0
        } else {
            assert(order * (order - 1) < 262144 * 262144) by (nonlinear_arith)
                requires
                    1 <= order < 262144,
            ;
            order * (order - 1) / 2
        };
        proof {
            assert(order == graph6_order(s@));
            assert(pairs == graph6_order(s@) * (graph6_order(s@) - 1) / 2) by (nonlinear_arith)
                requires
                    order == graph6_order(s@),
                    order == 0 ==> pairs == 0,
                    order > 0 ==> pairs == order * (order - 1) / 2,
            ;
        }
        (pairs as u128) <= 6 * ((n - h) as u128)
    }

    /// The graph that the graph6 string `graph6_string` describes, read by `petgraph`: its
    /// order, and its edges in the order in which they were read.
    pub fn from_graph6_string(graph6_string: String) -> (r: Self)
        requires
            graph6_readable(graph6_string@),
            6 * graph6_string@.len() <= u32::MAX,
        ensures
            r.wf(),
            r.nv() == graph6_order(graph6_string@),
            r.edge_list() == graph6_edges(graph6_string@),
    {
        let (n, edges) = graph6_decode(graph6_string.as_str());
        let mut g: Graph<()> = Graph::default();
        let mut i: usize = 0;
        while i < n
            invariant
                n == graph6_order(graph6_string@),
                n <= 262143,
                i <= n,
                g.wf(),
                g.nv() == i,
                g.edge_list() == Seq::<(usize, usize)>::empty(),
            decreases n - i,
        {
            g.add_vertex();
            i = i + 1;
        }
        let mut k: usize = 0;
        while k < edges.len()
            invariant
                n == graph6_order(graph6_string@),
                edges@.len() <= u32::MAX,
                forall|j: int| 0 <= j < edges@.len() ==> (#[trigger] edges@[j]).0 < edges@[j].1 && edges@[j].1 < n,
                k <= edges@.len(),
                g.wf(),
                g.nv() == n,
                g.edge_list() == edges@.take(k as int),
            decreases edges@.len() - k,
        {
            let (a, b) = edges[k];
            g.add_edge(a, b);
            k = k + 1;
            proof {
                assert(g.edge_list() =~= edges@.take(k as int));
            }
        }
        proof {
            assert(edges@.take(k as int) =~= edges@);
        }
        g
    }

    /// The graph in graph6, as `petgraph` writes it.
    pub fn graph6_string(&self) -> (r: String)
        requires
            self.wf(),
            self.nv() <= 258047,
        ensures
            r@ == graph6_text(self.nv(), self.edge_list()),
    {
        let edges = self.edges();
        graph6_encode(self.num_verts(), &edges)
    }
}

} // verus!
