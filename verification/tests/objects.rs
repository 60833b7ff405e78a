use rcomb::objects::cyclic_order::CyclicOrder;
use rcomb::objects::embedded_graph::{EmbGraph, JacobiDeg};
use rcomb::objects::framed_graph::Framing;
use rcomb::CombGrad;

fn order(data: Vec<usize>) -> CyclicOrder<usize> {
    CyclicOrder { data }
}

#[test]
fn cyclic_order_insert_next_remove() {
    let mut o = CyclicOrder::<usize>::default();
    o.insert(1, None);
    o.insert(2, None);
    o.insert(3, Some(1));
    assert_eq!(o.data, vec![1, 3, 2]);
    assert_eq!(o.next(3), 2);
    assert_eq!(o.next(2), 1);
    o.replace(3, 7);
    assert_eq!(o.data, vec![1, 7, 2]);
    o.remove(1);
    assert_eq!(o.data, vec![7, 2]);
    assert_eq!(o.len(), 2);
}

#[test]
fn cyclic_order_rotations_are_equal() {
    assert!(order(vec![1, 2, 3]) == order(vec![2, 3, 1]));
    assert!(order(vec![1, 2, 3]) != order(vec![1, 3, 2]));
    assert!(order(vec![]) == order(vec![]));
    assert!(order(vec![1]) != order(vec![1, 1]));
    assert_eq!(order(vec![4, 5, 6, 7]).iter_from(6), vec![6, 7, 4, 5]);
    assert_eq!(order(vec![4, 5, 6]).rev().data, vec![6, 5, 4]);
    let halves = order(vec![1, 2, 3, 4]).filter_map(|x| if x % 2 == 0 { Some(x / 2) } else { None });
    assert_eq!(halves.data, vec![1, 2]);
}

#[test]
fn cyclic_order_permutations() {
    let perms = order(vec![1, 2, 3, 4]).permutations();
    assert_eq!(perms.len(), 6);
    assert!(perms.iter().all(|p| p.data[0] == 1 && p.len() == 4));
    for i in 0..perms.len() {
        for j in i + 1..perms.len() {
            assert!(perms[i] != perms[j]);
        }
    }
    assert_eq!(order(vec![9]).permutations().len(), 1);
}

fn claw() -> EmbGraph {
    EmbGraph::build(vec![vec![0, 1, 2], vec![0], vec![1], vec![2]])
}

#[test]
fn emb_graph_build_claw() {
    let g = claw();
    assert_eq!(g.num_verts(), 4);
    assert_eq!(g.num_edges(), 3);
    assert_eq!(g.vertices[0].0.data, vec![0, 2, 4]);
    assert_eq!(g.vertices[1].0.data, vec![1]);
    assert_eq!(g.he_vertex(5), 3);
    assert_eq!(g.he_edge(5), 2);
    assert_eq!(g.he_other(2), 3);
    assert_eq!(g.he_other(3), 2);
    assert_eq!(g.he_next(0), 1);
    assert_eq!(g.he_next(1), 2);
    assert_eq!(g.neighbours(0), vec![1, 2, 3]);
    assert_eq!(g.vertex_degree(0), 3);
    assert_eq!(<EmbGraph as CombGrad<usize>>::degree(&g), 4usize);
    let d: JacobiDeg = g.degree();
    assert_eq!(d, JacobiDeg(2));
}

#[test]
fn emb_graph_build_loop_edge() {
    let g = EmbGraph::build(vec![vec![0, 0]]);
    assert_eq!(g.vertices[0].0.data, vec![0, 1]);
    assert_eq!(g.he_other(0), 1);
    assert_eq!(g.neighbours(0), vec![0, 0]);
}

#[test]
fn emb_graph_hash_counts_degrees() {
    let g = claw();
    // 3 vertices of degree 1, one of degree 3; the leaves have 4 second neighbours (all but
    // none: the centre's neighbours are the leaves, each leaf reaches the 3 leaves), the centre 1
    let h = g.graph_hash();
    assert_eq!(h.len(), 9);
    assert_eq!(h[1], 3);
    assert_eq!(h[3], 1);
    assert_eq!(h[4 + 3], 3);
    assert_eq!(h[4 + 1], 1);
}

#[test]
fn emb_graph_add_and_remove() {
    let mut g: EmbGraph<u8, u8, u8> = EmbGraph::new(2, |k| k as u8);
    let v = g.add_vertex(9);
    assert_eq!(v, 2);
    g.add_edge(0, None, 10, 1, None, 11, 100);
    g.add_edge(0, Some(0), 12, 2, None, 13, 101);
    assert_eq!(g.vertices[0].0.data, vec![0, 2]);
    assert_eq!(*g.he(3), 13);
    assert_eq!(*g.e(1), 101);
    assert_eq!(g.update_edge(1, 7), 101);
    assert_eq!(g.update_vertex(2, 8), 9);
    assert_eq!(g.update_half_edge(0, 5), 10);
    let w = g.add_vertex(4);
    assert_eq!(g.remove_vertex(w), 4);
    assert_eq!(g.num_verts(), 3);
}

#[test]
fn emb_graph_remove_edge_listed_backwards() {
    // the edge's half-edges are listed last half-edge first, which remove_edge can handle
    let mut g: EmbGraph = EmbGraph::new(2, |_| ());
    g.add_edge(0, None, (), 1, None, (), ());
    g.edges[0] = (1, 0, ());
    g.remove_edge(0);
    assert_eq!(g.num_edges(), 0);
    assert_eq!(g.half_edges.len(), 0);
    assert_eq!(g.vertex_degree(0), 0);
}

#[test]
fn emb_graph_subgraphs() {
    let g = claw();
    let e = g.edge_subgraph(|k, _| k != 1);
    assert_eq!(e.num_edges(), 2);
    assert_eq!(e.num_verts(), 4);
    assert_eq!(e.vertices[0].0.data, vec![0, 2]);
    assert_eq!(e.vertices[2].0.data, Vec::<usize>::new());
    assert_eq!(e.neighbours(0), vec![1, 3]);
    let v = e.vertex_subgraph(|k, _| k != 2);
    assert_eq!(v.num_verts(), 3);
    assert_eq!(v.num_edges(), 2);
    assert_eq!(v.neighbours(0), vec![1, 2]);
    let m = g.map(|k, _| k * 10, |k, _| k, |_, _| 'e');
    assert_eq!(*m.v(3), 30);
    assert_eq!(*m.he(4), 4);
    assert_eq!(*m.e(0), 'e');
    let f = g.filter_map(|k, _| Some(k), |k, _| k, |k, _| if k == 0 { Some(k) } else { None });
    assert_eq!(f.num_edges(), 1);
    assert_eq!(f.half_edges.len(), 2);
}

#[test]
fn framing_adds_modulo_two() {
    assert_eq!(Framing::One + Framing::One, Framing::Zero);
    assert_eq!(Framing::Zero + Framing::One, Framing::One);
    let mut f = Framing::default();
    f += Framing::One;
    assert_eq!(f, Framing::One);
    assert_eq!(Framing::sum(&vec![Framing::One, Framing::One, Framing::One]), Framing::One);
    assert_eq!(Framing::from(true), Framing::One);
    assert_eq!(Framing::from(false).symbol(), '0');
}

#[test]
fn emb_graph_counts_components() {
    assert_eq!(claw().connected_component_number(), 1);
    let two_edges = EmbGraph::build(vec![vec![0], vec![0], vec![1], vec![1]]);
    assert_eq!(two_edges.connected_component_number(), 2);
    let empty = EmbGraph::build(vec![]);
    assert_eq!(empty.connected_component_number(), 0);
    let isolated = EmbGraph::build(vec![vec![], vec![], vec![]]);
    assert_eq!(isolated.connected_component_number(), 3);
}

#[test]
fn emb_graph_component_subgraphs() {
    let parts = claw().connected_components_subgraphs();
    assert_eq!(parts.len(), 1);
    assert_eq!(parts[0].num_verts(), 4);
    assert_eq!(parts[0].num_edges(), 3);
    let isolated = EmbGraph::build(vec![vec![], vec![], vec![]]);
    let parts = isolated.connected_components_subgraphs();
    assert_eq!(parts.len(), 3);
    assert!(parts.iter().all(|p| p.num_verts() == 1 && p.num_edges() == 0));
}

#[test]
fn cyclic_order_equality_is_an_equivalence() {
    let a = order(vec![1, 2, 3, 4]);
    let b = order(vec![3, 4, 1, 2]);
    let c = order(vec![4, 1, 2, 3]);
    assert!(a == a);
    assert!(a == b && b == a);
    assert!(b == c && a == c);
}

#[test]
fn built_rotation_system_is_well_formed() {
    // every edge id occurs twice, so the result is well formed and its isolated vertex can go
    let mut g = EmbGraph::build(vec![vec![0, 1], vec![1, 0], vec![]]);
    assert_eq!(g.vertex_degree(2), 0);
    g.remove_vertex(2);
    assert_eq!(g.num_verts(), 2);
    assert_eq!(g.num_edges(), 2);
    assert_eq!(g.neighbours(0), vec![1, 1]);
    assert_eq!(g.connected_component_number(), 1);
}
