use rcomb::objects::chord_diagram::ChordDiagram;
use rcomb::objects::cyclic_order::CyclicOrder;
use rcomb::objects::embedded_graph::EmbGraph;
use rcomb::objects::jacobi::{
    edge_ids_at, is_jacobi_skeleton, jacobi_base, jacobi_embeddings, line_numbers, multig_edges, parse_multig_line,
    vertex_orderings,
};

#[test]
fn build_triangle_neighbours() {
    let g = EmbGraph::build(vec![vec![0, 2], vec![0, 1], vec![1, 2]]);
    assert_eq!(g.num_edges(), 3);
    assert_eq!(g.neighbours(0), vec![1, 2]);
    assert_eq!(g.neighbours(1), vec![0, 2]);
    assert_eq!(g.neighbours(2), vec![1, 0]);
}

#[test]
fn build_counts_one_more_than_largest_entry() {
    assert_eq!(EmbGraph::build(vec![vec![0], vec![0]]).num_edges(), 1);
    assert_eq!(EmbGraph::build(vec![vec![4], vec![]]).num_edges(), 5);
    assert_eq!(EmbGraph::build(vec![vec![], vec![]]).num_edges(), 0);
}

#[test]
fn multig_line_is_read() {
    assert_eq!(
        parse_multig_line(b"4 3  0 1 1 1 2 2\t2 3 1"),
        Some((4, vec![(0, 1, 1), (1, 2, 2), (2, 3, 1)]))
    );
    assert_eq!(parse_multig_line(b"3 1 0 1 x 2 7"), Some((3, vec![(0, 1, 2)])));
    assert_eq!(parse_multig_line(b"5"), None);
    assert_eq!(parse_multig_line(b""), None);
    assert_eq!(line_numbers(b"  12 +3 -4 a5 6  "), vec![12, 3, 6]);
}

#[test]
fn multig_edges_repeat_by_multiplicity() {
    assert_eq!(multig_edges(&vec![(0, 1, 2), (1, 2, 0), (2, 3, 1)]), vec![(0, 1), (0, 1), (2, 3)]);
}

#[test]
fn jacobi_skeletons() {
    assert!(is_jacobi_skeleton(2, &vec![(0, 1)]));
    assert!(is_jacobi_skeleton(4, &vec![(0, 1), (0, 2), (0, 3)]));
    assert!(!is_jacobi_skeleton(3, &vec![(0, 1), (1, 2), (2, 0)]));
    assert!(!is_jacobi_skeleton(2, &vec![(0, 1), (0, 1), (0, 1)]));
    assert!(!is_jacobi_skeleton(2, &vec![(0, 1), (0, 1)]));
    assert!(is_jacobi_skeleton(0, &vec![]));
}

#[test]
fn edge_ids_in_petgraph_order() {
    let edges = vec![(0, 1), (2, 0), (0, 3), (1, 1)];
    assert_eq!(edge_ids_at(&edges, 0), vec![2, 0, 1]);
    assert_eq!(edge_ids_at(&edges, 1), vec![3, 0]);
}

#[test]
fn star_has_two_orderings() {
    let base = jacobi_base(4, &vec![(0, 1), (0, 2), (0, 3)]);
    assert_eq!(base.num_verts(), 4);
    assert_eq!(base.num_edges(), 3);
    let gs = vertex_orderings(&base);
    assert_eq!(gs.len(), 2);
    assert_ne!(gs[0].vertices[0].0.data, gs[1].vertices[0].0.data);
    assert_eq!(gs[0].vertices[0].0.data[0], base.vertices[0].0.data[0]);
}

#[test]
fn jacobi_diagrams_of_degree_one() {
    let mut count = 0;
    for line in ["2 1 0 1 1", "2 1 0 1 2", "2 1 0 1 3"] {
        let (n, triples) = parse_multig_line(line.as_bytes()).unwrap();
        let edges = multig_edges(&triples);
        if is_jacobi_skeleton(n, &edges) {
            count += vertex_orderings(&jacobi_base(n, &edges)).len();
        }
    }
    assert_eq!(count, 1);
}

#[test]
fn text_forms() {
    assert_eq!(CyclicOrder { data: vec![0usize, 2, 1] }.to_string(), "(0, 2, 1)");
    assert_eq!(CyclicOrder::<usize> { data: vec![] }.to_string(), "()");
    assert_eq!(ChordDiagram::parse("0 1 0 1").unwrap().to_string(), "(0, 1, 0, 1)");
    let g = EmbGraph::build(vec![vec![0], vec![0]]);
    let s = g.to_string_with(
        &vec!["a".to_string(), "b".to_string()],
        &vec!["x".to_string(), "y".to_string()],
        &vec!["z".to_string()],
    );
    assert_eq!(
        s,
        "{ vertices: [v0((0), a), v1((1), b)], half_edges: [he0(v0, e0, x), he1(v1, e0, y)], edges: [e0(he0-he1, z)] }"
    );
}

#[test]
fn reversed_order_follows_backwards() {
    let o = CyclicOrder { data: vec![1usize, 2, 3, 4] };
    let r = o.rev();
    assert_eq!(r.data, vec![4, 3, 2, 1]);
    assert_eq!(r.rev().data, o.data);
    for x in 1..=4usize {
        let y = o.next(x);
        assert_eq!(r.next(y), x);
    }
}

#[test]
fn jacobi_embeddings_of_skeletons_only() {
    assert!(jacobi_embeddings(2, &vec![(0, 1), (0, 1)]).is_empty());
    assert!(jacobi_embeddings(3, &vec![(0, 1), (1, 2), (2, 0)]).is_empty());
    assert_eq!(jacobi_embeddings(2, &vec![(0, 1)]).len(), 1);
    assert_eq!(jacobi_embeddings(4, &vec![(0, 1), (0, 2), (0, 3)]).len(), 2);
    let mut count = 0;
    for line in ["2 1 0 1 1", "2 1 0 1 2", "2 1 0 1 3"] {
        let (n, triples) = parse_multig_line(line.as_bytes()).unwrap();
        count += jacobi_embeddings(n, &multig_edges(&triples)).len();
    }
    assert_eq!(count, 1);
}
