use rcomb::objects::graph::Graph;
use rcomb::objects::framed_graph::{FGraph, Framing};
use rcomb::objects::graph_template::{GraphTemplate, GraphTemplateLimits, GraphTemplateVertex};
use rcomb::{CombEq, CombGrad};
use rcomb::collections::set::CombSet;
use GraphTemplateVertex::{Free, Group};

fn graph(n: usize, edges: &[(usize, usize)]) -> Graph {
    let mut g = Graph::default();
    for _ in 0..n {
        g.add_vertex();
    }
    for &(a, b) in edges {
        g.add_edge(a, b);
    }
    g
}

#[test]
fn graph_counts_and_edges() {
    let g = graph(4, &[(0, 1), (1, 2)]);
    assert_eq!(g.num_verts(), 4);
    assert_eq!(g.num_edges(), 2);
    assert_eq!(g.edges(), vec![(0, 1), (1, 2)]);
    assert!(g.has_edge(2, 1));
    assert!(!g.has_edge(0, 2));
    assert_eq!(CombGrad::<usize>::degree(&g), 4);
    assert_eq!(g.vertices().len(), 4);
}

#[test]
fn graph_neighbours_in_petgraph_order() {
    let g = graph(3, &[(0, 1), (2, 0), (0, 2), (1, 1)]);
    assert_eq!(g.neighbours(0), vec![2, 1, 2]);
    assert_eq!(g.neighbours(1), vec![1, 0]);
    assert_eq!(g.vertex_degree(0), 3);
    assert_eq!(g.neighbours(7), Vec::<usize>::new());
}

#[test]
fn graph_components() {
    let g = graph(5, &[(0, 1), (3, 4)]);
    assert_eq!(g.connected_component_number(), 3);
    let parts = g.connected_components_subgraphs();
    let mut sizes: Vec<(usize, usize)> = parts.iter().map(|h| (h.num_verts(), h.num_edges())).collect();
    sizes.sort();
    assert_eq!(sizes, vec![(1, 0), (2, 1), (2, 1)]);
}

#[test]
fn graph_subgraphs_renumber() {
    let g = graph(4, &[(0, 1), (1, 2), (2, 3), (3, 0)]);
    let h = g.vertex_subgraph(|v, _| v != 1);
    assert_eq!(h.num_verts(), 3);
    assert_eq!(h.edges(), vec![(1, 2), (2, 0)]);
    let e = g.edge_subgraph(|k| k % 2 == 0);
    assert_eq!(e.num_verts(), 4);
    assert_eq!(e.edges(), vec![(0, 1), (2, 3)]);
    let f = g.filter_map(|v, _| if v >= 2 { Some(v * 10) } else { None }, |_| true);
    assert_eq!(f.vertices().iter().map(|(_, w)| **w).collect::<Vec<usize>>(), vec![20, 30]);
    assert_eq!(f.edges(), vec![(0, 1)]);
    let m = g.map(|v, _| v + 1);
    assert_eq!(*m.vertex(3), 4);
    assert_eq!(m.edges(), g.edges());
}

fn template() -> GraphTemplate {
    let g = graph(4, &[(0, 1), (1, 2), (3, 2)]);
    GraphTemplate::from_mapping(g, &[Free, Free, Group(0), Free])
}

#[test]
fn template_queries() {
    let t = template();
    assert_eq!(t.free_verts(), vec![0, 1, 3]);
    assert_eq!(t.groups(), vec![Group(0)]);
    assert!(!t.can_merge(Group(0), Free));
    assert!(!t.can_merge(Group(0), Group(1)));
    assert!(t.can_merge(Group(0), Group(0)));
    let limits = CombGrad::<GraphTemplateLimits>::degree(&t);
    assert_eq!(limits, GraphTemplateLimits {
        n_vertices: 4,
        n_groups: 1,
        permute: true,
        no_free_components: false,
        no_vertex_multiplication: false,
    });
}

#[test]
fn template_merge_needs_equal_neighbourhoods() {
    let g = graph(4, &[(0, 2), (1, 2), (0, 3)]);
    let t = GraphTemplate::from_mapping(g, &[Group(0), Group(1), Free, Free]);
    assert!(!t.can_merge(Group(0), Group(1)));
    let g = graph(3, &[(0, 2), (1, 2)]);
    let t = GraphTemplate::from_mapping(g, &[Group(0), Group(1), Free]);
    assert!(t.can_merge(Group(0), Group(1)));
}

#[test]
fn template_apply_adds_free_vertices_and_group_edges() {
    let t = GraphTemplate::from_mapping(graph(3, &[(0, 1), (0, 2)]), &[Free, Group(0), Free]);
    let g = graph(2, &[(0, 1)]);
    let h = t.apply(&g, &vec![(1, Group(0)), (0, Free)]);
    assert_eq!(h.num_verts(), 4);
    assert_eq!(h.edges(), vec![(0, 1), (2, 3), (1, 2)]);
}

#[test]
fn template_decompose_by_free_components() {
    let t = template();
    let parts = t.decompose();
    let mut sizes: Vec<(usize, usize)> = parts.iter().map(|h| (h.num_verts(), h.num_edges())).collect();
    sizes.sort();
    assert_eq!(sizes, vec![(1, 0), (3, 2)]);
}

#[test]
fn graph_text_form() {
    assert_eq!(graph(3, &[(0, 1), (1, 2)]).to_string(), "{3 [(0, 1), (1, 2)]}");
    assert_eq!(graph(12, &[]).to_string(), "{12 []}");
}

#[test]
fn framed_graph_text_form() {
    let mut g = FGraph::default();
    g.add_vertex_with(Framing::One);
    g.add_vertex_with(Framing::Zero);
    g.add_edge(0, 1);
    assert_eq!(g.to_string(), "{[1, 0] [(0, 1)]}");
}

#[test]
fn template_text_form() {
    let t = GraphTemplate::from_mapping(graph(3, &[(0, 1), (1, 2)]), &[Free, Group(0), Free]);
    assert_eq!(t.to_string(), "{ [0, g0, 2] [(0, g0), (g0, 2)]}");
    assert!(GraphTemplate::parse(&t.to_string()).is_err());
}

#[test]
fn template_parse_free_and_group_vertices() {
    let t = GraphTemplate::parse("{3 [(0, g0), (g0, 2)]}").unwrap();
    assert_eq!(t.num_verts(), 3);
    assert_eq!(t.groups(), vec![Group(0)]);
    assert_eq!(*t.vertex(1), Group(0));
    assert_eq!(t.edges(), vec![(0, 1), (1, 2)]);
    let t: GraphTemplate = "{3 [(0, 1), (1, 2)]}".parse().unwrap();
    assert_eq!(t.free_verts(), vec![0, 1, 2]);
    assert_eq!(t.edges(), vec![(0, 1), (1, 2)]);
}

#[test]
fn template_parse_fills_free_vertices_before_groups() {
    let t = GraphTemplate::parse("{4 [(g1, 0)]}").unwrap();
    assert_eq!(t.free_verts(), vec![0, 1, 2]);
    assert_eq!(*t.vertex(3), Group(1));
    assert_eq!(t.edges(), vec![(3, 0)]);
    let t = GraphTemplate::parse("{2 []}").unwrap();
    assert_eq!(t.free_verts(), vec![0, 1]);
    assert_eq!(t.num_edges(), 0);
    let t = GraphTemplate::parse("{3 [(g2, g1), (g1, 0)]}").unwrap();
    assert_eq!(t.vertices().iter().map(|(_, w)| **w).collect::<Vec<_>>(), vec![Free, Group(2), Group(1)]);
    assert_eq!(t.edges(), vec![(1, 2), (2, 0)]);
}

#[test]
fn template_parse_rejects_bad_text() {
    assert!(GraphTemplate::parse("{2 [(0, 5)]}").is_err());
    assert!(GraphTemplate::parse("{1 [(0, g0)]}").is_err());
    assert!(GraphTemplate::parse("{3 [(0,1)]}").is_err());
    assert!(GraphTemplate::parse("{x [(0, 1)]}").is_err());
    assert!(GraphTemplate::parse("{2 [(01, 1)]}").is_err());
    assert!(GraphTemplate::parse("{2 [(0, g256)]}").is_err());
    assert!(GraphTemplate::parse("3 [(0, 1)]").is_err());
    assert!(GraphTemplate::parse("{3 (0, 1)}").is_err());
}

#[test]
fn graph_hash_counts_neighbours_and_second_neighbours() {
    let g = graph(3, &[(0, 1), (1, 2)]);
    assert_eq!(g.graph_hash(), vec![0, 2, 1, 0, 1, 2, 0]);
    let h = graph(3, &[(2, 1), (0, 1), (1, 0)]);
    assert_eq!(h.graph_hash(), g.graph_hash());
    assert_eq!(graph(0, &[]).graph_hash(), vec![0]);
}

#[test]
fn graphs_compare_up_to_isomorphism() {
    let path = graph(3, &[(0, 1), (1, 2)]);
    let other_path = graph(3, &[(1, 0), (0, 2)]);
    let triangle = graph(3, &[(0, 1), (1, 2), (2, 0)]);
    assert!(path.is_isomorphic(&other_path));
    assert!(!path.is_isomorphic(&triangle));
    assert_eq!(CombEq::hash(&path), CombEq::hash(&other_path));
    let a = GraphTemplate::parse("{3 [(0, g0), (g0, 2)]}").unwrap();
    let b = GraphTemplate::from_mapping(graph(3, &[(1, 0), (0, 2)]), &[Group(0), Free, Free]);
    let c = GraphTemplate::parse("{3 [(0, 1), (1, 2)]}").unwrap();
    assert!(a.is_isomorphic(&b));
    assert!(!a.is_isomorphic(&c));
    let mut set = CombSet::new();
    set.insert(a);
    set.insert(b);
    set.insert(c);
    assert_eq!(set.len(), 2);
}

fn limits(n_vertices: usize, n_groups: usize, permute: bool, no_free: bool, no_mult: bool) -> GraphTemplateLimits {
    GraphTemplateLimits {
        n_vertices,
        n_groups,
        permute,
        no_free_components: no_free,
        no_vertex_multiplication: no_mult,
    }
}

#[test]
fn templates_of_a_path() {
    let path = graph(3, &[(0, 1), (1, 2)]);
    assert_eq!(GraphTemplate::templates_of(&path, limits(3, 1, false, false, false)).len(), 2);
    assert_eq!(GraphTemplate::templates_of(&path, limits(3, 2, true, false, false)).len(), 1);
    assert_eq!(GraphTemplate::templates_of(&path, limits(3, 1, false, false, true)).len(), 1);
    assert_eq!(GraphTemplate::templates_of(&path, limits(3, 0, true, false, false)).len(), 1);
}

#[test]
fn templates_need_groups_in_every_component() {
    let g = graph(3, &[(0, 1)]);
    assert_eq!(GraphTemplate::templates_of(&g, limits(3, 1, false, true, false)).len(), 0);
    assert_eq!(GraphTemplate::templates_of(&g, limits(3, 2, false, true, false)).len(), 1);
}

#[test]
fn has_edge_after_add_edge() {
    let mut g = graph(4, &[(0, 1)]);
    assert!(!g.has_edge(3, 2));
    g.add_edge(2, 3);
    assert!(g.has_edge(2, 3));
    assert!(g.has_edge(3, 2));
}

#[test]
fn graph6_triangle_round_trip() {
    assert!(Graph::is_graph6("Bw"));
    let g = Graph::from_graph6_string("Bw".to_string());
    assert_eq!(g.num_verts(), 3);
    assert_eq!(g.edges(), vec![(0, 1), (0, 2), (1, 2)]);
    assert_eq!(graph(3, &[(0, 1), (1, 2), (0, 2)]).graph6_string(), "Bw");
    assert_eq!(graph(0, &[]).graph6_string(), "?");
}

#[test]
fn graph6_readability() {
    assert!(!Graph::is_graph6(""));
    assert!(!Graph::is_graph6("B"));
    assert!(Graph::is_graph6("@"));
    assert!(!Graph::is_graph6("B "));
    assert!(!Graph::is_graph6("~??"));
    let g = Graph::from_graph6_string("C~".to_string());
    assert_eq!(g.num_verts(), 4);
    assert_eq!(g.num_edges(), 6);
}

#[test]
fn isomorphic_graphs_hash_alike() {
    let path_a = graph(4, &[(0, 1), (1, 2), (2, 3)]);
    let path_b = graph(4, &[(2, 0), (0, 3), (3, 1)]);
    let star = graph(4, &[(0, 1), (0, 2), (0, 3)]);
    assert!(path_a.is_isomorphic(&path_b));
    assert!(path_b.is_isomorphic(&path_a));
    assert_eq!(path_a.hash(), path_b.hash());
    assert!(!path_a.is_isomorphic(&star));
    let mut set: CombSet<Graph> = CombSet::new();
    set.insert(path_a.clone());
    assert!(set.contains(&path_b));
    assert!(!set.contains(&star));
}
