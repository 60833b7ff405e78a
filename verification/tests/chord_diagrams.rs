use rcomb::objects::chord_diagram::{ChordDiagram, RootedDiagrams};
use rcomb::CombGrad;
use rcomb::objects::intersection_graph::{intersection_graphs, IntersectionGraph};
use rcomb::util::{binomial, divisors, double_factorial};

/// Euler's totient by counting the numbers coprime to `n`.
fn totient(n: u128) -> u128 {
    fn gcd(a: u128, b: u128) -> u128 {
        if b == 0 { a } else { gcd(b, a % b) }
    }
    (1..=n).filter(|&k| gcd(k, n) == 1).count() as u128
}

fn count_all(n: usize) -> usize {
    let mut it = ChordDiagram::iterate_deg(n, &totient);
    let mut count = 0;
    while let Some(_) = it.next() {
        count += 1;
    }
    count
}

#[test]
fn test_chord_diagram_iterator() {
    for n in 0..=7 {
        assert_eq!(count_all(n), ChordDiagram::count_deg(n, &totient).unwrap());
    }
}

#[test]
fn chord_diagram_test_binomial() {
    let n = 10;
    let vals: Vec<u128> = (0..=n).map(|k| binomial(n, k)).collect();
    assert_eq!(vals, vec![1, 10, 45, 120, 210, 252, 210, 120, 45, 10, 1]);
}

#[test]
fn chord_diagram_test_double_factorial() {
    assert_eq!(double_factorial(0u128.overflowing_sub(1).0), 1);
    assert_eq!(double_factorial(0), 1);
    assert_eq!(double_factorial(1), 1);
    assert_eq!(double_factorial(16), 10321920);
    assert_eq!(double_factorial(17), 34459425);
}

#[test]
fn chord_diagram_test_divisors() {
    assert_eq!(divisors(2u128), vec![1, 2]);
    assert_eq!(divisors(141u128), vec![1, 3, 47, 141]);
    assert_eq!(divisors(143u128), vec![1, 11, 13, 143]);
}

#[test]
fn test_n_chord_diagrams() {
    // OEIS A007769
    let values: Vec<usize> = vec![
        1, 1, 2, 5, 18, 105, 902, 9749, 127072, 1915951,
        32743182, 624999093, 13176573910, 304072048265,
        7623505722158, 206342800616597, 5996837126024824,
        186254702826289089, 6156752656678674792
    ];
    for n in 0..values.len() {
        assert_eq!(ChordDiagram::count_deg(n, &totient), Some(values[n]));
    }
}

#[test]
fn count_is_not_formed_beyond_the_limit() {
    assert_eq!(ChordDiagram::count_deg(19, &totient), None);
    let it = ChordDiagram::iterate_deg(19, &totient);
    assert_eq!(it.size_hint(), (0, None));
}

#[test]
fn canonical_form_relabels_and_rotates() {
    let mut ends = vec![5, 7, 5, 7];
    ChordDiagram::canonicalise(&mut ends);
    assert_eq!(ends, vec![0, 1, 0, 1]);
    let mut ends = vec![1, 2, 2, 1];
    ChordDiagram::canonicalise(&mut ends);
    assert_eq!(ends, vec![0, 0, 1, 1]);
    let mut ends = vec![3, 1, 3, 2, 1, 2];
    ChordDiagram::canonicalise(&mut ends);
    assert_eq!(ends, vec![0, 1, 0, 2, 1, 2]);
    let mut empty: Vec<u8> = vec![];
    ChordDiagram::canonicalise(&mut empty);
    assert!(empty.is_empty());
}

#[test]
fn rotations_share_a_canonical_form() {
    let ends = vec![4, 9, 9, 2, 4, 2];
    let canon = ChordDiagram::new(ends.clone());
    for shift in 0..ends.len() {
        let mut rotated = ends[shift..].to_vec();
        rotated.extend_from_slice(&ends[..shift]);
        assert_eq!(ChordDiagram::new(rotated), canon);
    }
}

#[test]
fn chord_diagram_neighbours_are_crossing_chords() {
    let d = ChordDiagram::from_raw(vec![0, 1, 0, 2, 1, 2]);
    assert_eq!(d.neighbours(0), vec![1]);
    assert_eq!(d.neighbours(1), vec![0, 2]);
    assert_eq!(d.neighbours(2), vec![1]);
    assert_eq!(d.neighbours(7), Vec::<u8>::new());
    let d = ChordDiagram::from_raw(vec![0, 0, 1, 1]);
    assert_eq!(d.neighbours(0), Vec::<u8>::new());
}

#[test]
fn chord_diagram_validation_and_degree() {
    assert!(ChordDiagram::validate(&vec![0, 0]));
    assert!(!ChordDiagram::validate(&vec![0, 1, 0]));
    let d = ChordDiagram::new_unchecked(vec![1, 0, 1, 0]);
    assert_eq!(d.ends(), &[1, 0, 1, 0]);
    assert_eq!(d.degree(), 2);
}

#[test]
fn diagrams_with_three_chords() {
    let all = ChordDiagram::collect_deg(3, &totient);
    let mut ends: Vec<Vec<u8>> = all.iter().map(|d| d.ends().to_vec()).collect();
    ends.sort();
    assert_eq!(ends.len(), 5);
    ends.dedup();
    assert_eq!(ends.len(), 5);
    for e in ends {
        let mut c = e.clone();
        ChordDiagram::canonicalise(&mut c);
        assert_eq!(c, e);
    }
}

#[test]
fn rooted_diagrams_in_order_of_construction() {
    let mut r = RootedDiagrams::new(2);
    let mut got = vec![];
    while let Some(d) = r.next() {
        got.push(d);
    }
    assert_eq!(got, vec![vec![0, 0, 1, 1], vec![0, 1, 0, 1], vec![0, 1, 1, 0]]);
}

#[test]
fn chord_diagram_parses_its_ends() {
    assert_eq!(ChordDiagram::parse("(0 1 0 1)").unwrap().ends(), &[0, 1, 0, 1]);
    assert_eq!(ChordDiagram::parse("1 0 1 0").unwrap().ends(), &[1, 0, 1, 0]);
    assert_eq!(ChordDiagram::parse("()").unwrap().ends(), &[] as &[u8]);
    assert_eq!(ChordDiagram::parse("").unwrap().ends(), &[] as &[u8]);
    assert_eq!(ChordDiagram::parse("+3 255").unwrap().ends(), &[3, 255]);
    assert!(ChordDiagram::parse("1, 2").is_err());
    assert!(ChordDiagram::parse("1  2").is_err());
    assert!(ChordDiagram::parse("256").is_err());
    assert!(ChordDiagram::parse("(").is_err());
    assert!(ChordDiagram::parse("-1").is_err());
    assert_eq!(ChordDiagram::from_csv_string("2 2").unwrap().ends(), &[2, 2]);
    assert!(ChordDiagram::from_csv_string("(2 2)").is_err());
}

#[test]
fn chord_diagram_apply_recanonicalises() {
    let mut d = ChordDiagram::new(vec![0, 0]);
    let n = d.apply(|mut ends| {
        ends.push(9);
        ends.push(9);
        let len = ends.len();
        (ends, len)
    });
    assert_eq!(n, 4);
    assert_eq!(d.ends(), &[0, 0, 1, 1]);
}

#[test]
fn intersection_graph_joins_crossing_chords() {
    let d = ChordDiagram::from_raw(vec![0, 1, 0, 2, 1, 2]);
    let (chords, edges) = d.intersection_edges();
    assert_eq!(chords, vec![0, 1, 2]);
    assert_eq!(edges, vec![(0, 1), (1, 2)]);
    let d = ChordDiagram::from_raw(vec![5, 9, 5, 9, 7, 7]);
    let (chords, edges) = d.intersection_edges();
    assert_eq!(chords, vec![5, 7, 9]);
    assert_eq!(edges, vec![(0, 2)]);
}

#[test]
fn canonical_forms_are_fixed() {
    for ends in [vec![3u8, 1, 3, 2, 1, 2], vec![7, 7, 4, 4, 9, 9], vec![2, 5, 8, 2, 5, 8], vec![1, 2, 2, 1]] {
        let mut once = ends.clone();
        ChordDiagram::canonicalise(&mut once);
        let mut twice = once.clone();
        ChordDiagram::canonicalise(&mut twice);
        assert_eq!(once, twice);
    }
}

#[test]
fn renamed_diagrams_share_a_canonical_form() {
    let a = ChordDiagram::new(vec![0, 1, 0, 2, 1, 2]);
    let b = ChordDiagram::new(vec![9, 4, 9, 6, 4, 6]);
    assert_eq!(a, b);
}

#[test]
fn test_intersection_graphs_iterator() {
    // OEIS A156809
    let values = vec![1, 1, 2, 4, 11, 34, 154, 978];
    for n in 0..values.len() {
        assert_eq!(intersection_graphs(n, &totient).len(), values[n]);
    }
}

#[test]
fn test_iterator_count() {
    let oeis_a156809: &[usize] = &[1, 1, 2, 4, 11, 34, 154, 978, 9497, 127954];
    for n in 0..=7 {
        assert_eq!(intersection_graphs(n, &totient).len(), oeis_a156809[n]);
    }
}

#[test]
fn intersection_graph_of_crossing_and_nested_chords() {
    let d = ChordDiagram::from_raw(vec![0, 1, 0, 2, 1, 2]);
    let pair = IntersectionGraph::new(d);
    assert_eq!(pair.graph().num_verts(), 3);
    assert_eq!(pair.graph().to_string(), "{3 [(0, 1), (1, 2)]}");
    assert_eq!(CombGrad::<usize>::degree(&pair), 3);
    let (g, diagram) = pair.into_pair();
    assert_eq!(g.edges(), vec![(0, 1), (1, 2)]);
    assert_eq!(diagram.ends().len(), 6);
}

#[test]
fn intersection_graph_counts_match_the_table() {
    for n in 0..=5 {
        assert_eq!(Some(intersection_graphs(n, &totient).len()), IntersectionGraph::count_deg(n));
    }
    assert_eq!(IntersectionGraph::count_deg(9), Some(127954));
    assert_eq!(IntersectionGraph::count_deg(14), None);
}

#[test]
fn intersection_graphs_are_pairwise_non_isomorphic() {
    use_combeq_check(&intersection_graphs(4, &totient));
}

fn use_combeq_check(graphs: &[IntersectionGraph]) {
    for i in 0..graphs.len() {
        for j in i + 1..graphs.len() {
            assert!(!rcomb::CombEq::is_isomorphic(graphs[i].graph(), graphs[j].graph()));
        }
    }
}

#[test]
fn count_with_counted_totient() {
    for n in 0..=10usize {
        assert_eq!(ChordDiagram::count_deg_by_counting(n), ChordDiagram::count_deg(n, &totient));
    }
    assert_eq!(ChordDiagram::count_deg_by_counting(19), None);
}
