use foremost::foremost::construct_foremost_tree;
use foremost::graph::{validate, Graph, GraphError};
use foremost::labels::generate_time_labels;
use foremost::percolation::set_p;
use foremost::properties::{property_four, property_one, property_three, property_two};
use foremost::simulation::{analyze_graph, evaluate_graph, Outcome, Tally, Thresholds};

fn units(x: f64) -> u64 {
    (x * 18446744073709551616.0) as u64
}

fn graph(edges: Vec<Vec<usize>>) -> Graph {
    Graph { nodes: edges.len(), edges }
}

/// The 4-cycle 0-1-2-3-0 with edge labels 0.1, 0.4, 0.3, 0.2.
fn four_cycle() -> (Graph, Vec<Vec<u64>>) {
    let g = graph(vec![vec![1, 3], vec![0, 2], vec![1, 3], vec![2, 0]]);
    let labels = vec![
        vec![units(0.1), units(0.2)],
        vec![units(0.1), units(0.4)],
        vec![units(0.4), units(0.3)],
        vec![units(0.3), units(0.2)],
    ];
    (g, labels)
}

#[test]
fn four_cycle_scenario() {
    let (g, labels) = four_cycle();
    let deleted = set_p(&g, &labels, units(0.35));
    assert_eq!(
        deleted,
        vec![vec![false, false], vec![false, true], vec![true, false], vec![false, false]]
    );
    let t = construct_foremost_tree(&g, &labels, &deleted, 0);
    assert_eq!(t.reached, vec![0, 1, 3, 2]);
    assert_eq!(t.edges, vec![(0, 1), (0, 3), (3, 2)]);
    assert!(property_three(&g, &labels, &deleted));
    assert!(property_one(&g, &labels, &deleted));
    assert!(property_two(&g, &labels, &deleted));
}

#[test]
fn four_cycle_from_every_source() {
    let (g, labels) = four_cycle();
    let deleted = set_p(&g, &labels, units(0.35));
    let t = construct_foremost_tree(&g, &labels, &deleted, 2);
    assert_eq!(t.reached, vec![2, 3, 0, 1]);
    assert_eq!(t.edges, vec![(2, 3), (3, 0), (0, 1)]);
    assert!(property_four(&g, &labels, &deleted));
}

#[test]
fn two_components_fail_everything() {
    let g = graph(vec![vec![2], vec![3], vec![0], vec![1]]);
    let labels = vec![vec![5], vec![7], vec![5], vec![7]];
    let deleted = set_p(&g, &labels, u64::MAX);
    assert!(!property_one(&g, &labels, &deleted));
    assert!(!property_two(&g, &labels, &deleted));
    assert!(!property_three(&g, &labels, &deleted));
    assert!(!property_four(&g, &labels, &deleted));
}

#[test]
fn two_components_with_zero_and_one_together() {
    let g = graph(vec![vec![1], vec![0], vec![3], vec![2]]);
    let labels = vec![vec![5], vec![5], vec![7], vec![7]];
    let deleted = set_p(&g, &labels, u64::MAX);
    assert!(property_one(&g, &labels, &deleted));
    assert!(!property_two(&g, &labels, &deleted));
    assert!(!property_three(&g, &labels, &deleted));
    assert!(!property_four(&g, &labels, &deleted));
}

#[test]
fn single_vertex_tree_is_trivial() {
    let g = graph(vec![vec![]]);
    let labels: Vec<Vec<u64>> = vec![vec![]];
    let deleted = set_p(&g, &labels, 0);
    let t = construct_foremost_tree(&g, &labels, &deleted, 0);
    assert_eq!(t.reached, vec![0]);
    assert!(t.edges.is_empty());
    assert!(!property_one(&g, &labels, &deleted));
    assert!(property_two(&g, &labels, &deleted));
    assert!(property_three(&g, &labels, &deleted));
    assert!(property_four(&g, &labels, &deleted));
}

#[test]
fn empty_graph_properties() {
    let g = graph(vec![]);
    let labels: Vec<Vec<u64>> = vec![];
    let deleted = set_p(&g, &labels, 0);
    assert!(!property_one(&g, &labels, &deleted));
    assert!(!property_two(&g, &labels, &deleted));
    assert!(!property_three(&g, &labels, &deleted));
    assert!(property_four(&g, &labels, &deleted));
}

#[test]
fn tree_stops_when_everything_is_deleted() {
    let (g, labels) = four_cycle();
    let deleted = set_p(&g, &labels, units(0.05));
    let t = construct_foremost_tree(&g, &labels, &deleted, 1);
    assert_eq!(t.reached, vec![1]);
    assert!(t.edges.is_empty());
    assert!(!property_two(&g, &labels, &deleted));
}

#[test]
fn tie_goes_to_first_candidate_met() {
    // a star around 0 whose three edges share one label
    let g = graph(vec![vec![3, 1, 2], vec![0], vec![0], vec![0]]);
    let labels = vec![vec![9, 9, 9], vec![9], vec![9], vec![9]];
    let deleted = set_p(&g, &labels, 9);
    let t = construct_foremost_tree(&g, &labels, &deleted, 0);
    assert_eq!(t.edges, vec![(0, 3), (0, 1), (0, 2)]);
}

#[test]
fn tree_has_one_edge_fewer_than_vertices() {
    let g = graph(vec![vec![1, 2], vec![0, 2, 3], vec![0, 1], vec![1, 4], vec![3]]);
    let labels = vec![vec![50, 20], vec![50, 40, 10], vec![20, 40], vec![10, 30], vec![30]];
    let deleted = set_p(&g, &labels, 45);
    let t = construct_foremost_tree(&g, &labels, &deleted, 0);
    assert_eq!(t.reached, vec![0, 2, 1, 3, 4]);
    assert_eq!(t.edges, vec![(0, 2), (2, 1), (1, 3), (3, 4)]);
    assert_eq!(t.edges.len(), t.reached.len() - 1);
    for (k, e) in t.edges.iter().enumerate() {
        assert_eq!(e.1, t.reached[k + 1]);
        assert!(t.reached[..k + 1].contains(&e.0));
    }
}

#[test]
fn mask_shrinks_as_threshold_grows() {
    let (g, labels) = four_cycle();
    let low = set_p(&g, &labels, units(0.25));
    let high = set_p(&g, &labels, units(0.35));
    for u in 0..4 {
        for i in 0..2 {
            if high[u][i] {
                assert!(low[u][i]);
            }
        }
    }
    assert_eq!(low, vec![vec![false, false], vec![false, true], vec![true, true], vec![true, false]]);
}

#[test]
fn reach_grows_with_threshold() {
    let (g, labels) = four_cycle();
    let low = set_p(&g, &labels, units(0.15));
    let high = set_p(&g, &labels, units(0.35));
    let small = construct_foremost_tree(&g, &labels, &low, 0);
    let large = construct_foremost_tree(&g, &labels, &high, 0);
    assert_eq!(small.reached, vec![0, 1]);
    for v in small.reached.iter() {
        assert!(large.reached.contains(v));
    }
}

#[test]
fn full_reach_implies_weaker_properties() {
    let (g, labels) = four_cycle();
    let deleted = set_p(&g, &labels, u64::MAX);
    assert!(property_four(&g, &labels, &deleted));
    assert!(property_three(&g, &labels, &deleted));
    assert!(property_two(&g, &labels, &deleted));
}

#[test]
fn validate_reports_each_violation() {
    let ok = graph(vec![vec![1], vec![0]]);
    assert_eq!(validate(&ok), Ok(()));
    let count = Graph { nodes: 3, edges: vec![vec![1], vec![0]] };
    assert_eq!(validate(&count), Err(GraphError::WrongVertexCount));
    let range = graph(vec![vec![2], vec![0]]);
    assert_eq!(validate(&range), Err(GraphError::VertexOutOfRange));
    let missing = graph(vec![vec![1], vec![]]);
    assert_eq!(validate(&missing), Err(GraphError::MissingReverseEdge));
}

#[test]
fn generated_labels_are_shared_by_both_ends() {
    let g = graph(vec![vec![1, 2, 3], vec![0, 2], vec![3, 1, 0], vec![2, 0]]);
    let labels = generate_time_labels(&g).unwrap();
    for u in 0..4 {
        assert_eq!(labels[u].len(), g.edges[u].len());
        for (i, &v) in g.edges[u].iter().enumerate() {
            let j = g.edges[v].iter().position(|&x| x == u).unwrap();
            assert_eq!(labels[u][i], labels[v][j]);
        }
    }
    // five distinct edges drew five labels; a repeat has chance about 2^-60
    let mut all = vec![labels[0][0], labels[0][1], labels[0][2], labels[1][1], labels[2][0]];
    all.sort();
    all.dedup();
    assert_eq!(all.len(), 5);
}

#[test]
fn labelling_fails_on_a_broken_graph() {
    let missing = graph(vec![vec![1], vec![]]);
    assert_eq!(generate_time_labels(&missing), Err(GraphError::MissingReverseEdge));
    let range = graph(vec![vec![5]]);
    assert_eq!(generate_time_labels(&range), Err(GraphError::VertexOutOfRange));
}

#[test]
fn evaluate_uses_each_threshold() {
    let (g, labels) = four_cycle();
    let th = Thresholds { high: units(0.35), mid: units(0.25), low: units(0.15) };
    let o = evaluate_graph(&g, &labels, th);
    assert_eq!(o, Outcome { one: true, two: false, three: false, four: true });
}

#[test]
fn analyze_without_deletions_and_with_all() {
    let (g, _) = four_cycle();
    let all = Thresholds { high: u64::MAX, mid: u64::MAX, low: u64::MAX };
    assert_eq!(
        analyze_graph(&g, all),
        Ok(Outcome { one: true, two: true, three: true, four: true })
    );
    let broken = graph(vec![vec![1], vec![]]);
    assert_eq!(analyze_graph(&broken, all), Err(GraphError::MissingReverseEdge));
}

#[test]
fn tally_counts_and_excludes() {
    let mut t = Tally::new();
    t.record(&Ok(Outcome { one: true, two: true, three: false, four: false }));
    t.record(&Ok(Outcome { one: true, two: false, three: false, four: false }));
    t.record(&Err(GraphError::MissingReverseEdge));
    assert_eq!(
        t,
        Tally { graphs: 2, one: 2, two: 1, three: 0, four: 0, excluded: 1 }
    );
}
