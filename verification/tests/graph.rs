use trustnet::fixed::SCALE;
use trustnet::graph::Edge;
use trustnet::graph::Graph;

fn weight(value: f64) -> i64 {
    (value * SCALE as f64).round() as i64
}

fn float(value: i128) -> f64 {
    value as f64 / SCALE as f64
}

#[test]
fn test_graph_new_with_edges() {
    let edges = vec![
        Edge { from: 1, to: 2, weight: weight(1.0) },
        Edge { from: 2, to: 3, weight: weight(2.0) },
    ];
    let graph = Graph::new(&edges);

    assert_eq!(graph.content.len(), 3);
    assert!(graph.content.contains_key(&1));
    assert!(graph.content.contains_key(&2));
    assert!(graph.content.contains_key(&3));
}

#[test]
fn test_graph_include_target_nodes() {
    let edges = vec![Edge { from: 1, to: 2, weight: weight(1.0) }];
    let graph = Graph::new(&edges);

    assert!(graph.content.contains_key(&2));
    assert_eq!(graph.content[&2].len(), 0);
}

#[test]
fn test_get_neighbors() {
    let edges = vec![
        Edge { from: 1, to: 2, weight: weight(1.0) },
        Edge { from: 3, to: 2, weight: weight(1.0) },
    ];
    let graph = Graph::new(&edges);

    let neighbors = graph.get_neighbors(2);
    assert_eq!(neighbors.input_nodes.contains(&1) || neighbors.input_nodes.contains(&3), true);
    assert_eq!(neighbors.output_nodes, vec![]);
}

#[test]
fn test_get_neighbors_no_edges() {
    let edges = vec![Edge { from: 1, to: 2, weight: weight(1.0) }];
    let graph = Graph::new(&edges);

    let neighbors = graph.get_neighbors(3);
    assert!(neighbors.input_nodes.is_empty());
    assert!(neighbors.output_nodes.is_empty());
}

#[test]
fn test_get_degrees() {
    let edges = vec![
        Edge { from: 1, to: 2, weight: weight(1.0) },
        Edge { from: 2, to: 3, weight: weight(1.0) },
    ];
    let graph = Graph::new(&edges);

    let (in_degree, out_degree) = graph.get_degrees();
    assert_eq!(float(in_degree[&2]), 1.0);
    assert_eq!(float(out_degree[&2]), 1.0);
}

#[test]
fn test_get_degrees_no_outgoing_or_incoming() {
    let edges = vec![Edge { from: 1, to: 2, weight: weight(1.0) }];
    let graph = Graph::new(&edges);

    let (in_degree, out_degree) = graph.get_degrees();
    println!("{:?}, {:?}", in_degree, out_degree);
    assert_eq!(float(in_degree[&1]), 0.0);
    assert_eq!(float(out_degree[&2]), 0.0);
}

#[test]
fn test_clustering_coefficient_connected() {
    let edges = vec![
        Edge { from: 1, to: 2, weight: weight(1.0) },
        Edge { from: 2, to: 3, weight: weight(1.0) },
        Edge { from: 3, to: 1, weight: weight(1.0) },
    ];
    let graph = Graph::new(&edges);

    let cc = float(graph.clustering_coefficient(2));
    println!("{:?}", graph);
    println!("{}", cc);

    assert!(cc > 0.0);
}

#[test]
fn test_clustering_coefficient_no_neighbors() {
    let edges = vec![Edge { from: 1, to: 2, weight: weight(1.0) }];
    let graph = Graph::new(&edges);

    let cc = float(graph.clustering_coefficient(3));
    assert_eq!(cc, 0.0);
}

#[test]
fn test_find_one_subgraphs() {
    let edges = vec![
        Edge { from: 1, to: 2, weight: weight(1.0) },
        Edge { from: 2, to: 3, weight: weight(1.0) },
    ];
    let graph = Graph::new(&edges);

    let subgraphs = graph.find_subgraphs();
    assert_eq!(subgraphs.len(), 1);
}

#[test]
fn test_find_subgraphs() {
    let edges = vec![
        Edge { from: 1, to: 2, weight: weight(1.0) },
        Edge { from: 3, to: 4, weight: weight(1.0) },
    ];
    let graph = Graph::new(&edges);

    let subgraphs = graph.find_subgraphs();
    assert_eq!(subgraphs.len(), 2);
}

#[test]
fn test_get_trust_score() {
    let edges = vec![
        Edge { from: 1, to: 2, weight: weight(1.5) },
        Edge { from: 3, to: 2, weight: weight(2.5) },
    ];
    let graph = Graph::new(&edges);

    let trust_score = float(graph.get_trust_score(2));
    assert_eq!(trust_score, 2.0);
}

#[test]
fn test_get_trust_score_zero_indegree() {
    let edges = vec![Edge { from: 1, to: 2, weight: weight(1.5) }];
    let graph = Graph::new(&edges);

    let trust_score = float(graph.get_trust_score(3));
    assert_eq!(trust_score, 0.0);
}

fn edge(from: usize, to: usize, value: f64) -> Edge {
    Edge { from, to, weight: weight(value) }
}

fn component_nodes(graph: &Graph) -> Vec<Vec<usize>> {
    graph.find_subgraphs().iter().map(|part| part.content.keys().copied().collect()).collect()
}

#[test]
fn empty_edge_list_gives_empty_graph() {
    let graph = Graph::new(&Vec::new());
    assert!(graph.content.is_empty());
    assert!(graph.nodes().is_empty());
    assert!(graph.find_subgraphs().is_empty());
    let (in_degree, out_degree) = graph.get_degrees();
    assert!(in_degree.is_empty());
    assert!(out_degree.is_empty());
    assert_eq!(graph.clustering_coefficient(7), 0);
    assert_eq!(graph.get_trust_score(7), 0);
}

#[test]
fn every_endpoint_becomes_a_node_with_degrees() {
    let edges = vec![edge(9, 4, 1.0), edge(4, 7, -3.0), edge(9, 7, 2.0), edge(4, 7, 5.0)];
    let graph = Graph::new(&edges);
    assert_eq!(graph.nodes(), vec![4, 7, 9]);
    let (in_degree, out_degree) = graph.get_degrees();
    for e in &edges {
        assert!(graph.content.contains_key(&e.from));
        assert!(graph.content.contains_key(&e.to));
    }
    for node in graph.nodes() {
        assert!(in_degree[&node] >= 0);
        assert!(out_degree[&node] >= 0);
    }
    assert_eq!(in_degree[&7], 3 * SCALE);
    assert_eq!(out_degree[&7], 0);
    assert_eq!(in_degree[&9], 0);
    assert_eq!(out_degree[&9], 2 * SCALE);
    assert_eq!(in_degree[&4], SCALE);
    assert_eq!(out_degree[&4], 2 * SCALE);
}

#[test]
fn outgoing_edges_keep_their_order_and_repeats() {
    let edges = vec![edge(1, 2, 1.0), edge(1, 3, 2.0), edge(1, 2, 3.0)];
    let graph = Graph::new(&edges);
    let stored: Vec<(usize, i64)> = graph.content[&1].iter().map(|e| (e.to, e.weight)).collect();
    assert_eq!(stored, vec![(2, weight(1.0)), (3, weight(2.0)), (2, weight(3.0))]);
    assert!(graph.content[&2].is_empty());
    assert!(graph.content[&3].is_empty());
}

#[test]
fn neighbors_list_one_entry_per_edge_in_source_order() {
    let edges = vec![edge(5, 2, 1.0), edge(1, 2, 1.0), edge(5, 2, 1.0), edge(2, 8, 1.0), edge(2, 8, 1.0)];
    let graph = Graph::new(&edges);
    let neighbors = graph.get_neighbors(2);
    assert_eq!(neighbors.input_nodes, vec![1, 5, 5]);
    assert_eq!(neighbors.output_nodes, vec![8, 8]);
    let entering: Vec<usize> = graph.incoming(2).iter().map(|e| e.from).collect();
    assert_eq!(entering, vec![1, 5, 5]);
}

#[test]
fn clustering_of_triangle_node_is_one_half() {
    let graph = Graph::new(&vec![edge(1, 2, 1.0), edge(2, 3, 1.0), edge(3, 1, 1.0)]);
    assert_eq!(graph.clustering_coefficient(1), SCALE / 2);
    assert_eq!(graph.clustering_coefficient(2), SCALE / 2);
    assert_eq!(graph.clustering_coefficient(3), SCALE / 2);
}

#[test]
fn clustering_is_rounded_down() {
    // Node 1 has the neighbours 2, 3 and 4; one edge joins two of them.
    let graph = Graph::new(&vec![
        edge(1, 2, 1.0),
        edge(1, 3, 1.0),
        edge(4, 1, 1.0),
        edge(2, 3, 1.0),
    ]);
    assert_eq!(graph.clustering_coefficient(1), 166_666);
}

#[test]
fn clustering_with_one_distinct_neighbor_is_zero() {
    let graph = Graph::new(&vec![edge(1, 2, 1.0), edge(1, 2, 1.0), edge(2, 1, 1.0)]);
    assert_eq!(graph.clustering_coefficient(1), 0);
    assert_eq!(graph.clustering_coefficient(2), 0);
}

#[test]
fn clustering_counts_each_parallel_edge() {
    // Between the neighbours 2 and 3 of node 1 run three edges.
    let graph = Graph::new(&vec![
        edge(1, 2, 1.0),
        edge(1, 3, 1.0),
        edge(2, 3, 1.0),
        edge(2, 3, 1.0),
        edge(3, 2, 1.0),
    ]);
    assert_eq!(graph.clustering_coefficient(1), 3 * SCALE / 2);
}

#[test]
fn clustering_stays_in_unit_range_on_simple_graph() {
    let mut edges = Vec::new();
    for from in 1..6usize {
        for to in 1..6usize {
            if from != to && (from + 2 * to) % 3 != 0 {
                edges.push(edge(from, to, 1.0));
            }
        }
    }
    let graph = Graph::new(&edges);
    for node in graph.nodes() {
        let cc = graph.clustering_coefficient(node);
        assert!(0 <= cc && cc <= SCALE);
    }
}

#[test]
fn trust_score_is_mean_rounded_down() {
    let graph = Graph::new(&vec![edge(1, 4, 1.0), edge(2, 4, 1.0), edge(3, 4, 2.0)]);
    assert_eq!(graph.get_trust_score(4), 1_333_333);
    let negative = Graph::new(&vec![edge(1, 4, -1.0), edge(2, 4, -1.0), edge(3, 4, -2.0)]);
    assert_eq!(negative.get_trust_score(4), -1_333_334);
    assert_eq!(negative.get_trust_score(1), 0);
}

#[test]
fn trust_score_of_extreme_weights() {
    let graph = Graph::new(&vec![
        Edge { from: 1, to: 3, weight: i64::MAX },
        Edge { from: 2, to: 3, weight: i64::MAX },
        Edge { from: 1, to: 4, weight: i64::MIN },
        Edge { from: 2, to: 4, weight: i64::MIN },
    ]);
    assert_eq!(graph.get_trust_score(3), i64::MAX as i128);
    assert_eq!(graph.get_trust_score(4), i64::MIN as i128);
}

#[test]
fn triangle_is_one_component_of_three_nodes() {
    let graph = Graph::new(&vec![edge(1, 2, 1.0), edge(2, 3, 1.0), edge(3, 1, 1.0)]);
    assert_eq!(component_nodes(&graph), vec![vec![1, 2, 3]]);
}

#[test]
fn two_separate_edges_are_two_components() {
    let graph = Graph::new(&vec![edge(1, 2, 1.0), edge(3, 4, 1.0)]);
    assert_eq!(component_nodes(&graph), vec![vec![1, 2], vec![3, 4]]);
}

#[test]
fn components_follow_edges_in_both_directions() {
    // 5 is tied to 1 only by edges that enter 5 and 1 from 3.
    let graph = Graph::new(&vec![edge(3, 5, 1.0), edge(3, 1, 1.0), edge(8, 2, 1.0), edge(9, 9, 1.0)]);
    assert_eq!(component_nodes(&graph), vec![vec![1, 3, 5], vec![2, 8], vec![9]]);
}

#[test]
fn components_part_the_nodes_and_keep_the_edges() {
    let edges = vec![
        edge(10, 11, 1.0),
        edge(12, 11, 2.0),
        edge(20, 21, 3.0),
        edge(21, 20, 4.0),
        edge(30, 30, 5.0),
        edge(12, 13, 6.0),
    ];
    let graph = Graph::new(&edges);
    let parts = graph.find_subgraphs();
    let mut seen: Vec<usize> = Vec::new();
    for part in &parts {
        for (node, list) in &part.content {
            assert!(!seen.contains(node));
            seen.push(*node);
            let kept: Vec<(usize, usize, i64)> = list.iter().map(|e| (e.from, e.to, e.weight)).collect();
            let whole: Vec<(usize, usize, i64)> =
                graph.content[node].iter().map(|e| (e.from, e.to, e.weight)).collect();
            assert_eq!(kept, whole);
        }
    }
    seen.sort();
    assert_eq!(seen, graph.nodes());
    assert_eq!(parts.len(), 3);
}

#[test]
fn built_graphs_and_components_are_well_formed() {
    let graph = Graph::new(&vec![edge(1, 2, 1.0), edge(2, 3, 1.0), edge(7, 8, 1.0)]);
    assert!(graph.is_well_formed());
    for part in graph.find_subgraphs() {
        assert!(part.is_well_formed());
    }
    assert!(Graph::new(&Vec::new()).is_well_formed());
}

#[test]
fn graph_with_a_missing_target_or_a_misplaced_edge_is_not_well_formed() {
    let mut dangling = Graph::new(&vec![edge(1, 2, 1.0)]);
    dangling.content.remove(&2);
    assert!(!dangling.is_well_formed());
    let mut misplaced = Graph::new(&vec![edge(1, 2, 1.0)]);
    misplaced.content.get_mut(&2).unwrap().push(edge(1, 2, 1.0));
    assert!(!misplaced.is_well_formed());
}
