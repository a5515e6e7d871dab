use std::collections::BTreeMap;
use trustnet::analyze::GraphInfo;
use trustnet::fixed::SCALE;
use trustnet::graph::Edge;
use trustnet::graph::Graph;

fn fixed(value: f64) -> i128 {
    (value * SCALE as f64).round() as i128
}

fn weight(value: f64) -> i64 {
    (value * SCALE as f64).round() as i64
}

fn float(value: i128) -> f64 {
    value as f64 / SCALE as f64
}

#[test]
fn test_get_info_basic() {
    let edges = vec![
        Edge { from: 1, to: 2, weight: weight(1.0) },
        Edge { from: 2, to: 3, weight: weight(2.0) },
        Edge { from: 3, to: 1, weight: weight(3.0) },
    ];
    let graph = Graph::new(&edges);
    let info = GraphInfo::get_info(&graph);

    assert_eq!(info.graph.content.len(), 3);
    assert!(info.nodes_indegree.contains_key(&1));
    assert!(info.nodes_outdegree.contains_key(&1));
    assert!(float(*info.nodes_indegree.get(&1).unwrap()) - 1.0 < 1e-8);
    assert!(float(*info.nodes_outdegree.get(&1).unwrap()) - 1.0 < 1e-8);
}

#[test]
fn test_get_info_empty_graph() {
    let edges: Vec<Edge> = vec![];
    let graph = Graph::new(&edges);
    let info = GraphInfo::get_info(&graph);

    assert_eq!(info.graph.content.len(), 0);
    assert!(info.nodes_indegree.is_empty());
    assert!(info.nodes_outdegree.is_empty());
    assert!(info.clustering_coefficients.is_empty());
    assert!(info.sub_graphs.is_empty());
}

#[test]
fn test_analyze_clustering_centrality() {
    let edges = vec![
        Edge { from: 1, to: 2, weight: weight(1.0) },
        Edge { from: 2, to: 3, weight: weight(2.0) },
    ];
    let graph = Graph::new(&edges);
    let info = GraphInfo::get_info(&graph);

    let result = info.analyze_clustering_centrality(fixed(1.0), fixed(0.0)).to_text();

    println!("{}", result);
    assert!(result.contains("Nodes with trust score >= 1: 2 nodes."));
    assert!(result.contains("Percentage with high clustering: 0.00"));
}

#[test]
fn test_analyze_clustering_centrality_no_scores() {
    let edges = vec![Edge { from: 1, to: 2, weight: weight(0.5) }];
    let graph = Graph::new(&edges);
    let info = GraphInfo::get_info(&graph);

    let result = info.analyze_clustering_centrality(fixed(2.0), fixed(-1.0)).to_text();
    assert!(result.contains("Nodes with trust score >= 2: 0 nodes."));
    assert!(result.contains("Percentage with high clustering: 0.00%."));
}

#[test]
fn test_find_k_representatives() {
    let edges = vec![
        Edge { from: 1, to: 2, weight: weight(1.0) },
        Edge { from: 2, to: 3, weight: weight(2.0) },
        Edge { from: 3, to: 1, weight: weight(3.0) },
    ];
    let graph = Graph::new(&edges);
    let info = GraphInfo::get_info(&graph);

    let result = info.find_k_representatives(2).to_text();
    assert!(result.contains("Selected Representatives"));
    assert!(result.contains("Average clustering coefficient of representatives"));
}

#[test]
fn test_find_k_representatives_insufficient_nodes() {
    let edges = vec![Edge { from: 1, to: 2, weight: weight(1.0) }];
    let graph = Graph::new(&edges);
    let info = GraphInfo::get_info(&graph);

    let result = info.find_k_representatives(5).to_text();
    assert!(
        result.contains("Selected Representatives: [1, 2]")
            || result.contains("Selected Representatives: [2, 1]")
    );
}

#[test]
fn test_find_min_max_typical() {
    let mut values = BTreeMap::new();
    values.insert(1, fixed(10.0));
    values.insert(2, fixed(20.0));
    values.insert(3, fixed(5.0));
    values.insert(4, fixed(15.0));

    let (min, max) = GraphInfo::find_min_max(&values);

    assert_eq!(float(min), 5.0);
    assert_eq!(float(max), 20.0);
}

#[test]
fn test_find_min_max_empty() {
    let values: BTreeMap<usize, i128> = BTreeMap::new();

    let (min, max) = GraphInfo::find_min_max(&values);

    assert_eq!(float(min), 0.0);
    assert_eq!(float(max), 0.0);
}

#[test]
fn test_normalize_typical() {
    let value = fixed(15.0);
    let min = fixed(10.0);
    let max = fixed(20.0);

    let normalized = float(GraphInfo::normalize(value, min, max));

    assert_eq!(normalized, 0.5);
}

#[test]
fn test_normalize_min_equals_max() {
    let value = fixed(10.0);
    let min = fixed(10.0);
    let max = fixed(10.0);

    let normalized = float(GraphInfo::normalize(value, min, max));

    assert_eq!(normalized, 0.0);
}

fn edge(from: usize, to: usize, value: f64) -> Edge {
    Edge { from, to, weight: weight(value) }
}

fn info_of(edges: Vec<Edge>) -> GraphInfo {
    GraphInfo::get_info(&Graph::new(&edges))
}

#[test]
fn info_holds_every_measure_of_every_node() {
    let edges = vec![edge(1, 2, 1.5), edge(3, 2, 2.5), edge(2, 3, -4.0), edge(1, 3, 1.0)];
    let graph = Graph::new(&edges);
    let info = GraphInfo::get_info(&graph);
    let (in_degree, out_degree) = graph.get_degrees();
    assert_eq!(info.nodes_indegree, in_degree);
    assert_eq!(info.nodes_outdegree, out_degree);
    for node in graph.nodes() {
        assert_eq!(info.clustering_coefficients[&node], graph.clustering_coefficient(node));
        assert_eq!(info.trust_scores[&node], graph.get_trust_score(node));
    }
    assert_eq!(info.trust_scores[&1], 0);
    assert_eq!(info.trust_scores[&2], 2 * SCALE);
    assert_eq!(info.trust_scores[&3], -3 * SCALE / 2);
    assert_eq!(info.sub_graphs.len(), 1);
    assert_eq!(info.graph.content.len(), 3);
}

#[test]
fn normalize_rounds_down_and_takes_values_outside_the_span() {
    assert_eq!(GraphInfo::normalize(1, 0, 3), 333_333);
    assert_eq!(GraphInfo::normalize(2, 0, 3), 666_666);
    assert_eq!(GraphInfo::normalize(0, 10, 20), -SCALE);
    assert_eq!(GraphInfo::normalize(-1, 0, 3), -333_334);
    assert_eq!(GraphInfo::normalize(30, 10, 20), 2 * SCALE);
    assert_eq!(GraphInfo::normalize(15, 20, 10), SCALE / 2);
    assert_eq!(GraphInfo::normalize(7, 7, 7), 0);
    assert_eq!(GraphInfo::normalize(9, 7, 7), 0);
}

#[test]
fn find_min_max_of_negative_and_single_values() {
    let mut values = BTreeMap::new();
    values.insert(4, -3);
    assert_eq!(GraphInfo::find_min_max(&values), (-3, -3));
    values.insert(2, -7);
    values.insert(9, 5);
    assert_eq!(GraphInfo::find_min_max(&values), (-7, 5));
}

#[test]
fn threshold_analysis_of_path_counts_each_class() {
    // 1 -> 2 -> 3: the trust scores are 0, 1 and 2.
    let info = info_of(vec![edge(1, 2, 1.0), edge(2, 3, 2.0)]);
    let report = info.analyze_clustering_centrality(fixed(1.0), fixed(0.0));
    assert_eq!(report.high_score, fixed(1.0));
    assert_eq!(report.low_score, fixed(0.0));
    assert_eq!(report.high_trust.count, 2);
    assert_eq!(report.low_trust.count, 1);
    assert_eq!(report.high_trust.high_clustering_count, 0);
    assert_eq!(report.low_trust.high_clustering_count, 0);
    assert_eq!(report.high_trust.clustering_percentage, 0);
    assert_eq!(report.low_trust.clustering_percentage, 0);
    // The outdegrees are 1, 1 and 0, their mean two thirds.
    assert_eq!(report.high_trust.high_centrality_count, 1);
    assert_eq!(report.high_trust.centrality_percentage, 50 * SCALE);
    assert_eq!(report.low_trust.high_centrality_count, 1);
    assert_eq!(report.low_trust.centrality_percentage, 100 * SCALE);
    assert_eq!(
        report.to_text(),
        "\nNodes with trust score >= 1: 2 nodes.\n                \
         \nPercentage with high clustering: 0.00%.\n                \
         \nPercentage with high centrality: 50.00%.\n                \
         \nNodes with trust score <= 0: 1 nodes.\n                \
         \nPercentage with high clustering: 0.00%.\n                \
         \nPercentage with high centrality: 100.00%."
    );
}

#[test]
fn threshold_classes_may_overlap() {
    let info = info_of(vec![edge(1, 2, 1.0), edge(2, 3, 2.0)]);
    let report = info.analyze_clustering_centrality(fixed(-5.0), fixed(5.0));
    assert_eq!(report.high_trust.count, 3);
    assert_eq!(report.low_trust.count, 3);
}

#[test]
fn threshold_analysis_of_empty_graph_is_all_zero() {
    let info = info_of(Vec::new());
    let report = info.analyze_clustering_centrality(fixed(4.0), fixed(-2.0));
    assert_eq!(report.high_trust.count, 0);
    assert_eq!(report.low_trust.count, 0);
    assert_eq!(report.high_trust.clustering_percentage, 0);
    assert_eq!(report.high_trust.centrality_percentage, 0);
    assert_eq!(report.low_trust.clustering_percentage, 0);
    assert_eq!(report.low_trust.centrality_percentage, 0);
    assert!(report.to_text().contains("Nodes with trust score >= 4: 0 nodes."));
    assert!(report.to_text().contains("Nodes with trust score <= -2: 0 nodes."));
}

#[test]
fn threshold_analysis_compares_with_the_exact_means() {
    let info = info_of(vec![
        edge(1, 4, 3.0),
        edge(2, 4, 3.0),
        edge(3, 4, 3.0),
        edge(1, 2, 1.0),
        edge(2, 3, 1.0),
    ]);
    let coefficients: Vec<i128> = info.clustering_coefficients.values().copied().collect();
    // 1: neighbours {2, 4}, edge 2->4: 1/2. 2: {1, 3, 4}, edges 1->4, 3->4: 2/6.
    // 3: {2, 4}, edge 2->4: 1/2. 4: {1, 2, 3}, edges 1->2, 2->3: 2/6.
    assert_eq!(coefficients, vec![500_000, 333_333, 500_000, 333_333]);
    let report = info.analyze_clustering_centrality(fixed(1.0), fixed(0.0));
    // Trust scores: 0, 1, 1, 3.
    assert_eq!(report.high_trust.count, 3);
    assert_eq!(report.high_trust.high_clustering_count, 1);
    assert_eq!(report.high_trust.clustering_percentage, 33_333_333);
    // Outdegrees 2, 2, 1, 0 with mean 5/4: of the class only node 2 is central.
    assert_eq!(report.high_trust.high_centrality_count, 1);
    assert_eq!(report.low_trust.count, 1);
    assert_eq!(report.low_trust.high_clustering_count, 1);
    assert_eq!(report.low_trust.high_centrality_count, 1);
    assert!(report.to_text().contains("Percentage with high clustering: 33.33%."));
    assert!(report.to_text().contains("Percentage with high clustering: 100.00%."));
}

#[test]
fn outdegree_on_the_mean_counts_as_central() {
    // A cycle: every outdegree is one, and so is the mean.
    let info = info_of(vec![edge(1, 2, 1.0), edge(2, 3, 1.0), edge(3, 1, 1.0)]);
    let report = info.analyze_clustering_centrality(fixed(1.0), fixed(1.0));
    assert_eq!(report.high_trust.count, 3);
    assert_eq!(report.high_trust.high_centrality_count, 3);
    // Every coefficient is one half, none lies above the mean.
    assert_eq!(report.high_trust.high_clustering_count, 0);
}

#[test]
fn representatives_rank_by_score_then_trust_then_node() {
    // Indegrees: node 1 has 0, nodes 2 and 3 have 2, node 4 has 1.
    let info = info_of(vec![
        edge(1, 2, 1.0),
        edge(4, 2, 1.0),
        edge(1, 3, 2.0),
        edge(4, 3, 4.0),
        edge(1, 4, 5.0),
    ]);
    let report = info.find_k_representatives(4);
    // 2 and 3 have the same score; 3 has the higher trust.
    assert_eq!(report.representatives[0], 3);
    assert_eq!(report.representatives[1], 2);
    assert_eq!(report.representatives.len(), 4);
    assert_eq!(report.total_nodes, 4);
    assert_eq!(report.representative_ratio, 100 * SCALE);
    assert_eq!(report.trust_scores[0], 3 * SCALE);
    assert_eq!(report.trust_scores[1], SCALE);
}

#[test]
fn representatives_with_equal_scores_keep_node_order() {
    let info = info_of(vec![edge(1, 2, 1.0), edge(2, 3, 1.0), edge(3, 1, 1.0)]);
    let report = info.find_k_representatives(2);
    assert_eq!(report.representatives, vec![1, 2]);
    assert_eq!(report.representative_ratio, 66_666_666);
    assert_eq!(report.trust_scores, vec![SCALE, SCALE]);
    assert_eq!(report.average_trust_score, SCALE);
    assert_eq!(report.average_clustering, SCALE / 2);
    assert_eq!(
        report.to_text(),
        "\nSelected Representatives: [1, 2]\n            \
         \nThe number of representatives is 66.67% of total nodes.\n            \
         \nAverage trust scores of each representative: [1.0, 1.0]\n            \
         \nAverage trust scores of all representatives: 1\n            \
         \nAverage clustering coefficient of representatives: 0.5"
    );
}

#[test]
fn more_representatives_than_nodes_gives_every_node_once() {
    let info = info_of(vec![edge(5, 6, 1.0), edge(7, 6, 2.0), edge(8, 5, 3.0), edge(9, 9, 1.0)]);
    let report = info.find_k_representatives(100);
    let mut nodes = report.representatives.clone();
    nodes.sort();
    assert_eq!(nodes, vec![5, 6, 7, 8, 9]);
    assert_eq!(report.representative_ratio, 100 * SCALE);
}

#[test]
fn no_representatives_have_zero_means() {
    let info = info_of(vec![edge(1, 2, 1.0)]);
    let report = info.find_k_representatives(0);
    assert!(report.representatives.is_empty());
    assert!(report.trust_scores.is_empty());
    assert_eq!(report.representative_ratio, 0);
    assert_eq!(report.average_trust_score, 0);
    assert_eq!(report.average_clustering, 0);
    let empty = info_of(Vec::new()).find_k_representatives(3);
    assert!(empty.representatives.is_empty());
    assert_eq!(empty.representative_ratio, 0);
    assert_eq!(
        empty.to_text(),
        "\nSelected Representatives: []\n            \
         \nThe number of representatives is 0.00% of total nodes.\n            \
         \nAverage trust scores of each representative: []\n            \
         \nAverage trust scores of all representatives: 0\n            \
         \nAverage clustering coefficient of representatives: 0"
    );
}

#[test]
fn composite_score_weighs_indegree_and_clustering() {
    let info = info_of(vec![
        edge(1, 4, 3.0),
        edge(2, 4, 3.0),
        edge(3, 4, 3.0),
        edge(1, 2, 1.0),
        edge(2, 3, 1.0),
    ]);
    // Indegrees 0, 1, 1, 3; places 0, 1/3, 1/3, 1. Coefficients 1/2, 1/3,
    // 1/2, 1/3; places 1, 0, 1, 0. Scores 0.3, 0.233333, 0.533333, 0.7.
    let report = info.find_k_representatives(4);
    assert_eq!(report.representatives, vec![4, 3, 1, 2]);
    assert_eq!(report.trust_scores, vec![3 * SCALE, SCALE, 0, SCALE]);
    assert_eq!(report.average_trust_score, 1_250_000);
    assert_eq!(report.average_clustering, 416_666);
    let text = report.to_text();
    assert!(text.contains("Average trust scores of each representative: [3.0, 1.0, 0.0, 1.0]"));
    assert!(text.contains("Average trust scores of all representatives: 1.25\n"));
    assert!(text.ends_with("Average clustering coefficient of representatives: 0.416666"));
}

#[test]
fn text_renders_negative_and_fractional_thresholds() {
    let info = info_of(vec![edge(1, 2, -0.25)]);
    let text = info.analyze_clustering_centrality(fixed(-0.25), fixed(-10.5)).to_text();
    assert!(text.contains("Nodes with trust score >= -0.25: 2 nodes."));
    assert!(text.contains("Nodes with trust score <= -10.5: 0 nodes."));
    let text = info.analyze_clustering_centrality(1, 1_000_001).to_text();
    assert!(text.contains("Nodes with trust score >= 0.000001: 0 nodes."));
    assert!(text.contains("Nodes with trust score <= 1.000001: 2 nodes."));
}

#[test]
fn percentages_round_to_the_nearest_hundredth() {
    // One of three is 33.33 percent, two of three 66.67.
    let info = info_of(vec![edge(1, 2, 1.0), edge(2, 3, 1.0), edge(3, 1, 1.0)]);
    let report = info.find_k_representatives(1);
    assert!(report.to_text().contains("The number of representatives is 33.33% of total nodes."));
    let report = info.find_k_representatives(2);
    assert!(report.to_text().contains("The number of representatives is 66.67% of total nodes."));
}
