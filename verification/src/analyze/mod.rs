//! The analysis snapshot of a graph, and the reports drawn from it.

use crate::fixed::div_floor;
use crate::fixed::SCALE;
use crate::graph::clustering::clustering;
use crate::graph::connectivity::component_graph;
use crate::graph::connectivity::roots;
use crate::graph::in_edges;
use crate::graph::mean_weight;
use crate::graph::order::lemma_take_next;
use crate::graph::order::lists;
use crate::graph::order::sorted_keys;
use crate::graph::node_seq;
use crate::graph::Adjacency;
use crate::graph::Graph;
use measure::indegree;
use measure::lemma_against_mean;
use measure::mean_parts;
use measure::outdegree;
use measure::percentage;
use measure::percentage_of;
use measure::total;
use measure::trust;
use measure::value_at;
use std::collections::BTreeMap;
use vstd::prelude::*;

pub mod measure;
pub mod ranking;
pub mod representatives;
pub mod text;

verus! {

broadcast use vstd::laws_cmp::group_laws_cmp;

/// Whether `x` can be a degree or a clustering coefficient.
pub open spec fn is_measure(x: int) -> bool {
    0 <= x <= SCALE * usize::MAX
}

/// Whether `low` is the least and `high` the greatest value of `values`;
/// both are zero where there is none.
pub open spec fn spans(values: Map<usize, i128>, low: i128, high: i128) -> bool {
    if values.dom().len() == 0 {
        low == 0 && high == 0
    } else {
        &&& exists|n: usize| values.contains_key(n) && #[trigger] values[n] == low
        &&& exists|n: usize| values.contains_key(n) && #[trigger] values[n] == high
        &&& forall|n: usize| values.contains_key(n) ==> low <= #[trigger] values[n] <= high
    }
}

/// The place of `value` between `min` and `max` as a fixed-point number,
/// rounded down: zero at `min`, one at `max`; zero where the two are equal.
pub open spec fn normalized(value: int, min: int, max: int) -> int {
    if max == min {
        0
    } else if max > min {
        (value - min) * SCALE / (max - min)
    } else {
        (min - value) * SCALE / (min - max)
    }
}

/// The clustering coefficient of each node of `g`.
pub open spec fn clustering_of(g: Adjacency) -> spec_fn(usize) -> int {
    |n: usize| clustering(g, n)
}

/// The outdegree of each node of `g`.
pub open spec fn outdegree_of(g: Adjacency) -> spec_fn(usize) -> int {
    |n: usize| outdegree(g, n)
}

/// Whether the clustering coefficient of `n` lies above the mean over all
/// nodes.
pub open spec fn well_clustered(g: Adjacency, n: usize) -> bool {
    clustering(g, n) * node_seq(g).len() > total(node_seq(g), clustering_of(g))
}

/// Whether the outdegree of `n` lies at or above the mean over all nodes.
pub open spec fn central(g: Adjacency, n: usize) -> bool {
    outdegree(g, n) * node_seq(g).len() >= total(node_seq(g), outdegree_of(g))
}

/// The nodes of `g` with a trust score of at least `high`, in ascending order.
pub open spec fn high_trust_nodes(g: Adjacency, high: int) -> Seq<usize> {
    node_seq(g).filter(|n: usize| trust(g, n) >= high)
}

/// The nodes of `g` with a trust score of at most `low`, in ascending order.
pub open spec fn low_trust_nodes(g: Adjacency, low: int) -> Seq<usize> {
    node_seq(g).filter(|n: usize| trust(g, n) <= low)
}

/// Those among `nodes` that are well clustered.
pub open spec fn clustered_among(g: Adjacency, nodes: Seq<usize>) -> Seq<usize> {
    nodes.filter(|n: usize| well_clustered(g, n))
}

/// Those among `nodes` that are central.
pub open spec fn central_among(g: Adjacency, nodes: Seq<usize>) -> Seq<usize> {
    nodes.filter(|n: usize| central(g, n))
}

/// What the threshold analysis says of one class of nodes.
#[derive(Debug, Clone, Copy)]
pub struct TrustClass {
    /// The number of nodes in the class.
    pub count: usize,
    /// How many of them are well clustered.
    pub high_clustering_count: usize,
    /// How many of them are central.
    pub high_centrality_count: usize,
    /// The share of the well clustered among them, in percent.
    pub clustering_percentage: i128,
    /// The share of the central among them, in percent.
    pub centrality_percentage: i128,
}

/// Whether `class` sums up the nodes `members` of `g`.
pub open spec fn summarizes(class: TrustClass, g: Adjacency, members: Seq<usize>) -> bool {
    &&& class.count == members.len()
    &&& class.high_clustering_count == clustered_among(g, members).len()
    &&& class.high_centrality_count == central_among(g, members).len()
    &&& class.clustering_percentage == percentage(
        class.high_clustering_count as int,
        class.count as int,
    )
    &&& class.centrality_percentage == percentage(
        class.high_centrality_count as int,
        class.count as int,
    )
}

/// The threshold analysis: the nodes of high trust and those of low
/// trust, each class with its share of well clustered and of central nodes.
#[derive(Debug, Clone, Copy)]
pub struct ThresholdReport {
    /// The least trust score of the class of high trust.
    pub high_score: i128,
    /// The greatest trust score of the class of low trust.
    pub low_score: i128,
    /// The nodes with a trust score of at least `high_score`.
    pub high_trust: TrustClass,
    /// The nodes with a trust score of at most `low_score`.
    pub low_trust: TrustClass,
}

/// The analysis of a graph: its degrees, clustering coefficients and trust
/// scores by node, and its connected components.
#[derive(Debug, Clone)]
pub struct GraphInfo {
    /// A copy of the graph.
    pub graph: Graph,
    /// The number of incoming edges of each node, as a fixed-point number.
    pub nodes_indegree: BTreeMap<usize, i128>,
    /// The number of outgoing edges of each node, as a fixed-point number.
    pub nodes_outdegree: BTreeMap<usize, i128>,
    /// The clustering coefficient of each node.
    pub clustering_coefficients: BTreeMap<usize, i128>,
    /// The connected components, in ascending order of their least nodes.
    pub sub_graphs: Vec<Graph>,
    /// The trust score of each node.
    pub trust_scores: BTreeMap<usize, i128>,
}

impl View for GraphInfo {
    type V = Adjacency;

    open spec fn view(&self) -> Adjacency {
        self.graph@
    }
}

impl GraphInfo {
    /// Whether the snapshot describes its graph: each map has a value for
    /// every node and no other, the value that the graph gives, and the
    /// subgraphs are the graph's components.
    pub open spec fn wf(&self) -> bool {
        &&& self.graph.wf()
        &&& self.nodes_indegree@.dom() == self.graph@.dom()
        &&& self.nodes_outdegree@.dom() == self.graph@.dom()
        &&& self.clustering_coefficients@.dom() == self.graph@.dom()
        &&& self.trust_scores@.dom() == self.graph@.dom()
        &&& forall|n: usize| #[trigger]
            self.graph@.contains_key(n) ==> {
                &&& self.nodes_indegree@[n] == indegree(self.graph@, n)
                &&& self.nodes_outdegree@[n] == outdegree(self.graph@, n)
                &&& self.clustering_coefficients@[n] == clustering(self.graph@, n)
                &&& self.trust_scores@[n] == trust(self.graph@, n)
                &&& is_measure(self.nodes_indegree@[n] as int)
                &&& is_measure(self.nodes_outdegree@[n] as int)
                &&& is_measure(self.clustering_coefficients@[n] as int)
                &&& i64::MIN <= self.trust_scores@[n] <= i64::MAX
            }
        &&& self.sub_graphs@.len() == roots(self.graph@).len()
        &&& forall|i: int|
            0 <= i < self.sub_graphs@.len() ==> {
                &&& (#[trigger] self.sub_graphs@[i])@ == component_graph(
                    self.graph@,
                    roots(self.graph@)[i],
                )
                &&& self.sub_graphs@[i].wf()
            }
    }

    /// Analyses `graph`: computes every map and the components at once.
    pub fn get_info(graph: &Graph) -> (info: GraphInfo)
        requires
            graph.wf(),
        ensures
            info.wf(),
            info.graph@ == graph@,
    {
        let (nodes_indegree, nodes_outdegree) = graph.get_degrees();
        let order = graph.nodes();
        let mut clustering_coefficients: BTreeMap<usize, i128> = BTreeMap::new();
        let mut trust_scores: BTreeMap<usize, i128> = BTreeMap::new();
        let mut i: usize = 0;
        while i < order.len()
            invariant
                i <= order.len(),
                graph.wf(),
                lists(order@, graph@.dom()),
                forall|n: usize|
                    #![trigger clustering_coefficients@.contains_key(n)]
                    clustering_coefficients@.contains_key(n) <==> order@.take(i as int).contains(
                        n,
                    ),
                forall|n: usize|
                    #![trigger trust_scores@.contains_key(n)]
                    trust_scores@.contains_key(n) <==> order@.take(i as int).contains(n),
                forall|n: usize| #[trigger]
                    clustering_coefficients@.contains_key(n) ==> {
                        &&& clustering_coefficients@[n] == clustering(graph@, n)
                        &&& is_measure(clustering_coefficients@[n] as int)
                    },
                forall|n: usize| #[trigger]
                    trust_scores@.contains_key(n) ==> {
                        &&& trust_scores@[n] == mean_weight(in_edges(graph@, n))
                        &&& i64::MIN <= trust_scores@[n] <= i64::MAX
                    },
            decreases order.len() - i,
        {
            let node = order[i];
            proof {
                lemma_take_next(order@, i as int);
            }
            clustering_coefficients.insert(node, graph.clustering_coefficient(node));
            trust_scores.insert(node, graph.get_trust_score(node));
            i += 1;
        }
        let sub_graphs = graph.find_subgraphs();
        let copy = Graph { content: graph.content.clone() };
        proof {
            assert(order@.take(i as int) =~= order@);
            assert(clustering_coefficients@.dom() =~= graph@.dom());
            assert(trust_scores@.dom() =~= graph@.dom());
        }
        GraphInfo {
            graph: copy,
            nodes_indegree,
            nodes_outdegree,
            clustering_coefficients,
            sub_graphs,
            trust_scores,
        }
    }

    /// The nodes whose trust score is at least `high_score`, and those
    /// whose trust score is at most `low_score`, each list in ascending
    /// order.
    fn trust_classes(&self, order: &Vec<usize>, high_score: i128, low_score: i128) -> (classes: (
        Vec<usize>,
        Vec<usize>,
    ))
        requires
            self.wf(),
            order@ == node_seq(self@),
            lists(order@, self@.dom()),
        ensures
            classes.0@ == high_trust_nodes(self@, high_score as int),
            classes.1@ == low_trust_nodes(self@, low_score as int),
    {
        let mut high_trust_nodes: Vec<usize> = Vec::new();
        let mut low_trust_nodes: Vec<usize> = Vec::new();
        let ghost at_least = |n: usize| trust(self@, n) >= high_score as int;
        let ghost at_most = |n: usize| trust(self@, n) <= low_score as int;
        let mut i: usize = 0;
        while i < order.len()
            invariant
                i <= order.len(),
                self.wf(),
                lists(order@, self@.dom()),
                at_least == |n: usize| trust(self@, n) >= high_score as int,
                at_most == |n: usize| trust(self@, n) <= low_score as int,
                high_trust_nodes@ == order@.take(i as int).filter(at_least),
                low_trust_nodes@ == order@.take(i as int).filter(at_most),
            decreases order.len() - i,
        {
            let node = order[i];
            proof {
                lemma_take_next(order@, i as int);
                order@.take(i as int).lemma_filter_push(node, at_least);
                order@.take(i as int).lemma_filter_push(node, at_most);
            }
            let trust_score = value_at(&self.trust_scores, node);
            if trust_score >= high_score {
                high_trust_nodes.push(node);
            }
            if trust_score <= low_score {
                low_trust_nodes.push(node);
            }
            i += 1;
        }
        proof {
            assert(order@.take(i as int) =~= order@);
        }
        (high_trust_nodes, low_trust_nodes)
    }

    /// Sums up a class of nodes against the mean clustering coefficient and
    /// the mean outdegree, each given as quotient and remainder.
    fn summarize(
        &self,
        members: &Vec<usize>,
        clustering: (i128, i128),
        outdegree: (i128, i128),
    ) -> (class: TrustClass)
        requires
            self.wf(),
            node_seq(self@).len() > 0,
            forall|i: int| 0 <= i < members@.len() ==> self@.contains_key(#[trigger] members@[i]),
            clustering.0 == total(node_seq(self@), clustering_of(self@)) / (node_seq(
                self@,
            ).len() as int),
            outdegree.0 == total(node_seq(self@), outdegree_of(self@)) / (node_seq(
                self@,
            ).len() as int),
            outdegree.1 == total(node_seq(self@), outdegree_of(self@)) % (node_seq(
                self@,
            ).len() as int),
        ensures
            summarizes(class, self@, members@),
    {
        let mut high_clustering_count: usize = 0;
        let mut high_centrality_count: usize = 0;
        let ghost clustered = |n: usize| well_clustered(self@, n);
        let ghost centered = |n: usize| central(self@, n);
        let mut i: usize = 0;
        while i < members.len()
            invariant
                i <= members.len(),
                self.wf(),
                node_seq(self@).len() > 0,
                forall|i: int|
                    0 <= i < members@.len() ==> self@.contains_key(#[trigger] members@[i]),
                clustering.0 == total(node_seq(self@), clustering_of(self@)) / (node_seq(
                    self@,
                ).len() as int),
                outdegree.0 == total(node_seq(self@), outdegree_of(self@)) / (node_seq(
                    self@,
                ).len() as int),
                outdegree.1 == total(node_seq(self@), outdegree_of(self@)) % (node_seq(
                    self@,
                ).len() as int),
                clustered == |n: usize| well_clustered(self@, n),
                centered == |n: usize| central(self@, n),
                high_clustering_count == members@.take(i as int).filter(clustered).len(),
                high_centrality_count == members@.take(i as int).filter(centered).len(),
                high_clustering_count <= i,
                high_centrality_count <= i,
            decreases members.len() - i,
        {
            let node = members[i];
            let coefficient = value_at(&self.clustering_coefficients, node);
            let degree = value_at(&self.nodes_outdegree, node);
            proof {
                assert(members@.take(i as int + 1) =~= members@.take(i as int).push(node));
                members@.take(i as int).lemma_filter_push(node, clustered);
                members@.take(i as int).lemma_filter_push(node, centered);
                let count = node_seq(self@).len() as int;
                lemma_against_mean(
                    coefficient as int,
                    count,
                    total(node_seq(self@), clustering_of(self@)),
                );
                lemma_against_mean(
                    degree as int,
                    count,
                    total(node_seq(self@), outdegree_of(self@)),
                );
            }
            if coefficient > clustering.0 {
                high_clustering_count += 1;
            }
            if degree > outdegree.0 || (degree == outdegree.0 && outdegree.1 == 0) {
                high_centrality_count += 1;
            }
            i += 1;
        }
        proof {
            assert(members@.take(i as int) =~= members@);
        }
        TrustClass {
            count: members.len(),
            high_clustering_count,
            high_centrality_count,
            clustering_percentage: percentage_of(high_clustering_count, members.len()),
            centrality_percentage: percentage_of(high_centrality_count, members.len()),
        }
    }

    /// The threshold analysis. The nodes with a trust score of at least
    /// `high_score` make one class, those with a trust score of at most
    /// `low_score` another; a node may be in both. Of each class the report
    /// gives the number of nodes, and how many of them have a clustering
    /// coefficient above the mean over all nodes, and how many an outdegree
    /// at or above the mean over all nodes, as counts and in percent.
    pub fn analyze_clustering_centrality(&self, high_score: i128, low_score: i128) -> (report:
        ThresholdReport)
        requires
            self.wf(),
        ensures
            report.high_score == high_score,
            report.low_score == low_score,
            summarizes(report.high_trust, self@, high_trust_nodes(self@, high_score as int)),
            summarizes(report.low_trust, self@, low_trust_nodes(self@, low_score as int)),
    {
        let order = self.graph.nodes();
        let (high_trust_nodes, low_trust_nodes) = self.trust_classes(&order, high_score, low_score);
        proof {
            assert forall|i: int| 0 <= i < high_trust_nodes@.len() implies self@.contains_key(
                #[trigger] high_trust_nodes@[i],
            ) by {
                let keep = |n: usize| trust(self@, n) >= high_score as int;
                order@.lemma_filter_contains_rev(keep, high_trust_nodes@[i]);
            }
            assert forall|i: int| 0 <= i < low_trust_nodes@.len() implies self@.contains_key(
                #[trigger] low_trust_nodes@[i],
            ) by {
                let keep = |n: usize| trust(self@, n) <= low_score as int;
                order@.lemma_filter_contains_rev(keep, low_trust_nodes@[i]);
            }
        }
        if order.len() == 0 {
            let nothing = TrustClass {
                count: 0,
                high_clustering_count: 0,
                high_centrality_count: 0,
                clustering_percentage: 0,
                centrality_percentage: 0,
            };
            return ThresholdReport {
                high_score,
                low_score,
                high_trust: nothing,
                low_trust: nothing,
            };
        }
        let avg_clustering = mean_parts(
            &self.clustering_coefficients,
            &order,
            Ghost(clustering_of(self@)),
        );
        let mean_outdegree = mean_parts(&self.nodes_outdegree, &order, Ghost(outdegree_of(self@)));
        let high_trust = self.summarize(&high_trust_nodes, avg_clustering, mean_outdegree);
        let low_trust = self.summarize(&low_trust_nodes, avg_clustering, mean_outdegree);
        ThresholdReport { high_score, low_score, high_trust, low_trust }
    }

    /// The least and the greatest value of a map; both zero for an empty one.
    pub fn find_min_max(values: &BTreeMap<usize, i128>) -> (bounds: (i128, i128))
        ensures
            spans(values@, bounds.0, bounds.1),
    {
        let order = sorted_keys(values);
        proof {
            crate::graph::order::lemma_listing_len(order@, values@.dom());
        }
        if order.len() == 0 {
            return (0, 0);
        }
        let first = match values.get(&order[0]) {
            Some(v) => *v,
            None => 0,
        };
        let mut min_value = first;
        let mut max_value = first;
        let mut i: usize = 1;
        while i < order.len()
            invariant
                1 <= i <= order.len(),
                lists(order@, values@.dom()),
                exists|n: usize| values@.contains_key(n) && #[trigger] values@[n] == min_value,
                exists|n: usize| values@.contains_key(n) && #[trigger] values@[n] == max_value,
                forall|n: usize|
                    order@.take(i as int).contains(n) ==> min_value <= #[trigger] values@[n]
                        <= max_value,
            decreases order.len() - i,
        {
            match values.get(&order[i]) {
                Some(v) => {
                    if *v < min_value {
                        min_value = *v;
                    }
                    if *v > max_value {
                        max_value = *v;
                    }
                },
                None => {},
            }
            i += 1;
        }
        proof {
            assert(order@.take(i as int) =~= order@);
        }
        (min_value, max_value)
    }

    /// The place of `value` between `min` and `max`: zero at `min`, one at
    /// `max`, and zero where the two are equal.
    pub fn normalize(value: i128, min: i128, max: i128) -> (place: i128)
        requires
            max != min ==> -i128::MAX <= max - min <= i128::MAX,
            max != min ==> -i128::MAX <= (value - min) * SCALE <= i128::MAX,
        ensures
            place == normalized(value as int, min as int, max as int),
            max == min ==> place == 0,
    {
        if max == min {
            0
        } else {
            if max > min {
                div_floor((value - min) * SCALE, max - min)
            } else {
                div_floor((min - value) * SCALE, min - max)
            }
        }
    }
}

} // verus!
