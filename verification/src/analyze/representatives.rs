//! The choice of representative nodes.

use super::clustering_of;
use super::is_measure;
use super::measure::indegree;
use super::measure::lemma_total_push;
use super::measure::mean;
use super::measure::mean_parts;
use super::measure::percentage;
use super::measure::percentage_of;
use super::measure::total;
use super::measure::trust;
use super::measure::value_at;
use super::normalized;
use super::ranking::in_rank_order;
use super::ranking::precedes;
use super::ranking::rank;
use super::ranking::Ranked;
use super::spans;
use super::GraphInfo;
use crate::fixed::div_floor;
use crate::fixed::SCALE;
use crate::graph::clustering::clustering;
use crate::graph::node_seq;
use crate::graph::order::lemma_listing_len;
use crate::graph::order::lists;
use crate::graph::Adjacency;
use vstd::prelude::*;

verus! {

broadcast use vstd::laws_cmp::group_laws_cmp;

/// The indegree of each node of `g`.
pub open spec fn indegree_of(g: Adjacency) -> spec_fn(usize) -> int {
    |n: usize| indegree(g, n)
}

/// The trust score of each node of `g`.
pub open spec fn trust_of(g: Adjacency) -> spec_fn(usize) -> int {
    |n: usize| trust(g, n)
}

/// The least value of `f` over `nodes`; zero where there is none.
pub open spec fn least(nodes: Seq<usize>, f: spec_fn(usize) -> int) -> int
    decreases nodes.len(),
{
    if nodes.len() == 0 {
        0
    } else if nodes.len() == 1 {
        f(nodes[0])
    } else {
        let rest = least(nodes.drop_last(), f);
        if f(nodes.last()) < rest {
            f(nodes.last())
        } else {
            rest
        }
    }
}

/// The greatest value of `f` over `nodes`; zero where there is none.
pub open spec fn greatest(nodes: Seq<usize>, f: spec_fn(usize) -> int) -> int
    decreases nodes.len(),
{
    if nodes.len() == 0 {
        0
    } else if nodes.len() == 1 {
        f(nodes[0])
    } else {
        let rest = greatest(nodes.drop_last(), f);
        if f(nodes.last()) > rest {
            f(nodes.last())
        } else {
            rest
        }
    }
}

/// The composite score of `n`: seven tenths of the place of its indegree
/// among the indegrees of all nodes and three tenths of the place of its
/// clustering coefficient among theirs, rounded down.
pub open spec fn composite(g: Adjacency, n: usize) -> int {
    let order = node_seq(g);
    let centrality = normalized(
        indegree(g, n),
        least(order, indegree_of(g)),
        greatest(order, indegree_of(g)),
    );
    let cohesion = normalized(
        clustering(g, n),
        least(order, clustering_of(g)),
        greatest(order, clustering_of(g)),
    );
    (7 * centrality + 3 * cohesion) / 10
}

/// Whether `a` ranks before `b`: by the higher composite score, then by
/// the higher trust score, then by the lower node.
pub open spec fn outranks(g: Adjacency, a: usize, b: usize) -> bool {
    ||| composite(g, a) > composite(g, b)
    ||| composite(g, a) == composite(g, b) && trust(g, a) > trust(g, b)
    ||| composite(g, a) == composite(g, b) && trust(g, a) == trust(g, b) && a < b
}

/// Whether `entry` holds a node of `g` with its composite score and its
/// trust score.
pub open spec fn is_entry(g: Adjacency, entry: Ranked) -> bool {
    &&& g.contains_key(entry.node)
    &&& entry.score == composite(g, entry.node)
    &&& entry.trust == trust(g, entry.node)
}

/// The representatives of a graph with what is reported of them.
#[derive(Debug, Clone)]
pub struct RepresentativeReport {
    /// The representatives, the best first.
    pub representatives: Vec<usize>,
    /// The number of nodes of the graph.
    pub total_nodes: usize,
    /// Their share among all nodes, in percent.
    pub representative_ratio: i128,
    /// The trust score of each, in their order.
    pub trust_scores: Vec<i128>,
    /// The mean of their trust scores.
    pub average_trust_score: i128,
    /// The mean of their clustering coefficients.
    pub average_clustering: i128,
}

/// The least and the greatest value lie among the values.
pub proof fn lemma_least_greatest(nodes: Seq<usize>, f: spec_fn(usize) -> int)
    requires
        nodes.len() > 0,
    ensures
        exists|i: int| 0 <= i < nodes.len() && f(#[trigger] nodes[i]) == least(nodes, f),
        exists|i: int| 0 <= i < nodes.len() && f(#[trigger] nodes[i]) == greatest(nodes, f),
        forall|i: int|
            0 <= i < nodes.len() ==> least(nodes, f) <= f(#[trigger] nodes[i]) <= greatest(
                nodes,
                f,
            ),
    decreases nodes.len(),
{
    if nodes.len() == 1 {
        assert(f(nodes[0]) == least(nodes, f));
    } else {
        let rest = nodes.drop_last();
        lemma_least_greatest(rest, f);
        let last = nodes.len() - 1;
        assert forall|i: int| 0 <= i < nodes.len() implies least(nodes, f) <= f(
            #[trigger] nodes[i],
        ) <= greatest(nodes, f) by {
            if i < last {
                assert(rest[i] == nodes[i]);
            }
        }
    }
}

/// The span of a map is the least and the greatest value over its keys.
pub proof fn lemma_spans_least_greatest(
    values: Map<usize, i128>,
    nodes: Seq<usize>,
    f: spec_fn(usize) -> int,
    low: i128,
    high: i128,
)
    requires
        lists(nodes, values.dom()),
        forall|n: usize| values.contains_key(n) ==> values[n] == f(n),
        spans(values, low, high),
    ensures
        low == least(nodes, f),
        high == greatest(nodes, f),
{
    lemma_listing_len(nodes, values.dom());
    if nodes.len() > 0 {
        lemma_least_greatest(nodes, f);
        let a = choose|n: usize| values.contains_key(n) && #[trigger] values[n] == low;
        let i = choose|i: int| 0 <= i < nodes.len() && f(#[trigger] nodes[i]) == least(nodes, f);
        let j = choose|j: int|
            0 <= j < nodes.len() && f(#[trigger] nodes[j]) == greatest(nodes, f);
        assert(low <= values[nodes[i]]);
        assert(values[nodes[j]] <= high);
    }
}

/// Between the least and the greatest value, a place lies between zero and one.
pub proof fn lemma_normalized_range(value: int, min: int, max: int)
    requires
        min <= value <= max,
    ensures
        0 <= normalized(value, min, max) <= SCALE,
{
    if max > min {
        let width = max - min;
        let part = (value - min) * SCALE;
        vstd::arithmetic::div_mod::lemma_fundamental_div_mod(part, width);
        assert(0 <= part / width <= SCALE) by (nonlinear_arith)
            requires
                part == width * (part / width) + part % width,
                0 <= part % width < width,
                part == (value - min) * SCALE,
                0 <= value - min <= width,
                SCALE == 1_000_000,
        ;
    }
}

impl GraphInfo {
    /// Each node with its composite score and its trust score, in
    /// ascending order of the nodes.
    fn score_entries(&self, order: &Vec<usize>) -> (entries: Vec<Ranked>)
        requires
            self.wf(),
            order@ == node_seq(self@),
            lists(order@, self@.dom()),
        ensures
            entries@.len() == order@.len(),
            forall|i: int|
                0 <= i < entries@.len() ==> (#[trigger] entries@[i]).node == order@[i] && is_entry(
                    self@,
                    entries@[i],
                ),
    {
        let (min_indegree, max_indegree) = Self::find_min_max(&self.nodes_indegree);
        let (min_clustering, max_clustering) = Self::find_min_max(&self.clustering_coefficients);
        proof {
            lemma_spans_least_greatest(
                self.nodes_indegree@,
                order@,
                indegree_of(self@),
                min_indegree,
                max_indegree,
            );
            lemma_spans_least_greatest(
                self.clustering_coefficients@,
                order@,
                clustering_of(self@),
                min_clustering,
                max_clustering,
            );
            if order@.len() > 0 {
                lemma_least_greatest(order@, indegree_of(self@));
                lemma_least_greatest(order@, clustering_of(self@));
            }
        }
        let mut entries: Vec<Ranked> = Vec::new();
        let mut i: usize = 0;
        while i < order.len()
            invariant
                i <= order.len(),
                self.wf(),
                order@ == node_seq(self@),
                lists(order@, self@.dom()),
                min_indegree == least(order@, indegree_of(self@)),
                max_indegree == greatest(order@, indegree_of(self@)),
                min_clustering == least(order@, clustering_of(self@)),
                max_clustering == greatest(order@, clustering_of(self@)),
                is_measure(min_indegree as int),
                is_measure(max_indegree as int),
                is_measure(min_clustering as int),
                is_measure(max_clustering as int),
                forall|t: int|
                    0 <= t < order@.len() ==> min_indegree <= indegree_of(self@)(
                        #[trigger] order@[t],
                    ) <= max_indegree,
                forall|t: int|
                    0 <= t < order@.len() ==> min_clustering <= clustering_of(self@)(
                        #[trigger] order@[t],
                    ) <= max_clustering,
                entries@.len() == i,
                forall|t: int|
                    0 <= t < i ==> (#[trigger] entries@[t]).node == order@[t] && is_entry(
                        self@,
                        entries@[t],
                    ),
            decreases order.len() - i,
        {
            let node = order[i];
            let degree = value_at(&self.nodes_indegree, node);
            let coefficient = value_at(&self.clustering_coefficients, node);
            let trust_score = value_at(&self.trust_scores, node);
            proof {
                assert(min_indegree <= indegree_of(self@)(order@[i as int]) <= max_indegree);
                assert(min_clustering <= clustering_of(self@)(order@[i as int])
                    <= max_clustering);
                lemma_normalized_range(degree as int, min_indegree as int, max_indegree as int);
                lemma_normalized_range(
                    coefficient as int,
                    min_clustering as int,
                    max_clustering as int,
                );
            }
            let normalized_centrality = Self::normalize(degree, min_indegree, max_indegree);
            let normalized_clustering = Self::normalize(
                coefficient,
                min_clustering,
                max_clustering,
            );
            let score = div_floor(7 * normalized_centrality + 3 * normalized_clustering, 10);
            entries.push(Ranked { node, score, trust: trust_score });
            i += 1;
        }
        entries
    }

    /// Chooses the `k` representatives of the graph, or every node where
    /// it has fewer: the nodes that rank first by composite score, then by
    /// trust score, then by the lower node, the best first. The report
    /// gives them with their share among all nodes, the trust score of
    /// each, and the means of their trust scores and of their clustering
    /// coefficients; a mean over no node is zero.
    pub fn find_k_representatives(&self, k: usize) -> (report: RepresentativeReport)
        requires
            self.wf(),
        ensures
            report.representatives@.len() == if k <= self@.dom().len() {
                k as nat
            } else {
                self@.dom().len()
            },
            forall|i: int|
                0 <= i < report.representatives@.len() ==> self@.contains_key(
                    #[trigger] report.representatives@[i],
                ),
            forall|i: int, j: int|
                0 <= i < j < report.representatives@.len() ==> outranks(
                    self@,
                    report.representatives@[i],
                    report.representatives@[j],
                ),
            forall|n: usize, i: int|
                self@.contains_key(n) && !report.representatives@.contains(n) && 0 <= i
                    < report.representatives@.len() ==> #[trigger] outranks(
                    self@,
                    report.representatives@[i],
                    n,
                ),
            report.representatives@.no_duplicates(),
            k >= self@.dom().len() ==> forall|n: usize|
                self@.contains_key(n) ==> report.representatives@.contains(n),
            report.total_nodes == self@.dom().len(),
            report.representative_ratio == percentage(
                report.representatives@.len() as int,
                self@.dom().len() as int,
            ),
            report.trust_scores@.len() == report.representatives@.len(),
            forall|i: int|
                0 <= i < report.trust_scores@.len() ==> #[trigger] report.trust_scores@[i]
                    == trust(self@, report.representatives@[i]),
            report.average_trust_score == mean(report.representatives@, trust_of(self@)),
            report.average_clustering == mean(report.representatives@, clustering_of(self@)),
    {
        let order = self.graph.nodes();
        let entries = self.score_entries(&order);
        let sorted = rank(&entries);
        proof {
            lemma_listing_len(order@, self@.dom());
            lemma_ranked_entries(self@, order@, entries@, sorted@);
        }
        let wanted = if k < sorted.len() {
            k
        } else {
            sorted.len()
        };
        let mut representatives: Vec<usize> = Vec::new();
        let mut trust_scores: Vec<i128> = Vec::new();
        let mut trust_sum: i128 = 0;
        let mut i: usize = 0;
        while i < wanted
            invariant
                i <= wanted <= sorted.len(),
                self.wf(),
                forall|t: int| 0 <= t < sorted@.len() ==> is_entry(self@, #[trigger] sorted@[t]),
                representatives@.len() == i,
                trust_scores@.len() == i,
                forall|t: int| 0 <= t < i ==> #[trigger] representatives@[t] == sorted@[t].node,
                forall|t: int| 0 <= t < i ==> #[trigger] trust_scores@[t] == sorted@[t].trust,
                trust_sum == total(representatives@, trust_of(self@)),
                i64::MIN * i <= trust_sum <= i64::MAX * i,
            decreases wanted - i,
        {
            let entry = sorted[i];
            proof {
                lemma_total_push(representatives@, entry.node, trust_of(self@));
            }
            representatives.push(entry.node);
            trust_scores.push(entry.trust);
            trust_sum = trust_sum + entry.trust;
            i += 1;
        }
        let average_trust_score = if representatives.len() == 0 {
            0
        } else {
            div_floor(trust_sum, representatives.len() as i128)
        };
        let average_clustering = mean_parts(
            &self.clustering_coefficients,
            &representatives,
            Ghost(clustering_of(self@)),
        ).0;
        let representative_ratio = percentage_of(representatives.len(), order.len());
        proof {
            assert forall|n: usize|
                self@.contains_key(n) && !representatives@.contains(n) implies exists|t: int|
                wanted <= t < sorted@.len() && (#[trigger] sorted@[t]).node == n by {
                let t = choose|t: int| 0 <= t < sorted@.len() && (#[trigger] sorted@[t]).node == n;
                if t < wanted {
                    assert(representatives@[t] == n);
                }
            }
            assert forall|n: usize, i: int|
                self@.contains_key(n) && !representatives@.contains(n) && 0 <= i
                    < representatives@.len() implies #[trigger] outranks(
                self@,
                representatives@[i],
                n,
            ) by {
                let t = choose|t: int|
                    wanted <= t < sorted@.len() && (#[trigger] sorted@[t]).node == n;
                assert(precedes(sorted@[i], sorted@[t]));
            }
            assert forall|i: int, j: int|
                0 <= i < j < representatives@.len() implies outranks(
                self@,
                representatives@[i],
                representatives@[j],
            ) by {
                assert(precedes(sorted@[i], sorted@[j]));
            }
            assert forall|i: int, j: int|
                0 <= i < representatives@.len() && 0 <= j < representatives@.len() && i
                    != j implies representatives@[i] != representatives@[j] by {
                if i < j {
                    assert(outranks(self@, representatives@[i], representatives@[j]));
                } else {
                    assert(outranks(self@, representatives@[j], representatives@[i]));
                }
            }
        }
        RepresentativeReport {
            representatives,
            total_nodes: order.len(),
            representative_ratio,
            trust_scores,
            average_trust_score,
            average_clustering,
        }
    }
}

/// The entries of the nodes of a graph, put in rank order: each holds a
/// node with its scores, an earlier one ranks before a later one, and
/// every node has its entry.
proof fn lemma_ranked_entries(
    g: Adjacency,
    order: Seq<usize>,
    entries: Seq<Ranked>,
    sorted: Seq<Ranked>,
)
    requires
        lists(order, g.dom()),
        entries.len() == order.len(),
        forall|i: int|
            0 <= i < entries.len() ==> (#[trigger] entries[i]).node == order[i] && is_entry(
                g,
                entries[i],
            ),
        in_rank_order(sorted),
        sorted.to_multiset() == entries.to_multiset(),
        sorted.len() == entries.len(),
    ensures
        forall|t: int| 0 <= t < sorted.len() ==> is_entry(g, #[trigger] sorted[t]),
        forall|i: int, j: int| 0 <= i < j < sorted.len() ==> precedes(sorted[i], sorted[j]),
        forall|n: usize|
            g.contains_key(n) ==> exists|t: int|
                0 <= t < sorted.len() && (#[trigger] sorted[t]).node == n,
{
    broadcast use vstd::seq_lib::to_multiset_contains;

    assert forall|t: int| 0 <= t < sorted.len() implies is_entry(g, #[trigger] sorted[t]) by {
        assert(sorted.to_multiset().count(sorted[t]) > 0);
    }
    entries.lemma_multiset_has_no_duplicates();
    sorted.lemma_multiset_has_no_duplicates_conv();
    assert forall|i: int, j: int| 0 <= i < j < sorted.len() implies precedes(
        sorted[i],
        sorted[j],
    ) by {
        assert(!precedes(sorted[j], sorted[i]));
    }
    assert forall|n: usize| g.contains_key(n) implies exists|t: int|
        0 <= t < sorted.len() && (#[trigger] sorted[t]).node == n by {
        let u = choose|u: int| 0 <= u < order.len() && order[u] == n;
        assert(entries.to_multiset().count(entries[u]) > 0);
    }
}

} // verus!
