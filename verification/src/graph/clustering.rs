//! The clustering coefficient of a node.

use super::connectivity::lemma_filter_ascending;
use super::order::lemma_sorted_seq;
use super::order::lists;
use super::sources;
use super::targets;
use super::well_formed;
use super::edge_seq;
use super::in_edges;
use super::node_seq;
use super::out_edges;
use super::rows;
use super::Adjacency;
use super::Edge;
use super::Graph;
use crate::fixed::pair_density;
use crate::fixed::SCALE;
use std::collections::HashSet;
use vstd::prelude::*;

verus! {

broadcast use vstd::laws_cmp::group_laws_cmp;

/// The edges among `edges` that both leave and enter a node of `s`.
pub open spec fn within(edges: Seq<Edge>, s: Set<usize>) -> Seq<Edge> {
    edges.filter(|e: Edge| s.contains(e.from) && s.contains(e.to))
}

proof fn lemma_within_push(edges: Seq<Edge>, e: Edge, s: Set<usize>)
    ensures
        within(edges.push(e), s) == if s.contains(e.from) && s.contains(e.to) {
            within(edges, s).push(e)
        } else {
            within(edges, s)
        },
{
    edges.lemma_filter_push(e, |e: Edge| s.contains(e.from) && s.contains(e.to));
}

proof fn lemma_within_outside(edges: Seq<Edge>, row: Seq<Edge>, s: Set<usize>)
    requires
        forall|i: int| 0 <= i < row.len() ==> !s.contains((#[trigger] row[i]).from),
    ensures
        within(edges + row, s) == within(edges, s),
{
    let pred = |e: Edge| s.contains(e.from) && s.contains(e.to);
    row.lemma_all_neg_filter_empty(pred);
}

/// The distinct neighbours of `node`: the sources of the edges that
/// enter it and the targets of the edges that leave it.
pub open spec fn neighbor_set(g: Adjacency, node: usize) -> Set<usize> {
    sources(in_edges(g, node)).to_set().union(targets(out_edges(g, node)).to_set())
}

/// The edges of the graph that join two nodes of `s`.
pub open spec fn links_within(g: Adjacency, s: Set<usize>) -> Seq<Edge> {
    within(edge_seq(g), s)
}

/// The clustering coefficient of `node` as a fixed-point number: the
/// number of edges between its distinct neighbours, divided by the
/// number of ordered pairs of them and rounded down; zero where it has
/// fewer than two.
pub open spec fn clustering(g: Adjacency, node: usize) -> int {
    let around = neighbor_set(g, node);
    if around.len() < 2 {
        0
    } else {
        links_within(g, around).len() * SCALE / ((around.len() * (around.len() - 1)) as int)
    }
}

/// Whether the edges of `g` between nodes of `s` are simple: none leads
/// from a node to itself, and no two lead from one node to one node.
pub open spec fn simple_within(g: Adjacency, s: Set<usize>) -> bool {
    &&& forall|n: usize, i: int|
        g.contains_key(n) && s.contains(n) && 0 <= i < g[n].len() ==> (#[trigger] g[n][i]).to != n
    &&& forall|n: usize, i: int, j: int|
        g.contains_key(n) && s.contains(n) && 0 <= i < j < g[n].len() && s.contains(
            (#[trigger] g[n][i]).to,
        ) ==> g[n][i].to != (#[trigger] g[n][j]).to
}

proof fn lemma_row_links(g: Adjacency, s: Set<usize>, m: usize, upto: int)
    requires
        well_formed(g),
        simple_within(g, s),
        g.contains_key(m),
        s.contains(m),
        0 <= upto <= g[m].len(),
    ensures
        targets(within(g[m].take(upto), s)).no_duplicates(),
        forall|t: int|
            0 <= t < within(g[m].take(upto), s).len() ==> {
                let to = (#[trigger] within(g[m].take(upto), s)[t]).to;
                &&& s.contains(to)
                &&& to != m
                &&& exists|i: int| 0 <= i < upto && (#[trigger] g[m][i]).to == to
            },
    decreases upto,
{
    if upto > 0 {
        lemma_row_links(g, s, m, upto - 1);
        let before = g[m].take(upto - 1);
        let edge = g[m][upto - 1];
        assert(g[m].take(upto) =~= before.push(edge));
        lemma_within_push(before, edge, s);
        let kept = within(before, s);
        let next = within(g[m].take(upto), s);
        if s.contains(edge.from) && s.contains(edge.to) {
            assert forall|a: int, b: int|
                0 <= a < targets(next).len() && 0 <= b < targets(next).len() && a
                    != b implies targets(next)[a] != targets(next)[b] by {
                if a < kept.len() && b < kept.len() {
                    assert(targets(kept)[a] != targets(kept)[b]);
                }
            }
        }
    }
}

proof fn lemma_row_bound(g: Adjacency, s: Set<usize>, m: usize)
    requires
        well_formed(g),
        simple_within(g, s),
        s.finite(),
        g.contains_key(m),
        s.contains(m),
    ensures
        within(g[m], s).len() + 1 <= s.len(),
{
    lemma_row_links(g, s, m, g[m].len() as int);
    assert(g[m].take(g[m].len() as int) =~= g[m]);
    let ends = targets(within(g[m], s));
    ends.unique_seq_to_set();
    vstd::set_lib::lemma_len_subset(ends.to_set(), s.remove(m));
}

proof fn lemma_links_bound(g: Adjacency, s: Set<usize>, upto: int)
    requires
        well_formed(g),
        simple_within(g, s),
        s.finite(),
        s.len() >= 1,
        lists(node_seq(g), g.dom()),
        0 <= upto <= node_seq(g).len(),
    ensures
        within(rows(g).take(upto).flatten(), s).len() <= node_seq(g).take(upto).filter(
            |n: usize| s.contains(n),
        ).len() * (s.len() - 1),
    decreases upto,
{
    let inside = |n: usize| s.contains(n);
    if upto > 0 {
        lemma_links_bound(g, s, upto - 1);
        let key = node_seq(g)[upto - 1];
        let row = rows(g)[upto - 1];
        let before = rows(g).take(upto - 1).flatten();
        assert(rows(g).take(upto) =~= rows(g).take(upto - 1).push(row));
        rows(g).take(upto - 1).lemma_flatten_push(row);
        assert(node_seq(g).take(upto) =~= node_seq(g).take(upto - 1).push(key));
        node_seq(g).take(upto - 1).lemma_filter_push(key, inside);
        let seen = node_seq(g).take(upto - 1).filter(inside).len();
        let width = s.len() - 1;
        if s.contains(key) {
            lemma_row_bound(g, s, key);
            Seq::filter_distributes_over_add(
                before,
                row,
                |e: Edge| s.contains(e.from) && s.contains(e.to),
            );
            assert(within(before + row, s).len() <= (seen + 1) * width) by (nonlinear_arith)
                requires
                    within(before + row, s).len() == within(before, s).len() + within(
                        row,
                        s,
                    ).len(),
                    within(before, s).len() <= seen * width,
                    within(row, s).len() <= width,
            ;
        } else {
            lemma_within_outside(before, row, s);
        }
    }
}

/// The number of edges between the nodes of a finite set `s` is at most
/// the number of ordered pairs of them, where those edges are simple.
pub proof fn lemma_links_at_most_pairs(g: Adjacency, s: Set<usize>)
    requires
        well_formed(g),
        simple_within(g, s),
        g.dom().finite(),
        s.finite(),
        s.len() >= 1,
    ensures
        links_within(g, s).len() <= s.len() * (s.len() - 1),
{
    lemma_sorted_seq(g.dom());
    let order = node_seq(g);
    let inside = |n: usize| s.contains(n);
    lemma_links_bound(g, s, order.len() as int);
    assert(order.take(order.len() as int) =~= order);
    assert(rows(g).take(order.len() as int) =~= rows(g));
    lemma_filter_ascending(order, inside);
    let members = order.filter(inside);
    members.unique_seq_to_set();
    vstd::set_lib::lemma_len_subset(members.to_set(), s);
    assert(members.len() * (s.len() - 1) <= s.len() * (s.len() - 1)) by (nonlinear_arith)
        requires
            members.len() <= s.len(),
            s.len() >= 1,
    ;
}

/// The clustering coefficient of a node lies between zero and one where
/// the edges between its distinct neighbours number at most the ordered
/// pairs of them, and for every node with fewer than two neighbours.
pub proof fn lemma_clustering_in_unit_range(graph: &Graph, node: usize)
    requires
        neighbor_set(graph@, node).len() >= 2 ==> links_within(
            graph@,
            neighbor_set(graph@, node),
        ).len() <= neighbor_set(graph@, node).len() * (neighbor_set(graph@, node).len() - 1),
    ensures
        0 <= clustering(graph@, node) <= SCALE,
{
    let around = neighbor_set(graph@, node);
    if around.len() >= 2 {
        let links = links_within(graph@, around).len() as int;
        let pairs = (around.len() * (around.len() - 1)) as int;
        assert(pairs > 0) by (nonlinear_arith)
            requires
                pairs == around.len() * (around.len() - 1),
                around.len() >= 2,
        ;
        assert(0 <= links * SCALE <= SCALE * pairs) by (nonlinear_arith)
            requires
                0 <= links <= pairs,
                SCALE == 1_000_000,
        ;
        vstd::arithmetic::div_mod::lemma_div_is_ordered(0, links * SCALE, pairs);
        vstd::arithmetic::div_mod::lemma_div_is_ordered(links * SCALE, SCALE * pairs, pairs);
        vstd::arithmetic::div_mod::lemma_div_multiples_vanish(SCALE as int, pairs);
        assert(SCALE * pairs == pairs * SCALE) by (nonlinear_arith);
    }
}

/// The clustering coefficient of a node of a well-formed graph lies
/// between zero and one where the edges between its neighbours are simple.
pub proof fn lemma_clustering_of_simple_edges(graph: &Graph, node: usize)
    requires
        graph.wf(),
        simple_within(graph@, neighbor_set(graph@, node)),
    ensures
        0 <= clustering(graph@, node) <= SCALE,
{
    let g = graph@;
    assert(g.dom() =~= graph.content@.dom());
    let around = neighbor_set(g, node);
    vstd::seq_lib::seq_to_set_is_finite(sources(in_edges(g, node)));
    vstd::seq_lib::seq_to_set_is_finite(targets(out_edges(g, node)));
    if around.len() >= 2 {
        lemma_links_at_most_pairs(g, around);
    }
    lemma_clustering_in_unit_range(graph, node);
}

impl Graph {
    /// The distinct neighbours of `node`.
    fn neighbor_nodes(&self, node: usize) -> (around: HashSet<usize>)
        ensures
            around@ == neighbor_set(self@, node),
            around@.finite(),
    {
        let neighbors = self.get_neighbors(node);
        let mut around: HashSet<usize> = HashSet::new();
        let mut j: usize = 0;
        while j < neighbors.output_nodes.len()
            invariant
                j <= neighbors.output_nodes.len(),
                around@ == neighbors.output_nodes@.take(j as int).to_set(),
            decreases neighbors.output_nodes.len() - j,
        {
            proof {
                let seen = neighbors.output_nodes@.take(j as int);
                assert(neighbors.output_nodes@.take(j as int + 1) =~= seen.push(
                    neighbors.output_nodes@[j as int],
                ));
                seen.lemma_push_to_set_commute(neighbors.output_nodes@[j as int]);
            }
            around.insert(neighbors.output_nodes[j]);
            j += 1;
        }
        assert(neighbors.output_nodes@.take(j as int) =~= neighbors.output_nodes@);
        let ghost leaving = around@;
        let mut j: usize = 0;
        while j < neighbors.input_nodes.len()
            invariant
                j <= neighbors.input_nodes.len(),
                around@ == leaving.union(neighbors.input_nodes@.take(j as int).to_set()),
            decreases neighbors.input_nodes.len() - j,
        {
            proof {
                let seen = neighbors.input_nodes@.take(j as int);
                assert(neighbors.input_nodes@.take(j as int + 1) =~= seen.push(
                    neighbors.input_nodes@[j as int],
                ));
                seen.lemma_push_to_set_commute(neighbors.input_nodes@[j as int]);
            }
            around.insert(neighbors.input_nodes[j]);
            j += 1;
        }
        proof {
            assert(neighbors.input_nodes@.take(j as int) =~= neighbors.input_nodes@);
        }
        around
    }

    /// The number of edges that join two nodes of `around`.
    fn count_links(&self, around: &HashSet<usize>) -> (count: u128)
        requires
            self.wf(),
            around@.finite(),
        ensures
            count == links_within(self@, around@).len(),
            count <= around@.len() * usize::MAX,
    {
        let order = self.nodes();
        let mut count: u128 = 0;
        let ghost mut hit: Set<usize> = Set::empty();
        let mut i: usize = 0;
        while i < order.len()
            invariant
                i <= order.len(),
                self.wf(),
                order@ == node_seq(self@),
                lists(order@, self@.dom()),
                order@.no_duplicates(),
                around@.finite(),
                hit.finite(),
                hit.subset_of(around@),
                forall|n: usize| hit.contains(n) ==> order@.take(i as int).contains(n),
                count == within(rows(self@).take(i as int).flatten(), around@).len(),
                count <= hit.len() * usize::MAX,
            decreases order.len() - i,
        {
            let key = order[i];
            let ghost before = rows(self@).take(i as int).flatten();
            let ghost row = rows(self@)[i as int];
            proof {
                assert(rows(self@).take(i as int + 1) =~= rows(self@).take(i as int).push(row));
                rows(self@).take(i as int).lemma_flatten_push(row);
            }
            if around.contains(&key) {
                proof {
                    assert(around@.len() <= usize::MAX) by {
                        assert(around.len() == around@.len());
                    }
                    assert(hit.len() < around@.len()) by {
                        vstd::set_lib::lemma_len_subset(hit.insert(key), around@);
                    }
                }
                match self.content.get(&key) {
                    Some(list) => {
                        let mut j: usize = 0;
                        while j < list.len()
                            invariant
                                j <= list.len(),
                                list@ == row,
                                hit.len() < around@.len(),
                                around@.len() <= usize::MAX,
                                count == within(before + list@.take(j as int), around@).len(),
                                count <= hit.len() * usize::MAX + j,
                            decreases list.len() - j,
                        {
                            let edge = list[j];
                            proof {
                                assert(before + list@.take(j as int + 1) =~= (before + list@.take(
                                    j as int,
                                )).push(edge));
                                lemma_within_push(before + list@.take(j as int), edge, around@);
                                assert(hit.len() * usize::MAX + j < usize::MAX * usize::MAX)
                                    by (nonlinear_arith)
                                    requires
                                        hit.len() < around@.len(),
                                        around@.len() <= usize::MAX,
                                        j < usize::MAX,
                                ;
                            }
                            if around.contains(&edge.from) && around.contains(&edge.to) {
                                count = count + 1;
                            }
                            j += 1;
                        }
                        assert(list@.take(j as int) =~= list@);
                    },
                    None => {},
                }
                proof {
                    assert(count <= (hit.len() + 1) * usize::MAX) by (nonlinear_arith)
                        requires
                            count <= hit.len() * usize::MAX + row.len(),
                            row.len() <= usize::MAX,
                    ;
                    assert(order@.take(i as int + 1)[i as int] == key);
                    hit = hit.insert(key);
                }
            } else {
                proof {
                    lemma_within_outside(before, row, around@);
                }
            }
            i += 1;
        }
        proof {
            assert(rows(self@).take(i as int) =~= rows(self@));
            vstd::set_lib::lemma_len_subset(hit, around@);
            assert(hit.len() * usize::MAX <= around@.len() * usize::MAX) by (nonlinear_arith)
                requires
                    hit.len() <= around@.len(),
            ;
        }
        count
    }

    /// The clustering coefficient of `node`: the share of the ordered pairs
    /// of its distinct neighbours that an edge joins, each edge counted. A
    /// node with fewer than two distinct neighbours has coefficient zero.
    pub fn clustering_coefficient(&self, node: usize) -> (coefficient: i128)
        requires
            self.wf(),
        ensures
            coefficient == clustering(self@, node),
            0 <= coefficient <= SCALE * usize::MAX,
            neighbor_set(self@, node).len() < 2 ==> coefficient == 0,
    {
        let around = self.neighbor_nodes(node);
        let num_nb = around.len();
        if num_nb < 2 {
            return 0;
        }
        let links = self.count_links(&around);
        pair_density(links, num_nb)
    }
}

} // verus!
