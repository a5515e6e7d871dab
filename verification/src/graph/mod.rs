//! The graph store: an association from each node to its outgoing edges.

use std::collections::BTreeMap;
use std::collections::HashSet;
use vstd::prelude::*;

pub mod algorithm;
pub mod clustering;
pub mod connectivity;
pub mod order;

use crate::fixed::div_floor;
use crate::fixed::SCALE;
use algorithm::bfs;
use connectivity::adjacent;
use connectivity::closed;
use connectivity::component;
use connectivity::component_graph;
use connectivity::connected;
use connectivity::is_root;
use connectivity::lemma_closed_holds_component;
use connectivity::lemma_component_closed;
use connectivity::lemma_connected_symmetric;
use connectivity::lemma_reach_outside_closed;
use connectivity::lemma_roots_among_push;
use connectivity::roots;
use connectivity::roots_among;
use order::lemma_take_next;
use order::lists;
use order::sorted_keys;
use order::sorted_seq;

verus! {

broadcast use vstd::laws_cmp::group_laws_cmp;

/// A directed edge. Its weight is a fixed-point rating.
#[derive(Debug, Clone, Copy, PartialEq, Eq)]
pub struct Edge {
    /// The node that the edge leaves.
    pub from: usize,
    /// The node that the edge enters.
    pub to: usize,
    /// The rating that the source gives the target, in units of `1 / SCALE`.
    pub weight: i64,
}

/// The nodes around one node: the sources of its incoming edges and the
/// targets of its outgoing edges, one entry per edge.
#[derive(Debug, Clone)]
pub struct NodeNeighbors {
    /// The source of each incoming edge.
    pub input_nodes: Vec<usize>,
    /// The target of each outgoing edge.
    pub output_nodes: Vec<usize>,
}

/// A graph, keyed by node in ascending order; each node maps to its
/// outgoing edges in the order in which they were given.
#[derive(Debug, Clone)]
pub struct Graph {
    /// The outgoing edges of each node.
    pub content: BTreeMap<usize, Vec<Edge>>,
}

/// The model of a graph: each node with its outgoing edges.
pub type Adjacency = Map<usize, Seq<Edge>>;

impl View for Graph {
    type V = Adjacency;

    open spec fn view(&self) -> Adjacency {
        Map::new(|n: usize| self.content@.contains_key(n), |n: usize| self.content@[n]@)
    }
}

/// The edges among `edges` that leave `node`, in their order.
pub open spec fn leaving(edges: Seq<Edge>, node: usize) -> Seq<Edge> {
    edges.filter(|e: Edge| e.from == node)
}

/// Whether `node` is an endpoint of one of `edges`.
pub open spec fn mentions(edges: Seq<Edge>, node: usize) -> bool {
    exists|i: int|
        #![trigger edges[i]]
        0 <= i < edges.len() && (edges[i].from == node || edges[i].to == node)
}

/// The adjacency of an edge list: every endpoint is a key, and maps to the
/// edges that leave it.
pub open spec fn adjacency(edges: Seq<Edge>) -> Adjacency {
    Map::new(|n: usize| mentions(edges, n), |n: usize| leaving(edges, n))
}

/// Well-formedness of an adjacency: each edge is stored under its source,
/// and each target is a key.
pub open spec fn well_formed(m: Adjacency) -> bool {
    forall|n: usize, i: int|
        m.contains_key(n) && 0 <= i < m[n].len() ==> (#[trigger] m[n][i]).from == n
            && m.contains_key(m[n][i].to)
}

proof fn lemma_leaving_push(edges: Seq<Edge>, e: Edge, node: usize)
    ensures
        leaving(edges.push(e), node) == if e.from == node {
            leaving(edges, node).push(e)
        } else {
            leaving(edges, node)
        },
{
    edges.lemma_filter_push(e, |e: Edge| e.from == node);
}

proof fn lemma_leaving_unmentioned(edges: Seq<Edge>, node: usize)
    requires
        !mentions(edges, node),
    ensures
        leaving(edges, node) == Seq::<Edge>::empty(),
{
    let pred = |e: Edge| e.from == node;
    edges.lemma_all_neg_filter_empty(pred);
}

proof fn lemma_mentions_push(edges: Seq<Edge>, e: Edge, node: usize)
    ensures
        mentions(edges.push(e), node) <==> mentions(edges, node) || e.from == node || e.to == node,
{
    let next = edges.push(e);
    if mentions(edges, node) {
        let i = choose|i: int|
            #![trigger edges[i]]
            0 <= i < edges.len() && (edges[i].from == node || edges[i].to == node);
        assert(next[i] == edges[i]);
    }
    if e.from == node || e.to == node {
        assert(next[edges.len() as int] == e);
    }
    if mentions(next, node) {
        let i = choose|i: int|
            #![trigger next[i]]
            0 <= i < next.len() && (next[i].from == node || next[i].to == node);
    }
}

/// The adjacency of any edge list is well-formed.
pub proof fn lemma_adjacency_well_formed(edges: Seq<Edge>)
    ensures
        well_formed(adjacency(edges)),
{
    let m = adjacency(edges);
    assert forall|n: usize, i: int| m.contains_key(n) && 0 <= i < m[n].len() implies (
    #[trigger] m[n][i]).from == n && m.contains_key(m[n][i].to) by {
        let pred = |e: Edge| e.from == n;
        let kept = edges.filter(pred);
        edges.lemma_filter_contains_rev(pred, kept[i]);
    }
}


/// The edges among `edges` that enter `node`, in their order.
pub open spec fn entering(edges: Seq<Edge>, node: usize) -> Seq<Edge> {
    edges.filter(|e: Edge| e.to == node)
}

/// The source of each edge.
pub open spec fn sources(edges: Seq<Edge>) -> Seq<usize> {
    edges.map_values(|e: Edge| e.from)
}

/// The target of each edge.
pub open spec fn targets(edges: Seq<Edge>) -> Seq<usize> {
    edges.map_values(|e: Edge| e.to)
}

/// The sum of the weights of `edges`.
pub open spec fn total_weight(edges: Seq<Edge>) -> int
    decreases edges.len(),
{
    if edges.len() == 0 {
        0
    } else {
        total_weight(edges.drop_last()) + edges.last().weight
    }
}

/// The mean weight of `edges`, rounded down; zero where there is none.
pub open spec fn mean_weight(edges: Seq<Edge>) -> int {
    if edges.len() == 0 {
        0
    } else {
        total_weight(edges) / (edges.len() as int)
    }
}

proof fn lemma_entering_push(edges: Seq<Edge>, e: Edge, node: usize)
    ensures
        entering(edges.push(e), node) == if e.to == node {
            entering(edges, node).push(e)
        } else {
            entering(edges, node)
        },
{
    edges.lemma_filter_push(e, |e: Edge| e.to == node);
}

/// A mean weight lies among the weights that an edge can have.
pub proof fn lemma_mean_weight_bounds(edges: Seq<Edge>)
    ensures
        i64::MIN <= mean_weight(edges) <= i64::MAX,
{
    lemma_total_weight_bounds(edges);
    if edges.len() > 0 {
        let total = total_weight(edges);
        let count = edges.len() as int;
        vstd::arithmetic::div_mod::lemma_fundamental_div_mod(total, count);
        assert(-0x8000_0000_0000_0000 <= total / count <= 0x7fff_ffff_ffff_ffff)
            by (nonlinear_arith)
            requires
                total == count * (total / count) + total % count,
                0 <= total % count < count,
                -0x8000_0000_0000_0000 * count <= total <= 0x7fff_ffff_ffff_ffff * count,
                count > 0,
        ;
    }
}

proof fn lemma_total_weight_bounds(edges: Seq<Edge>)
    ensures
        -0x8000_0000_0000_0000 * edges.len() <= total_weight(edges) <= 0x7fff_ffff_ffff_ffff
            * edges.len(),
    decreases edges.len(),
{
    if edges.len() > 0 {
        lemma_total_weight_bounds(edges.drop_last());
    }
}

/// The part of a well-formed graph on a closed set of nodes is well-formed.
proof fn lemma_restrict_well_formed(graph: &Graph, members: Set<usize>)
    requires
        graph.wf(),
        closed(graph@, members),
    ensures
        well_formed(graph@.restrict(members)),
{
    let part = graph@.restrict(members);
    assert forall|n: usize, i: int| part.contains_key(n) && 0 <= i < part[n].len() implies (
    #[trigger] part[n][i]).from == n && part.contains_key(part[n][i].to) by {
        let target = graph@[n][i].to;
        assert(out_edges(graph@, n)[i].to == target);
        assert(adjacent(graph@, n, target));
    }
}

/// The nodes in ascending order.
pub open spec fn node_seq(g: Adjacency) -> Seq<usize> {
    sorted_seq(g.dom())
}

/// The outgoing edges of `node`; none where it is no node of the graph.
pub open spec fn out_edges(g: Adjacency, node: usize) -> Seq<Edge> {
    if g.contains_key(node) {
        g[node]
    } else {
        Seq::empty()
    }
}

/// The outgoing edge lists, node by node in ascending order.
pub open spec fn rows(g: Adjacency) -> Seq<Seq<Edge>> {
    node_seq(g).map_values(|n: usize| out_edges(g, n))
}

/// Every edge of the graph, ordered by the node that holds it and then
/// by its place among that node's edges.
pub open spec fn edge_seq(g: Adjacency) -> Seq<Edge> {
    rows(g).flatten()
}

/// The edges that enter `node`, in the order of `edge_seq`.
pub open spec fn in_edges(g: Adjacency, node: usize) -> Seq<Edge> {
    entering(edge_seq(g), node)
}

impl Graph {
    /// Well-formedness: each edge is stored under its source, and every
    /// endpoint of an edge is a key.
    pub open spec fn wf(&self) -> bool {
        well_formed(self@)
    }

    /// Builds the graph of an edge list. Every endpoint becomes a node; a
    /// node keeps its outgoing edges in the order of the list.
    pub fn new(edge_lst: &Vec<Edge>) -> (graph: Graph)
        ensures
            graph@ == adjacency(edge_lst@),
            graph.wf(),
            forall|i: int|
                0 <= i < edge_lst@.len() ==> graph@.contains_key((#[trigger] edge_lst@[i]).from)
                    && graph@.contains_key(edge_lst@[i].to),
    {
        let mut content: BTreeMap<usize, Vec<Edge>> = BTreeMap::new();
        let mut idx: usize = 0;
        while idx < edge_lst.len()
            invariant
                0 <= idx <= edge_lst.len(),
                (Graph { content })@ == adjacency(edge_lst@.take(idx as int)),
            decreases edge_lst.len() - idx,
        {
            let edge = edge_lst[idx];
            let ghost seen = edge_lst@.take(idx as int);
            let ghost next = edge_lst@.take(idx as int + 1);
            let ghost before = (Graph { content })@;
            proof {
                assert(next =~= seen.push(edge));
                if !mentions(seen, edge.from) {
                    lemma_leaving_unmentioned(seen, edge.from);
                }
            }
            let mut outgoing = match content.remove(&edge.from) {
                Some(list) => list,
                None => Vec::new(),
            };
            proof {
                if before.contains_key(edge.from) {
                    assert(outgoing@ == before[edge.from]);
                }
            }
            outgoing.push(edge);
            content.insert(edge.from, outgoing);
            if !content.contains_key(&edge.to) {
                content.insert(edge.to, Vec::new());
            }
            proof {
                let after = (Graph { content })@;
                assert forall|n: usize| after.contains_key(n) == mentions(next, n) by {
                    lemma_mentions_push(seen, edge, n);
                    assert(before.contains_key(n) == mentions(seen, n));
                }
                assert forall|n: usize| after.contains_key(n) implies after[n] == leaving(
                    next,
                    n,
                ) by {
                    lemma_leaving_push(seen, edge, n);
                    if n != edge.from {
                        if before.contains_key(n) {
                            assert(before[n] == leaving(seen, n));
                        } else {
                            lemma_leaving_unmentioned(seen, n);
                        }
                    }
                }
            }
            idx += 1;
        }
        proof {
            assert(edge_lst@.take(idx as int) =~= edge_lst@);
            lemma_adjacency_well_formed(edge_lst@);
        }
        Graph { content }
    }

    /// Whether the graph is well-formed.
    pub fn is_well_formed(&self) -> (ok: bool)
        ensures
            ok == self.wf(),
    {
        let order = self.nodes();
        let mut i: usize = 0;
        while i < order.len()
            invariant
                i <= order.len(),
                lists(order@, self@.dom()),
                forall|k: int, t: int|
                    0 <= k < i && 0 <= t < self@[order@[k]].len() ==> (
                    #[trigger] self@[order@[k]][t]).from == order@[k] && self@.contains_key(
                        self@[order@[k]][t].to,
                    ),
            decreases order.len() - i,
        {
            let key = order[i];
            assert(order@.contains(key));
            match self.content.get(&key) {
                Some(list) => {
                    let mut j: usize = 0;
                    while j < list.len()
                        invariant
                            j <= list.len(),
                            self@.contains_key(key),
                            list@ == self@[key],
                            forall|t: int|
                                0 <= t < j ==> (#[trigger] list@[t]).from == key
                                    && self@.contains_key(list@[t].to),
                        decreases list.len() - j,
                    {
                        if list[j].from != key || !self.content.contains_key(&list[j].to) {
                            return false;
                        }
                        j += 1;
                    }
                },
                None => {},
            }
            i += 1;
        }
        true
    }

    /// The nodes of the graph in ascending order.
    pub fn nodes(&self) -> (order: Vec<usize>)
        ensures
            order@ == node_seq(self@),
            lists(order@, self@.dom()),
    {
        let order = sorted_keys(&self.content);
        proof {
            assert(self@.dom() =~= self.content@.dom());
        }
        order
    }

    /// The edges that enter `node`, ordered by source and then by their
    /// place among the source's edges.
    pub fn incoming(&self, node: usize) -> (edges: Vec<Edge>)
        ensures
            edges@ == in_edges(self@, node),
    {
        let order = self.nodes();
        let mut found: Vec<Edge> = Vec::new();
        let mut i: usize = 0;
        while i < order.len()
            invariant
                order@ == node_seq(self@),
                i <= order.len(),
                found@ == entering(rows(self@).take(i as int).flatten(), node),
            decreases order.len() - i,
        {
            let key = order[i];
            let ghost before = rows(self@).take(i as int).flatten();
            let ghost row = rows(self@)[i as int];
            match self.content.get(&key) {
                Some(list) => {
                    let mut j: usize = 0;
                    while j < list.len()
                        invariant
                            j <= list.len(),
                            found@ == entering(before + list@.take(j as int), node),
                        decreases list.len() - j,
                    {
                        let edge = list[j];
                        proof {
                            assert(before + list@.take(j as int + 1) =~= (before + list@.take(
                                j as int,
                            )).push(edge));
                            lemma_entering_push(before + list@.take(j as int), edge, node);
                        }
                        if edge.to == node {
                            found.push(edge);
                        }
                        j += 1;
                    }
                    assert(list@.take(j as int) =~= list@);
                },
                None => {},
            }
            proof {
                assert(rows(self@).take(i as int + 1) =~= rows(self@).take(i as int).push(row));
                rows(self@).take(i as int).lemma_flatten_push(row);
            }
            i += 1;
        }
        assert(rows(self@).take(i as int) =~= rows(self@));
        found
    }

    /// The neighbours of `node`: the source of each edge that enters it and
    /// the target of each edge that leaves it. A node that the graph does
    /// not hold has none.
    pub fn get_neighbors(&self, node: usize) -> (neighbors: NodeNeighbors)
        ensures
            neighbors.input_nodes@ == sources(in_edges(self@, node)),
            neighbors.output_nodes@ == targets(out_edges(self@, node)),
    {
        let mut input_nodes: Vec<usize> = Vec::new();
        let mut output_nodes: Vec<usize> = Vec::new();
        match self.content.get(&node) {
            Some(list) => {
                let mut j: usize = 0;
                while j < list.len()
                    invariant
                        j <= list.len(),
                        list@ == out_edges(self@, node),
                        output_nodes@ == targets(list@.take(j as int)),
                    decreases list.len() - j,
                {
                    output_nodes.push(list[j].to);
                    j += 1;
                }
            },
            None => {},
        }
        let entering = self.incoming(node);
        let mut j: usize = 0;
        while j < entering.len()
            invariant
                j <= entering.len(),
                input_nodes@ == sources(entering@.take(j as int)),
            decreases entering.len() - j,
        {
            input_nodes.push(entering[j].from);
            j += 1;
        }
        NodeNeighbors { input_nodes, output_nodes }
    }

    /// The indegree and the outdegree of every node, as fixed-point
    /// numbers: the count of the edges that enter it, and of those that
    /// leave it.
    pub fn get_degrees(&self) -> (degrees: (BTreeMap<usize, i128>, BTreeMap<usize, i128>))
        ensures
            degrees.0@.dom() == self@.dom(),
            degrees.1@.dom() == self@.dom(),
            forall|n: usize| #[trigger]
                self@.contains_key(n) ==> degrees.0@[n] == in_edges(self@, n).len() * SCALE,
            forall|n: usize| #[trigger]
                self@.contains_key(n) ==> degrees.1@[n] == out_edges(self@, n).len() * SCALE,
            forall|n: usize| #[trigger]
                self@.contains_key(n) ==> 0 <= degrees.0@[n] && 0 <= degrees.1@[n],
            forall|n: usize| #[trigger]
                self@.contains_key(n) ==> in_edges(self@, n).len() <= usize::MAX
                    && out_edges(self@, n).len() <= usize::MAX,
    {
        let order = self.nodes();
        let mut in_degree: BTreeMap<usize, i128> = BTreeMap::new();
        let mut out_degree: BTreeMap<usize, i128> = BTreeMap::new();
        let mut i: usize = 0;
        while i < order.len()
            invariant
                i <= order.len(),
                lists(order@, self@.dom()),
                forall|n: usize|
                    #![trigger in_degree@.contains_key(n)]
                    in_degree@.contains_key(n) <==> order@.take(i as int).contains(n),
                forall|n: usize|
                    #![trigger out_degree@.contains_key(n)]
                    out_degree@.contains_key(n) <==> order@.take(i as int).contains(n),
                forall|n: usize| #[trigger]
                    in_degree@.contains_key(n) ==> in_degree@[n] == in_edges(self@, n).len()
                        * SCALE,
                forall|n: usize| #[trigger]
                    out_degree@.contains_key(n) ==> out_degree@[n] == out_edges(self@, n).len()
                        * SCALE,
                forall|n: usize| #[trigger]
                    out_degree@.contains_key(n) ==> in_edges(self@, n).len() <= usize::MAX
                        && out_edges(self@, n).len() <= usize::MAX,
            decreases order.len() - i,
        {
            let node = order[i];
            let neighbors = self.get_neighbors(node);
            let incoming: i128 = neighbors.input_nodes.len() as i128;
            let outgoing: i128 = neighbors.output_nodes.len() as i128;
            in_degree.insert(node, incoming * SCALE);
            out_degree.insert(node, outgoing * SCALE);
            proof {
                lemma_take_next(order@, i as int);
            }
            i += 1;
        }
        proof {
            assert(order@.take(i as int) =~= order@);
        }
        (in_degree, out_degree)
    }

    /// A copy of the part of the graph on `members`: each node among them,
    /// with its outgoing edges.
    fn induced(&self, order: &Vec<usize>, members: &HashSet<usize>) -> (part: Graph)
        requires
            lists(order@, self@.dom()),
        ensures
            part@ == self@.restrict(members@),
    {
        let mut content: BTreeMap<usize, Vec<Edge>> = BTreeMap::new();
        let mut i: usize = 0;
        while i < order.len()
            invariant
                i <= order.len(),
                lists(order@, self@.dom()),
                forall|n: usize|
                    #![trigger content@.contains_key(n)]
                    content@.contains_key(n) <==> members@.contains(n) && order@.take(
                        i as int,
                    ).contains(n),
                forall|n: usize| #[trigger]
                    content@.contains_key(n) ==> self@.contains_key(n) && content@[n]@
                        == self@[n],
            decreases order.len() - i,
        {
            let node = order[i];
            let ghost before = content@;
            proof {
                lemma_take_next(order@, i as int);
                assert(order@.contains(node));
            }
            if members.contains(&node) {
                match self.content.get(&node) {
                    Some(list) => {
                        let mut copy: Vec<Edge> = Vec::new();
                        let mut j: usize = 0;
                        while j < list.len()
                            invariant
                                j <= list.len(),
                                copy@ == list@.take(j as int),
                            decreases list.len() - j,
                        {
                            copy.push(list[j]);
                            j += 1;
                        }
                        assert(list@.take(j as int) =~= list@);
                        content.insert(node, copy);
                    },
                    None => {
                        assert(false);
                    },
                }
            }
            proof {
                let seen = order@.take(i as int);
                let next = order@.take(i as int + 1);
                assert forall|n: usize| #[trigger]
                    content@.contains_key(n) <==> members@.contains(n) && next.contains(n) by {
                    assert(next.contains(n) <==> seen.contains(n) || n == node);
                    assert(before.contains_key(n) <==> members@.contains(n) && seen.contains(n));
                }
            }
            i += 1;
        }
        proof {
            assert(order@.take(i as int) =~= order@);
            assert((Graph { content })@ =~= self@.restrict(members@));
        }
        Graph { content }
    }

    /// The connected components, each as a graph of its own: for each
    /// component, in ascending order of its least node, the nodes of the
    /// component with their outgoing edges. Edges join nodes in both
    /// directions.
    pub fn find_subgraphs(&self) -> (subgraphs: Vec<Graph>)
        requires
            self.wf(),
        ensures
            subgraphs@.len() == roots(self@).len(),
            forall|i: int|
                0 <= i < subgraphs@.len() ==> (#[trigger] subgraphs@[i])@
                    == component_graph(self@, roots(self@)[i]),
            forall|i: int| 0 <= i < subgraphs@.len() ==> (#[trigger] subgraphs@[i]).wf(),
    {
        let order = self.nodes();
        let mut visited: HashSet<usize> = HashSet::new();
        let mut subgraphs: Vec<Graph> = Vec::new();
        let mut i: usize = 0;
        while i < order.len()
            invariant
                i <= order.len(),
                self.wf(),
                order@ == node_seq(self@),
                lists(order@, self@.dom()),
                closed(self@, visited@),
                forall|n: usize|
                    visited@.contains(n) <==> exists|k: int|
                        0 <= k < i && #[trigger] connected(self@, order@[k], n),
                subgraphs@.len() == roots_among(self@, order@.take(i as int)).len(),
                forall|j: int|
                    0 <= j < subgraphs@.len() ==> (#[trigger] subgraphs@[j])@
                        == component_graph(self@, roots_among(self@, order@.take(i as int))[j]),
                forall|j: int| 0 <= j < subgraphs@.len() ==> (#[trigger] subgraphs@[j]).wf(),
            decreases order.len() - i,
        {
            let node = order[i];
            let ghost before = visited@;
            let ghost seen = order@.take(i as int);
            proof {
                assert(order@.take(i as int + 1) =~= seen.push(node));
                lemma_roots_among_push(self@, seen, node);
                lemma_component_closed(self@, node);
            }
            if !visited.contains(&node) {
                let members = bfs(self, node, &mut visited);
                proof {
                    lemma_reach_outside_closed(self@, before, node);
                    assert(is_root(self@, node)) by {
                        assert forall|b: usize| #[trigger] connected(self@, node, b) implies node
                            <= b by {
                            if b < node {
                                lemma_connected_symmetric(self@, node, b);
                            }
                        }
                    }
                }
                let part = self.induced(&order, &members);
                proof {
                    lemma_restrict_well_formed(self, members@);
                }
                subgraphs.push(part);
            } else {
                proof {
                    let k = choose|k: int|
                        0 <= k < i && #[trigger] connected(self@, order@[k], node);
                    lemma_connected_symmetric(self@, order@[k], node);
                    lemma_closed_holds_component(self@, before, node);
                }
            }
            proof {
                assert forall|n: usize| visited@.contains(n) <==> exists|k: int|
                    0 <= k < i + 1 && #[trigger] connected(self@, order@[k], n) by {
                    if visited@.contains(n) && !before.contains(n) {
                        assert(connected(self@, order@[i as int], n));
                    }
                }
            }
            i += 1;
        }
        proof {
            assert(order@.take(i as int) =~= order@);
        }
        subgraphs
    }

    /// The trust score of `node`: the mean weight of the edges that enter
    /// it, rounded down; zero where none does.
    pub fn get_trust_score(&self, node: usize) -> (score: i128)
        ensures
            score == mean_weight(in_edges(self@, node)),
            in_edges(self@, node).len() == 0 ==> score == 0,
            i64::MIN <= score <= i64::MAX,
    {
        let entering = self.incoming(node);
        let mut total: i128 = 0;
        let mut j: usize = 0;
        while j < entering.len()
            invariant
                j <= entering.len(),
                total == total_weight(entering@.take(j as int)),
            decreases entering.len() - j,
        {
            proof {
                assert(entering@.take(j as int + 1).drop_last() =~= entering@.take(j as int));
                lemma_total_weight_bounds(entering@.take(j as int));
            }
            total = total + entering[j].weight as i128;
            j += 1;
        }
        assert(entering@.take(j as int) =~= entering@);
        proof {
            lemma_mean_weight_bounds(entering@);
        }
        if entering.len() == 0 {
            0
        } else {
            div_floor(total, entering.len() as i128)
        }
    }
}

} // verus!
