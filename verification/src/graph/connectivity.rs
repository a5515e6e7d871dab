//! Walks, reachability and connected components. Edges are followed in
//! either direction.

use super::node_seq;
use super::order::ascending;
use super::order::lemma_sorted_seq;
use super::out_edges;
use super::well_formed;
use super::Adjacency;
use super::Graph;
use vstd::prelude::*;

verus! {

/// Whether no node of `path` after its first lies in `avoid`.
pub open spec fn avoids(path: Seq<usize>, avoid: Set<usize>) -> bool {
    forall|i: int| 1 <= i < path.len() ==> !avoid.contains(#[trigger] path[i])
}

/// Whether an edge leads from `a` to `b`.
pub open spec fn has_edge(g: Adjacency, a: usize, b: usize) -> bool {
    exists|i: int|
        #![trigger out_edges(g, a)[i]]
        0 <= i < out_edges(g, a).len() && out_edges(g, a)[i].to == b
}

/// Whether an edge joins `a` and `b`, in one direction or the other.
pub open spec fn adjacent(g: Adjacency, a: usize, b: usize) -> bool {
    has_edge(g, a, b) || has_edge(g, b, a)
}

/// Whether each node of `path` is adjacent to the next.
pub open spec fn is_walk(g: Adjacency, path: Seq<usize>) -> bool {
    &&& path.len() > 0
    &&& forall|i: int|
        0 <= i < path.len() - 1 ==> adjacent(g, #[trigger] path[i], path[i + 1])
}

/// Whether `path` is a walk from `a` to `b`.
pub open spec fn walk_between(g: Adjacency, path: Seq<usize>, a: usize, b: usize) -> bool {
    &&& is_walk(g, path)
    &&& path[0] == a
    &&& path.last() == b
}

/// Whether some walk leads from `a` to `b` without entering `avoid`
/// after its first node.
pub open spec fn reaches(g: Adjacency, avoid: Set<usize>, a: usize, b: usize) -> bool {
    exists|path: Seq<usize>| #[trigger] walk_between(g, path, a, b) && avoids(path, avoid)
}

/// The nodes that `a` reaches without entering `avoid`.
pub open spec fn reach(g: Adjacency, avoid: Set<usize>, a: usize) -> Set<usize> {
    Set::new(|b: usize| reaches(g, avoid, a, b))
}

/// Whether some walk leads from `a` to `b`.
pub open spec fn connected(g: Adjacency, a: usize, b: usize) -> bool {
    reaches(g, Set::empty(), a, b)
}

/// The connected component of `a`: the nodes that a walk from `a` reaches.
pub open spec fn component(g: Adjacency, a: usize) -> Set<usize> {
    reach(g, Set::empty(), a)
}

/// Whether no edge joins a node of `s` to a node outside it.
pub open spec fn closed(g: Adjacency, s: Set<usize>) -> bool {
    forall|a: usize, b: usize| s.contains(a) && #[trigger] adjacent(g, a, b) ==> s.contains(b)
}

/// Whether `r` is a node of the graph and the least node of its component.
pub open spec fn is_root(g: Adjacency, r: usize) -> bool {
    &&& g.contains_key(r)
    &&& forall|b: usize| #[trigger] connected(g, r, b) ==> r <= b
}

/// The roots among `nodes`, in their order.
pub open spec fn roots_among(g: Adjacency, nodes: Seq<usize>) -> Seq<usize> {
    nodes.filter(|r: usize| is_root(g, r))
}

/// The least node of each component, in ascending order.
pub open spec fn roots(g: Adjacency) -> Seq<usize> {
    roots_among(g, node_seq(g))
}

/// The part of the graph on the component of `a`: the nodes of the
/// component, each with its outgoing edges.
pub open spec fn component_graph(g: Adjacency, a: usize) -> Adjacency {
    g.restrict(component(g, a))
}

/// The roots among `nodes` and one more node.
pub proof fn lemma_roots_among_push(g: Adjacency, nodes: Seq<usize>, node: usize)
    ensures
        roots_among(g, nodes.push(node)) == if is_root(g, node) {
            roots_among(g, nodes).push(node)
        } else {
            roots_among(g, nodes)
        },
{
    nodes.lemma_filter_push(node, |r: usize| is_root(g, r));
}

/// Every node reaches itself.
pub proof fn lemma_reaches_self(g: Adjacency, avoid: Set<usize>, a: usize)
    ensures
        reaches(g, avoid, a, a),
{
    let path = seq![a];
    assert(walk_between(g, path, a, a));
}

/// A walk that avoids `avoid` goes on to an adjacent node outside `avoid`.
pub proof fn lemma_reaches_step(g: Adjacency, avoid: Set<usize>, a: usize, n: usize, m: usize)
    requires
        reaches(g, avoid, a, n),
        adjacent(g, n, m),
        !avoid.contains(m),
    ensures
        reaches(g, avoid, a, m),
{
    let path = choose|path: Seq<usize>| #[trigger]
        walk_between(g, path, a, n) && avoids(path, avoid);
    let longer = path.push(m);
    assert(walk_between(g, longer, a, m));
}

proof fn lemma_walk_stays(
    g: Adjacency,
    avoid: Set<usize>,
    found: Set<usize>,
    path: Seq<usize>,
    upto: int,
)
    requires
        is_walk(g, path),
        avoids(path, avoid),
        found.contains(path[0]),
        forall|n: usize, m: usize|
            found.contains(n) && #[trigger] adjacent(g, n, m) ==> found.contains(m)
                || avoid.contains(m),
        0 <= upto < path.len(),
    ensures
        found.contains(path[upto]),
    decreases upto,
{
    if upto > 0 {
        lemma_walk_stays(g, avoid, found, path, upto - 1);
    }
}

/// A set that holds `start`, and with each of its nodes every adjacent
/// node outside `avoid`, holds all that `start` reaches.
pub proof fn lemma_reach_within(g: Adjacency, avoid: Set<usize>, start: usize, found: Set<usize>)
    requires
        found.contains(start),
        forall|n: usize, m: usize|
            found.contains(n) && #[trigger] adjacent(g, n, m) ==> found.contains(m)
                || avoid.contains(m),
    ensures
        forall|b: usize| reaches(g, avoid, start, b) ==> found.contains(b),
{
    assert forall|b: usize| reaches(g, avoid, start, b) implies found.contains(b) by {
        let path = choose|path: Seq<usize>| #[trigger]
            walk_between(g, path, start, b) && avoids(path, avoid);
        lemma_walk_stays(g, avoid, found, path, path.len() - 1);
    }
}

/// Connection is symmetric.
pub proof fn lemma_connected_symmetric(g: Adjacency, a: usize, b: usize)
    requires
        connected(g, a, b),
    ensures
        connected(g, b, a),
{
    let path = choose|path: Seq<usize>| #[trigger]
        walk_between(g, path, a, b) && avoids(path, Set::empty());
    let back = path.reverse();
    assert(walk_between(g, back, b, a));
}

/// Connection is transitive.
pub proof fn lemma_connected_transitive(g: Adjacency, a: usize, b: usize, c: usize)
    requires
        connected(g, a, b),
        connected(g, b, c),
    ensures
        connected(g, a, c),
{
    let first = choose|path: Seq<usize>| #[trigger]
        walk_between(g, path, a, b) && avoids(path, Set::empty());
    let second = choose|path: Seq<usize>| #[trigger]
        walk_between(g, path, b, c) && avoids(path, Set::empty());
    let whole = first + second.drop_first();
    assert(walk_between(g, whole, a, c));
}

/// A closed set that holds `a` holds the component of `a`.
pub proof fn lemma_closed_holds_component(g: Adjacency, s: Set<usize>, a: usize)
    requires
        closed(g, s),
        s.contains(a),
    ensures
        component(g, a).subset_of(s),
{
    lemma_reach_within(g, Set::empty(), a, s);
}

/// A component is closed.
pub proof fn lemma_component_closed(g: Adjacency, a: usize)
    ensures
        closed(g, component(g, a)),
{
    assert forall|n: usize, m: usize|
        component(g, a).contains(n) && #[trigger] adjacent(g, n, m) implies component(
        g,
        a,
    ).contains(m) by {
        lemma_reaches_step(g, Set::empty(), a, n, m);
    }
}

/// From a node outside a closed set, avoiding the set is no restriction.
pub proof fn lemma_reach_outside_closed(g: Adjacency, avoid: Set<usize>, a: usize)
    requires
        closed(g, avoid),
        !avoid.contains(a),
    ensures
        reach(g, avoid, a) == component(g, a),
{
    assert forall|b: usize| reaches(g, Set::empty(), a, b) implies reaches(g, avoid, a, b) by {
        let path = choose|path: Seq<usize>| #[trigger]
            walk_between(g, path, a, b) && avoids(path, Set::empty());
        assert forall|i: int| 0 <= i < path.len() implies !avoid.contains(
            #[trigger] path[i],
        ) by {
            lemma_walk_outside(g, avoid, path, i);
        }
    }
}

proof fn lemma_walk_outside(g: Adjacency, s: Set<usize>, path: Seq<usize>, upto: int)
    requires
        closed(g, s),
        is_walk(g, path),
        !s.contains(path[0]),
        0 <= upto < path.len(),
    ensures
        !s.contains(path[upto]),
    decreases upto,
{
    if upto > 0 {
        lemma_walk_outside(g, s, path, upto - 1);
        assert(adjacent(g, path[upto], path[upto - 1]));
    }
}

/// In a well-formed graph the component of a node holds nodes only.
pub proof fn lemma_component_of_node(g: Adjacency, a: usize)
    requires
        well_formed(g),
        g.contains_key(a),
    ensures
        component(g, a).subset_of(g.dom()),
{
    lemma_reach_within(g, Set::empty(), a, g.dom());
}

/// The members of an ascending sequence that a filter keeps are ascending,
/// and each of them is a member that the filter accepts.
pub proof fn lemma_filter_ascending(s: Seq<usize>, keep: spec_fn(usize) -> bool)
    requires
        ascending(s),
    ensures
        ascending(s.filter(keep)),
        forall|i: int|
            0 <= i < s.filter(keep).len() ==> s.contains(#[trigger] s.filter(keep)[i]) && keep(
                s.filter(keep)[i],
            ),
    decreases s.len(),
{
    reveal(Seq::filter);
    if s.len() > 0 {
        let rest = s.drop_last();
        lemma_filter_ascending(rest, keep);
    }
}

proof fn lemma_least_member(set: Set<usize>) -> (least: usize)
    requires
        set.finite(),
        set.len() > 0,
    ensures
        set.contains(least),
        forall|n: usize| set.contains(n) ==> least <= n,
    decreases set.len(),
{
    let x = set.choose();
    let rest = set.remove(x);
    if rest.len() == 0 {
        x
    } else {
        let y = lemma_least_member(rest);
        if x < y {
            x
        } else {
            y
        }
    }
}

/// Every node of a well-formed graph lies in the component of a root.
pub proof fn lemma_root_of(graph: &Graph, n: usize) -> (at: int)
    requires
        graph.wf(),
        graph@.contains_key(n),
    ensures
        0 <= at < roots(graph@).len(),
        connected(graph@, roots(graph@)[at], n),
{
    let g = graph@;
    assert(g.dom() =~= graph.content@.dom());
    lemma_component_of_node(g, n);
    lemma_reaches_self(g, Set::empty(), n);
    let members = component(g, n);
    assert(members.contains(n));
    let r = lemma_least_member(members);
    lemma_connected_symmetric(g, n, r);
    assert(is_root(g, r)) by {
        assert forall|b: usize| #[trigger] connected(g, r, b) implies r <= b by {
            lemma_connected_transitive(g, n, r, b);
            assert(members.contains(b));
        }
    }
    lemma_sorted_seq(g.dom());
    let order = node_seq(g);
    let k = choose|k: int| 0 <= k < order.len() && order[k] == r;
    let keep = |r: usize| is_root(g, r);
    order.lemma_filter_contains(keep, k);
    let at = choose|at: int| 0 <= at < roots(g).len() && roots(g)[at] == r;
    at
}

/// The components that `find_subgraphs` returns part the nodes of the
/// graph: the node sets of two of them are disjoint, and every node of the
/// graph is a node of one of them, which holds no other nodes.
pub proof fn lemma_subgraphs_partition(graph: &Graph)
    requires
        graph.wf(),
    ensures
        forall|i: int, j: int|
            0 <= i < j < roots(graph@).len() ==> component_graph(
                graph@,
                roots(graph@)[i],
            ).dom().disjoint(component_graph(graph@, roots(graph@)[j]).dom()),
        forall|n: usize|
            graph@.contains_key(n) <==> exists|i: int|
                0 <= i < roots(graph@).len() && #[trigger] component_graph(
                    graph@,
                    roots(graph@)[i],
                ).contains_key(n),
{
    let g = graph@;
    assert(g.dom() =~= graph.content@.dom());
    lemma_sorted_seq(g.dom());
    let keep = |r: usize| is_root(g, r);
    lemma_filter_ascending(node_seq(g), keep);
    let tops = roots(g);
    assert forall|i: int, j: int| 0 <= i < j < tops.len() implies component_graph(
        g,
        tops[i],
    ).dom().disjoint(component_graph(g, tops[j]).dom()) by {
        assert forall|n: usize|
            !(component_graph(g, tops[i]).dom().contains(n) && component_graph(
                g,
                tops[j],
            ).dom().contains(n)) by {
            if component(g, tops[i]).contains(n) && component(g, tops[j]).contains(n) {
                lemma_connected_symmetric(g, tops[j], n);
                lemma_connected_transitive(g, tops[i], n, tops[j]);
                lemma_connected_symmetric(g, tops[i], tops[j]);
            }
        }
    }
    assert forall|n: usize|
        g.contains_key(n) <==> exists|i: int|
            0 <= i < tops.len() && #[trigger] component_graph(g, tops[i]).contains_key(
                n,
            ) by {
        if g.contains_key(n) {
            let at = lemma_root_of(graph, n);
            assert(component_graph(g, tops[at]).contains_key(n));
        }
    }
}

/// Each component that `find_subgraphs` returns is a maximal connected set
/// of nodes: it holds its root, a walk joins every two of its nodes, and no
/// edge joins one of its nodes to a node outside it.
pub proof fn lemma_subgraphs_are_components(graph: &Graph, i: int)
    requires
        graph.wf(),
        0 <= i < roots(graph@).len(),
    ensures
        component_graph(graph@, roots(graph@)[i]).dom() == component(graph@, roots(graph@)[i]),
        component(graph@, roots(graph@)[i]).contains(roots(graph@)[i]),
        forall|a: usize, b: usize|
            component(graph@, roots(graph@)[i]).contains(a) && component(
                graph@,
                roots(graph@)[i],
            ).contains(b) ==> connected(graph@, a, b),
        closed(graph@, component(graph@, roots(graph@)[i])),
{
    let g = graph@;
    let r = roots(g)[i];
    lemma_component_of_node(g, r);
    lemma_reaches_self(g, Set::empty(), r);
    lemma_component_closed(g, r);
    assert forall|a: usize, b: usize|
        component(g, r).contains(a) && component(g, r).contains(b) implies connected(g, a, b) by {
        lemma_connected_symmetric(g, r, a);
        lemma_connected_transitive(g, a, r, b);
    }
}

} // verus!
