//! Breadth-first traversal.

use super::connectivity::adjacent;
use super::connectivity::has_edge;
use super::connectivity::lemma_reach_within;
use super::connectivity::lemma_reaches_self;
use super::connectivity::lemma_reaches_step;
use super::connectivity::reach;
use super::connectivity::reaches;
use super::order::lemma_listing_len;
use super::order::lists;
use super::out_edges;
use super::Graph;
use std::collections::HashSet;
use std::collections::VecDeque;
use vstd::prelude::*;

verus! {

broadcast use vstd::laws_cmp::group_laws_cmp;

/// The number of nodes of `graph` outside `visited`.
spec fn unvisited(graph: &Graph, visited: Set<usize>) -> nat {
    graph@.dom().difference(visited).len()
}

/// The state of a traversal from `start` that began with `avoid` visited:
/// the visited nodes are those of `avoid`, the nodes `found` and the nodes
/// `waiting`; each of the latter two is reached from `start` outside
/// `avoid`; and every neighbour of a found node is visited.
#[verifier::opaque]
spec fn traversal(
    graph: &Graph,
    avoid: Set<usize>,
    start: usize,
    visited: Set<usize>,
    found: Set<usize>,
    waiting: Seq<usize>,
) -> bool {
    &&& forall|n: usize|
        visited.contains(n) <==> avoid.contains(n) || found.contains(n) || waiting.contains(n)
    &&& forall|n: usize|
        found.contains(n) || waiting.contains(n) ==> reaches(graph@, avoid, start, n)
    &&& forall|n: usize, m: usize|
        found.contains(n) && #[trigger] adjacent(graph@, n, m) ==> visited.contains(m)
}

proof fn lemma_visit(graph: &Graph, visited: Set<usize>, node: usize)
    requires
        graph@.dom().finite(),
        graph@.contains_key(node),
        !visited.contains(node),
    ensures
        unvisited(graph, visited.insert(node)) + 1 == unvisited(graph, visited),
{
    let before = graph@.dom().difference(visited);
    assert(graph@.dom().difference(visited.insert(node)) =~= before.remove(node));
}

proof fn lemma_push_contains(s: Seq<usize>, x: usize)
    ensures
        forall|n: usize| s.push(x).contains(n) <==> s.contains(n) || n == x,
{
    assert forall|n: usize| s.push(x).contains(n) <==> s.contains(n) || n == x by {
        if s.contains(n) {
            let k = choose|k: int| 0 <= k < s.len() && s[k] == n;
            assert(s.push(x)[k] == n);
        }
        if n == x {
            assert(s.push(x)[s.len() as int] == n);
        }
    }
}

/// Marks `node`, a neighbour of the node `from` in hand, as visited and
/// puts it at the back of the queue.
fn enqueue(
    graph: &Graph,
    node: usize,
    visited: &mut HashSet<usize>,
    queue: &mut VecDeque<usize>,
    Ghost(avoid): Ghost<Set<usize>>,
    Ghost(start): Ghost<usize>,
    Ghost(found): Ghost<Set<usize>>,
    Ghost(from): Ghost<usize>,
)
    requires
        graph.wf(),
        graph@.dom().finite(),
        adjacent(graph@, from, node),
        !old(visited)@.contains(node),
        traversal(graph, avoid, start, old(visited)@, found, seq![from] + old(queue)@),
    ensures
        final(visited)@ == old(visited)@.insert(node),
        traversal(graph, avoid, start, final(visited)@, found, seq![from] + final(queue)@),
        unvisited(graph, final(visited)@) + final(queue)@.len() == unvisited(
            graph,
            old(visited)@,
        ) + old(queue)@.len(),
        unvisited(graph, final(visited)@) <= unvisited(graph, old(visited)@),
        forall|n: usize| old(queue)@.contains(n) ==> final(queue)@.contains(n),
{
    proof {
        reveal(traversal);
        lemma_visit(graph, visited@, node);
        let waiting = seq![from] + queue@;
        assert(waiting[0] == from);
        lemma_reaches_step(graph@, avoid, start, from, node);
        lemma_push_contains(waiting, node);
        lemma_push_contains(queue@, node);
    }
    visited.insert(node);
    queue.push_back(node);
}

/// Visits the targets of the edges that leave `node`.
fn scan_outgoing(
    graph: &Graph,
    node: usize,
    visited: &mut HashSet<usize>,
    queue: &mut VecDeque<usize>,
    Ghost(avoid): Ghost<Set<usize>>,
    Ghost(start): Ghost<usize>,
    Ghost(found): Ghost<Set<usize>>,
)
    requires
        graph.wf(),
        graph@.dom().finite(),
        traversal(graph, avoid, start, old(visited)@, found, seq![node] + old(queue)@),
    ensures
        old(visited)@.subset_of(final(visited)@),
        traversal(graph, avoid, start, final(visited)@, found, seq![node] + final(queue)@),
        forall|m: usize| has_edge(graph@, node, m) ==> final(visited)@.contains(m),
        unvisited(graph, final(visited)@) + final(queue)@.len() == unvisited(
            graph,
            old(visited)@,
        ) + old(queue)@.len(),
        unvisited(graph, final(visited)@) <= unvisited(graph, old(visited)@),
        forall|n: usize| old(queue)@.contains(n) ==> final(queue)@.contains(n),
{
    match graph.content.get(&node) {
        Some(list) => {
            let mut j: usize = 0;
            while j < list.len()
                invariant
                    j <= list.len(),
                    graph.wf(),
                    graph@.dom().finite(),
                    list@ == out_edges(graph@, node),
                    old(visited)@.subset_of(visited@),
                    traversal(graph, avoid, start, visited@, found, seq![node] + queue@),
                    forall|k: int| 0 <= k < j ==> visited@.contains((#[trigger] list@[k]).to),
                    unvisited(graph, visited@) + queue@.len() == unvisited(graph, old(visited)@)
                        + old(queue)@.len(),
                    unvisited(graph, visited@) <= unvisited(graph, old(visited)@),
                    forall|n: usize| old(queue)@.contains(n) ==> queue@.contains(n),
                decreases list.len() - j,
            {
                let target = list[j].to;
                if !visited.contains(&target) {
                    enqueue(
                        graph,
                        target,
                        visited,
                        queue,
                        Ghost(avoid),
                        Ghost(start),
                        Ghost(found),
                        Ghost(node),
                    );
                }
                j += 1;
            }
        },
        None => {},
    }
}

/// Visits `other` where one of its edges enters `node`.
fn scan_source(
    graph: &Graph,
    other: usize,
    node: usize,
    visited: &mut HashSet<usize>,
    queue: &mut VecDeque<usize>,
    Ghost(avoid): Ghost<Set<usize>>,
    Ghost(start): Ghost<usize>,
    Ghost(found): Ghost<Set<usize>>,
)
    requires
        graph.wf(),
        graph@.dom().finite(),
        traversal(graph, avoid, start, old(visited)@, found, seq![node] + old(queue)@),
    ensures
        old(visited)@.subset_of(final(visited)@),
        traversal(graph, avoid, start, final(visited)@, found, seq![node] + final(queue)@),
        has_edge(graph@, other, node) ==> final(visited)@.contains(other),
        unvisited(graph, final(visited)@) + final(queue)@.len() == unvisited(
            graph,
            old(visited)@,
        ) + old(queue)@.len(),
        unvisited(graph, final(visited)@) <= unvisited(graph, old(visited)@),
        forall|n: usize| old(queue)@.contains(n) ==> final(queue)@.contains(n),
{
    match graph.content.get(&other) {
        Some(list) => {
            let mut j: usize = 0;
            while j < list.len()
                invariant
                    j <= list.len(),
                    graph.wf(),
                    graph@.dom().finite(),
                    list@ == out_edges(graph@, other),
                    old(visited)@.subset_of(visited@),
                    traversal(graph, avoid, start, visited@, found, seq![node] + queue@),
                    forall|k: int|
                        0 <= k < j && (#[trigger] list@[k]).to == node ==> visited@.contains(
                            other,
                        ),
                    unvisited(graph, visited@) + queue@.len() == unvisited(graph, old(visited)@)
                        + old(queue)@.len(),
                    unvisited(graph, visited@) <= unvisited(graph, old(visited)@),
                    forall|n: usize| old(queue)@.contains(n) ==> queue@.contains(n),
                decreases list.len() - j,
            {
                if list[j].to == node && !visited.contains(&other) {
                    enqueue(
                        graph,
                        other,
                        visited,
                        queue,
                        Ghost(avoid),
                        Ghost(start),
                        Ghost(found),
                        Ghost(node),
                    );
                }
                j += 1;
            }
        },
        None => {},
    }
}

/// Visits the sources of the edges that enter `node`.
fn scan_incoming(
    graph: &Graph,
    order: &Vec<usize>,
    node: usize,
    visited: &mut HashSet<usize>,
    queue: &mut VecDeque<usize>,
    Ghost(avoid): Ghost<Set<usize>>,
    Ghost(start): Ghost<usize>,
    Ghost(found): Ghost<Set<usize>>,
)
    requires
        graph.wf(),
        graph@.dom().finite(),
        lists(order@, graph@.dom()),
        traversal(graph, avoid, start, old(visited)@, found, seq![node] + old(queue)@),
    ensures
        old(visited)@.subset_of(final(visited)@),
        traversal(graph, avoid, start, final(visited)@, found, seq![node] + final(queue)@),
        forall|m: usize| has_edge(graph@, m, node) ==> final(visited)@.contains(m),
        unvisited(graph, final(visited)@) + final(queue)@.len() == unvisited(
            graph,
            old(visited)@,
        ) + old(queue)@.len(),
        unvisited(graph, final(visited)@) <= unvisited(graph, old(visited)@),
        forall|n: usize| old(queue)@.contains(n) ==> final(queue)@.contains(n),
{
    let mut i: usize = 0;
    while i < order.len()
        invariant
            i <= order.len(),
            graph.wf(),
            graph@.dom().finite(),
            old(visited)@.subset_of(visited@),
            traversal(graph, avoid, start, visited@, found, seq![node] + queue@),
            forall|k: int|
                0 <= k < i && has_edge(graph@, #[trigger] order@[k], node) ==> visited@.contains(
                    order@[k],
                ),
            unvisited(graph, visited@) + queue@.len() == unvisited(graph, old(visited)@) + old(
                queue,
            )@.len(),
            unvisited(graph, visited@) <= unvisited(graph, old(visited)@),
            forall|n: usize| old(queue)@.contains(n) ==> queue@.contains(n),
        decreases order.len() - i,
    {
        scan_source(
            graph,
            order[i],
            node,
            visited,
            queue,
            Ghost(avoid),
            Ghost(start),
            Ghost(found),
        );
        i += 1;
    }
}

/// Collects the nodes that a walk from `start_node` reaches without
/// entering a node that was visited before, and marks them visited.
/// Edges are followed in both directions.
pub fn bfs(graph: &Graph, start_node: usize, visited: &mut HashSet<usize>) -> (sub_graph_nodes:
    HashSet<usize>)
    requires
        graph.wf(),
    ensures
        sub_graph_nodes@ == reach(graph@, old(visited)@, start_node),
        final(visited)@ == old(visited)@.union(sub_graph_nodes@),
{
    let ghost avoid = visited@;
    let order = graph.nodes();
    let mut found: HashSet<usize> = HashSet::new();
    let mut queue: VecDeque<usize> = VecDeque::new();
    queue.push_back(start_node);
    visited.insert(start_node);
    proof {
        lemma_listing_len(order@, graph@.dom());
        lemma_reaches_self(graph@, avoid, start_node);
        assert(queue@[0] == start_node);
        assert(traversal(graph, avoid, start_node, visited@, found@, queue@)) by {
            reveal(traversal);
        }
    }
    while queue.len() > 0
        invariant
            graph.wf(),
            lists(order@, graph@.dom()),
            graph@.dom().finite(),
            traversal(graph, avoid, start_node, visited@, found@, queue@),
            found@.contains(start_node) || queue@.contains(start_node),
        decreases 2 * unvisited(graph, visited@) + queue@.len(),
    {
        let ghost waiting = queue@;
        let popped = queue.pop_front();
        match popped {
            Some(node) => {
                let ghost seen = found@;
                proof {
                    assert(waiting =~= seq![node] + queue@);
                }
                scan_outgoing(
                    graph,
                    node,
                    visited,
                    &mut queue,
                    Ghost(avoid),
                    Ghost(start_node),
                    Ghost(seen),
                );
                scan_incoming(
                    graph,
                    &order,
                    node,
                    visited,
                    &mut queue,
                    Ghost(avoid),
                    Ghost(start_node),
                    Ghost(seen),
                );
                found.insert(node);
                proof {
                    let rest = seq![node] + queue@;
                    assert(rest.subrange(1, rest.len() as int) =~= queue@);
                    assert(traversal(graph, avoid, start_node, visited@, found@, queue@)) by {
                        reveal(traversal);
                    }
                }
            },
            None => {
                assert(false);
            },
        }
    }
    proof {
        reveal(traversal);
        lemma_reach_within(graph@, avoid, start_node, found@);
    }
    found
}

} // verus!
