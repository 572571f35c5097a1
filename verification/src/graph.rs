//! The graph of one resolution: a node for each identity, and an edge from a
//! dependency to each package that declared it.
//!
//! The graph lives in a `petgraph` `DiGraphMap`, and `petgraph` puts it in
//! order.

use vstd::prelude::*;
use petgraph::graphmap::DiGraphMap;
use petgraph::graphmap::GraphMap;
use petgraph::Directed;
use std::hash::BuildHasher;

verus! {

#[verifier::external_type_specification]
#[verifier::external_body]
pub struct ExDirected(Directed);

#[verifier::external_type_specification]
#[verifier::external_body]
#[verifier::reject_recursive_types(N)]
#[verifier::reject_recursive_types(E)]
#[verifier::reject_recursive_types(Ty)]
#[verifier::reject_recursive_types(S)]
pub struct ExGraphMap<N, E, Ty, S: BuildHasher>(GraphMap<N, E, Ty, S>);

/// The nodes of a graph, in the order in which it took them in.
pub uninterp spec fn nodes_of(graph: DiGraphMap<u64, i32>) -> Seq<u64>;

/// The edges of a graph, each as its source and its target, in the order in
/// which it took them in.
pub uninterp spec fn edges_of(graph: DiGraphMap<u64, i32>) -> Seq<(u64, u64)>;

/// What `petgraph::algo::toposort` returns for a graph that took in these
/// nodes and these edges, in these orders, and from which nothing was ever
/// removed: the nodes in the order it found, or the node at which it met a
/// cycle.
pub uninterp spec fn toposort_of(nodes: Seq<u64>, edges: Seq<(u64, u64)>) -> Result<Seq<u64>, u64>;

/// The nodes with `node` among them: it comes last if it is new.
pub open spec fn with_node(nodes: Seq<u64>, node: u64) -> Seq<u64> {
    if nodes.contains(node) {
        nodes
    } else {
        nodes.push(node)
    }
}

/// The edges with `edge` among them: it comes last if it is new.
pub open spec fn with_edge(edges: Seq<(u64, u64)>, edge: (u64, u64)) -> Seq<(u64, u64)> {
    if edges.contains(edge) {
        edges
    } else {
        edges.push(edge)
    }
}

/// Whether the graph has an edge from the node at place `i` of `walk` to the
/// next one.
pub open spec fn steps_along(edges: Seq<(u64, u64)>, walk: Seq<u64>, i: int) -> bool {
    edges.contains((walk[i], walk[i + 1]))
}

/// Whether `walk` follows edges of the graph from its first node to its last.
pub open spec fn is_walk(edges: Seq<(u64, u64)>, walk: Seq<u64>) -> bool {
    &&& walk.len() >= 1
    &&& forall|i: int| 0 <= i < walk.len() - 1 ==> #[trigger] steps_along(edges, walk, i)
}

/// Whether `walk` follows at least one edge and ends where it starts. An edge
/// from a node to itself is such a walk.
pub open spec fn is_cycle(edges: Seq<(u64, u64)>, walk: Seq<u64>) -> bool {
    &&& is_walk(edges, walk)
    &&& walk.len() >= 2
    &&& walk.first() == walk.last()
}

/// Whether some cycle passes through `node`.
pub open spec fn lies_on_cycle(edges: Seq<(u64, u64)>, node: u64) -> bool {
    exists|walk: Seq<u64>| #[trigger] is_cycle(edges, walk) && walk[0] == node
}

/// Whether the graph has a cycle.
pub open spec fn has_cycle(edges: Seq<(u64, u64)>) -> bool {
    exists|walk: Seq<u64>| #[trigger] is_cycle(edges, walk)
}

/// Whether `order` lists each node once, and the source of each edge before
/// its target.
pub open spec fn is_topological_order(
    order: Seq<u64>,
    nodes: Seq<u64>,
    edges: Seq<(u64, u64)>,
) -> bool {
    &&& order.no_duplicates()
    &&& order.len() == nodes.len()
    &&& forall|node: u64| nodes.contains(node) <==> order.contains(node)
    &&& forall|i: int, j: int|
        0 <= i < order.len() && 0 <= j < order.len() && edges.contains(
            (#[trigger] order[i], #[trigger] order[j]),
        ) ==> i < j
}

/// `GraphMap::new`: a graph without nodes and edges.
#[verifier::external_body]
fn empty_graph() -> (graph: DiGraphMap<u64, i32>)
    ensures
        nodes_of(graph) == Seq::<u64>::empty(),
        edges_of(graph) == Seq::<(u64, u64)>::empty(),
{
    DiGraphMap::new()
}

/// `GraphMap::add_node`: the node is taken in unless the graph has it, the
/// edges stay, and the node is handed back.
#[verifier::external_body]
fn insert_node(graph: &mut DiGraphMap<u64, i32>, node: u64) -> (same: u64)
    ensures
        same == node,
        nodes_of(*final(graph)) == with_node(nodes_of(*old(graph)), node),
        edges_of(*final(graph)) == edges_of(*old(graph)),
{
    graph.add_node(node)
}

/// `GraphMap::add_edge` with the weight 0: a graph that has the edge keeps its
/// nodes and edges; another takes in the edge, and before it the source and
/// then the target where it lacks them. The result says whether the graph had
/// the edge.
#[verifier::external_body]
fn insert_edge(graph: &mut DiGraphMap<u64, i32>, source: u64, target: u64) -> (had: bool)
    ensures
        had == edges_of(*old(graph)).contains((source, target)),
        edges_of(*final(graph)) == with_edge(edges_of(*old(graph)), (source, target)),
        had ==> nodes_of(*final(graph)) == nodes_of(*old(graph)),
        !had ==> nodes_of(*final(graph)) == with_node(
            with_node(nodes_of(*old(graph)), source),
            target,
        ),
{
    graph.add_edge(source, target, 0).is_some()
}

/// `petgraph::algo::toposort`, without a workspace of the caller's. For an
/// acyclic graph it returns all nodes, each before its successors; for
/// another, a node on a cycle (`Cycle::node_id`). The same nodes and edges,
/// taken in in the same order, give the same result.
#[verifier::external_body]
fn sort_graph(graph: &DiGraphMap<u64, i32>) -> (outcome: Result<Vec<u64>, u64>)
    ensures
        match outcome {
            Ok(order) => toposort_of(nodes_of(*graph), edges_of(*graph)) == Ok::<Seq<u64>, u64>(
                order@,
            ) && is_topological_order(order@, nodes_of(*graph), edges_of(*graph)),
            Err(node) => toposort_of(nodes_of(*graph), edges_of(*graph)) == Err::<Seq<u64>, u64>(
                node,
            ) && lies_on_cycle(edges_of(*graph), node),
        },
{
    petgraph::algo::toposort(graph, None).map_err(|cycle| cycle.node_id())
}

/// Along a walk through a graph that is in topological order, each node
/// stands after the first one.
pub proof fn lemma_walk_ascends(
    order: Seq<u64>,
    nodes: Seq<u64>,
    edges: Seq<(u64, u64)>,
    walk: Seq<u64>,
    k: int,
)
    requires
        is_topological_order(order, nodes, edges),
        forall|e: (u64, u64)| #[trigger]
            edges.contains(e) ==> nodes.contains(e.0) && nodes.contains(e.1),
        is_walk(edges, walk),
        1 <= k < walk.len(),
    ensures
        order.contains(walk[0]),
        order.contains(walk[k]),
        order.index_of(walk[0]) < order.index_of(walk[k]),
    decreases k,
{
    assert(steps_along(edges, walk, k - 1));
    let a = walk[k - 1];
    let b = walk[k];
    assert(edges.contains((a, b)));
    assert(nodes.contains(a) && nodes.contains(b));
    let i = order.index_of(a);
    let j = order.index_of(b);
    assert(order[i] == a && order[j] == b);
    assert(i < j);
    if k > 1 {
        lemma_walk_ascends(order, nodes, edges, walk, k - 1);
    }
}

/// A graph that can be put in topological order has no cycle.
pub proof fn lemma_ordered_is_acyclic(order: Seq<u64>, nodes: Seq<u64>, edges: Seq<(u64, u64)>)
    requires
        is_topological_order(order, nodes, edges),
        forall|e: (u64, u64)| #[trigger]
            edges.contains(e) ==> nodes.contains(e.0) && nodes.contains(e.1),
    ensures
        !has_cycle(edges),
{
    if has_cycle(edges) {
        let walk = choose|walk: Seq<u64>| #[trigger] is_cycle(edges, walk);
        lemma_walk_ascends(order, nodes, edges, walk, walk.len() - 1);
    }
}

/// `with_node` keeps the nodes that were there, and has the new one.
pub proof fn lemma_with_node_keeps(nodes: Seq<u64>, node: u64, other: u64)
    ensures
        with_node(nodes, node).contains(node),
        nodes.contains(other) ==> with_node(nodes, node).contains(other),
        with_node(nodes, node).contains(other) ==> other == node || nodes.contains(other),
{
    let after = with_node(nodes, node);
    if !nodes.contains(node) {
        assert(after[nodes.len() as int] == node);
        if nodes.contains(other) {
            let i = nodes.index_of(other);
            assert(after[i] == other);
        }
        if after.contains(other) {
            let i = after.index_of(other);
            if i < nodes.len() {
                assert(nodes[i] == other);
            }
        }
    }
}

/// `with_edge` has the edges that were there and the new one, and no other.
pub proof fn lemma_with_edge_members(edges: Seq<(u64, u64)>, edge: (u64, u64), other: (u64, u64))
    ensures
        with_edge(edges, edge).contains(other) <==> other == edge || edges.contains(other),
{
    let after = with_edge(edges, edge);
    if !edges.contains(edge) {
        assert(after[edges.len() as int] == edge);
        if edges.contains(other) {
            let i = edges.index_of(other);
            assert(after[i] == other);
        }
        if after.contains(other) {
            let i = after.index_of(other);
            if i < edges.len() {
                assert(edges[i] == other);
            }
        }
    }
}

/// A directed graph over identities that only grows.
pub struct DependencyGraph {
    graph: DiGraphMap<u64, i32>,
}

impl DependencyGraph {
    /// The nodes, in the order in which they came.
    pub closed spec fn nodes(&self) -> Seq<u64> {
        nodes_of(self.graph)
    }

    /// The edges, in the order in which they came.
    pub closed spec fn edges(&self) -> Seq<(u64, u64)> {
        edges_of(self.graph)
    }

    /// Both ends of each edge are nodes.
    pub open spec fn wf(&self) -> bool {
        forall|e: (u64, u64)| #[trigger]
            self.edges().contains(e) ==> self.nodes().contains(e.0) && self.nodes().contains(e.1)
    }

    /// A graph without nodes.
    pub fn new() -> (graph: Self)
        ensures
            graph.wf(),
            graph.nodes() == Seq::<u64>::empty(),
            graph.edges() == Seq::<(u64, u64)>::empty(),
    {
        DependencyGraph { graph: empty_graph() }
    }

    /// Makes `node` a node of the graph.
    pub fn add_node(&mut self, node: u64)
        requires
            old(self).wf(),
        ensures
            final(self).wf(),
            final(self).nodes() == with_node(old(self).nodes(), node),
            final(self).edges() == old(self).edges(),
    {
        let _ = insert_node(&mut self.graph, node);
        proof {
            let before = old(self).nodes();
            let edges = self.edges();
            let nodes = self.nodes();
            assert(edges == old(self).edges());
            assert forall|e: (u64, u64)| #[trigger] edges.contains(e) implies (nodes.contains(e.0)
                && nodes.contains(e.1)) by {
                lemma_with_node_keeps(before, node, e.0);
                lemma_with_node_keeps(before, node, e.1);
            }
        }
    }

    /// Puts an edge between two nodes of the graph, unless it is there.
    pub fn add_edge(&mut self, source: u64, target: u64)
        requires
            old(self).wf(),
            old(self).nodes().contains(source),
            old(self).nodes().contains(target),
        ensures
            final(self).wf(),
            final(self).nodes() == old(self).nodes(),
            final(self).edges() == with_edge(old(self).edges(), (source, target)),
    {
        let _ = insert_edge(&mut self.graph, source, target);
        proof {
            let before = old(self).edges();
            let after = self.edges();
            let nodes = self.nodes();
            assert(nodes == old(self).nodes());
            assert forall|e: (u64, u64)| #[trigger] after.contains(e) implies (nodes.contains(e.0)
                && nodes.contains(e.1)) by {
                lemma_with_edge_members(before, (source, target), e);
                if e != (source, target) {
                    assert(before.contains(e));
                }
            }
        }
    }

    /// The nodes in an order in which the source of each edge comes before its
    /// target, or a node on a cycle if the graph has one.
    pub fn topological_order(&self) -> (outcome: Result<Vec<u64>, u64>)
        requires
            self.wf(),
        ensures
            outcome is Ok <==> !has_cycle(self.edges()),
            match outcome {
                Ok(order) => toposort_of(self.nodes(), self.edges()) == Ok::<Seq<u64>, u64>(order@)
                    && is_topological_order(order@, self.nodes(), self.edges()),
                Err(node) => toposort_of(self.nodes(), self.edges()) == Err::<Seq<u64>, u64>(node)
                    && lies_on_cycle(self.edges(), node),
            },
    {
        let outcome = sort_graph(&self.graph);
        proof {
            if outcome is Ok {
                lemma_ordered_is_acyclic(outcome->Ok_0@, self.nodes(), self.edges());
            }
        }
        outcome
    }
}

} // verus!
