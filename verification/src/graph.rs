//! The dependency graph kept by a pipeline, and topological sorting.
//!
//! The graph structure and the sort are supplied by the petgraph crate; this
//! module declares the graph type to the verifier and states, as trusted
//! contracts, what the calls do in terms of two names: the graph's node count
//! and its edge list.

use vstd::prelude::*;

verus! {

#[verifier::external_type_specification]
#[verifier::external_body]
#[verifier::reject_recursive_types(N)]
#[verifier::reject_recursive_types(E)]
#[verifier::reject_recursive_types(Ty)]
#[verifier::reject_recursive_types(Ix)]
pub struct ExGraph<N, E, Ty, Ix>(petgraph::graph::Graph<N, E, Ty, Ix>);

#[verifier::external_type_specification]
#[verifier::external_body]
pub struct ExDirected(petgraph::Directed);

/// The dependency graph of a pipeline: one vertex per node carrying the
/// node's identifier, one directed edge per produced-and-consumed name,
/// carrying that name.
pub type DepGraph = petgraph::graph::Graph<u128, String, petgraph::Directed, usize>;

/// How many vertices the graph holds. Vertices are indexed `0, 1, ...` in
/// insertion order; nothing is ever removed.
pub uninterp spec fn graph_node_count(g: DepGraph) -> nat;

/// The graph's directed edges, as (source index, target index) pairs in
/// insertion order.
pub uninterp spec fn graph_edge_list(g: DepGraph) -> Seq<(nat, nat)>;

/// Relies on petgraph::graph::Graph::with_capacity: an empty directed graph.
#[verifier::external_body]
pub(crate) fn graph_new() -> (g: DepGraph)
    ensures
        graph_node_count(g) == 0,
        graph_edge_list(g) == Seq::<(nat, nat)>::empty(),
{
    petgraph::graph::Graph::with_capacity(0, 0)
}

/// Relies on petgraph::graph::Graph::add_node: appends one vertex, whose
/// index is the previous vertex count, and touches no edge.
#[verifier::external_body]
pub(crate) fn graph_add_node(g: &mut DepGraph, weight: u128) -> (r: usize)
    ensures
        graph_node_count(*final(g)) == graph_node_count(*old(g)) + 1,
        graph_edge_list(*final(g)) == graph_edge_list(*old(g)),
        r as nat == graph_node_count(*old(g)),
{
    g.add_node(weight).index()
}

/// Relies on petgraph::graph::Graph::add_edge: appends one directed edge
/// between existing vertices and touches no vertex.
#[verifier::external_body]
pub(crate) fn graph_add_edge(g: &mut DepGraph, a: usize, b: usize, weight: String)
    requires
        a < graph_node_count(*old(g)),
        b < graph_node_count(*old(g)),
    ensures
        graph_node_count(*final(g)) == graph_node_count(*old(g)),
        graph_edge_list(*final(g)) == graph_edge_list(*old(g)).push((a as nat, b as nat)),
{
    g.add_edge(
        petgraph::graph::NodeIndex::new(a),
        petgraph::graph::NodeIndex::new(b),
        weight,
    );
}

/// `order` enumerates the `n` vertices exactly once each, and every edge goes
/// from an earlier position to a later one.
pub open spec fn is_topo_order(order: Seq<usize>, n: nat, edges: Seq<(nat, nat)>) -> bool {
    &&& order.len() == n
    &&& (forall|i: int| 0 <= i < order.len() ==> (#[trigger] order[i] as nat) < n)
    &&& (forall|i: int, j: int|
        0 <= i < j < order.len() ==> #[trigger] order[i] != #[trigger] order[j])
    &&& (forall|v: nat| v < n ==> #[trigger] order_hits(order, v))
    &&& (forall|k: int, i: int, j: int|
        0 <= k < edges.len() && 0 <= i < order.len() && 0 <= j < order.len() && (
        #[trigger] order[i] as nat) == (#[trigger] edges[k]).0 && (#[trigger] order[j] as nat)
            == edges[k].1 ==> i < j)
}

/// Some position of `order` holds the vertex `v`.
pub open spec fn order_hits(order: Seq<usize>, v: nat) -> bool {
    exists|i: int| 0 <= i < order.len() && (#[trigger] order[i] as nat) == v
}

/// A closed walk along the edge list.
pub open spec fn is_edge_cycle(path: Seq<nat>, edges: Seq<(nat, nat)>) -> bool {
    &&& path.len() >= 2
    &&& path[0] == path[path.len() - 1]
    &&& (forall|k: int| 0 <= k < path.len() - 1 ==> #[trigger] edges.contains(
        (path[k], path[k + 1]),
    ))
}

/// The edge list contains a directed cycle (self loops included).
pub open spec fn has_edge_cycle(n: nat, edges: Seq<(nat, nat)>) -> bool {
    exists|path: Seq<nat>| is_edge_cycle(path, edges)
}

/// Relies on petgraph::algo::toposort: on an acyclic graph it returns every
/// vertex, each ordered before its successors; it returns the error exactly
/// when the graph holds a cycle (self loops included).
#[verifier::external_body]
pub(crate) fn graph_toposort(g: &DepGraph) -> (r: Result<Vec<usize>, ()>)
    ensures
        match r {
            Ok(order) => is_topo_order(order@, graph_node_count(*g), graph_edge_list(*g)),
            Err(_) => has_edge_cycle(graph_node_count(*g), graph_edge_list(*g)),
        },
{
    match petgraph::algo::toposort(g, None) {
        Ok(v) => Ok(v.into_iter().map(|i| i.index()).collect()),
        Err(_) => Err(()),
    }
}

/// A topological order rules out cycles, so the sort's two outcomes exclude
/// each other.
pub proof fn lemma_topo_order_no_cycle(order: Seq<usize>, n: nat, edges: Seq<(nat, nat)>)
    requires
        is_topo_order(order, n, edges),
        forall|k: int| 0 <= k < edges.len() ==> (#[trigger] edges[k]).0 < n && edges[k].1 < n,
    ensures
        !has_edge_cycle(n, edges),
{
    if has_edge_cycle(n, edges) {
        let path = choose|path: Seq<nat>| is_edge_cycle(path, edges);
        // Positions of consecutive path vertices strictly increase, yet the
        // path returns to its start.
        assert forall|k: int| 0 <= k < path.len() - 1 implies pos_of(order, #[trigger] path[k])
            < pos_of(order, path[k + 1]) by {
            assert(edges.contains((path[k], path[k + 1])));
            let e = choose|e: int| 0 <= e < edges.len() && edges[e] == (path[k], path[k + 1]);
            assert(order_hits(order, path[k]));
            assert(order_hits(order, path[k + 1]));
            let i = pos_of(order, path[k]);
            let j = pos_of(order, path[k + 1]);
            assert(order[i] as nat == edges[e].0);
            assert(order[j] as nat == edges[e].1);
        }
        lemma_pos_monotone(order, path);
        assert(pos_of(order, path[0]) < pos_of(order, path[path.len() - 1]));
    }
}

/// The position of vertex `v` in `order`.
pub open spec fn pos_of(order: Seq<usize>, v: nat) -> int {
    choose|i: int| 0 <= i < order.len() && (#[trigger] order[i] as nat) == v
}

proof fn lemma_pos_monotone(order: Seq<usize>, path: Seq<nat>)
    requires
        path.len() >= 1,
        forall|k: int|
            0 <= k < path.len() - 1 ==> pos_of(order, #[trigger] path[k]) < pos_of(
                order,
                path[k + 1],
            ),
    ensures
        path.len() >= 2 ==> pos_of(order, path[0]) < pos_of(order, path[path.len() - 1]),
    decreases path.len(),
{
    if path.len() >= 2 {
        let d = path.drop_last();
        assert(forall|k: int| 0 <= k < d.len() ==> #[trigger] d[k] == path[k]);
        lemma_pos_monotone(order, d);
        if path.len() == 2 {
        } else {
            assert(pos_of(order, path[0]) < pos_of(order, path[path.len() - 2]));
            assert(pos_of(order, path[path.len() - 2]) < pos_of(order, path[path.len() - 1]));
        }
    }
}

} // verus!
