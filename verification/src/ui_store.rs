//! The graph that the user interface keeps its widgets in, seen through a
//! model of plain values: its nodes (indexed from zero, in the order they
//! were added), its edges (oldest first), and what a depth-first search over
//! it still has to yield.

use vstd::prelude::*;
use petgraph::graph::{Graph, NodeIndex};
use petgraph::visit::Dfs;
use petgraph::Direction;
use fixedbitset::FixedBitSet;
use crate::graph_model::{edges_within, neighbors, search_order, seq_edge, EdgeDirection};
use crate::widget::Widget;
use crate::widget_store::{dfs_capacity, dfs_stack, end_index, StoreDfs};

verus! {

#[verifier::external_type_specification]
#[verifier::external_body]
#[verifier::reject_recursive_types(N)]
#[verifier::reject_recursive_types(E)]
#[verifier::reject_recursive_types(Ty)]
#[verifier::reject_recursive_types(Ix)]
pub struct ExGraph<N, E, Ty, Ix>(Graph<N, E, Ty, Ix>);

/// The graph of the user interface's widgets.
pub type UiGraph = Graph<Widget, ()>;

/// The nodes of the graph: the weight of node `i` at position `i`.
pub uninterp spec fn ui_nodes(g: Graph<Widget, ()>) -> Seq<Widget>;

/// The edges of the graph as (source, target) pairs, oldest first.
pub uninterp spec fn ui_edges(g: Graph<Widget, ()>) -> Seq<(nat, nat)>;

/// The nodes that the search `d` yields, one per call, when it is stepped on
/// the graph `g` until it is exhausted.
pub uninterp spec fn ui_dfs_pending(d: Dfs<NodeIndex<u32>, FixedBitSet>, g: Graph<Widget, ()>) -> Seq<nat>;

/// The node indices below `n`.
pub open spec fn indices_below(n: nat) -> Set<nat> {
    Set::new(|i: nat| i < n)
}

/// Shape facts that hold of every graph: fewer nodes than the end index and
/// every edge between nodes.
pub open spec fn ui_shape(g: UiGraph) -> bool {
    &&& ui_nodes(g).len() <= end_index()
    &&& edges_within(indices_below(ui_nodes(g).len()), ui_edges(g))
}

/// `Graph::new`: an empty directed graph.
#[verifier::external_body]
pub(crate) fn ui_graph_new() -> (graph: UiGraph)
    ensures
        ui_nodes(graph).len() == 0,
        ui_edges(graph).len() == 0,
{
    Graph::new()
}

/// `Graph::add_node`: appends `weight` as node number `len`, which it
/// returns; it panics when that number would be the end index.
#[verifier::external_body]
pub(crate) fn ui_add_node(g: &mut UiGraph, weight: Widget) -> (index: usize)
    requires
        ui_nodes(*old(g)).len() < end_index(),
    ensures
        index == ui_nodes(*old(g)).len(),
        ui_nodes(*final(g)) == ui_nodes(*old(g)).push(weight),
        ui_edges(*final(g)) == ui_edges(*old(g)),
{
    g.add_node(weight).index()
}

/// `Graph::add_edge`: appends the edge `a -> b`; it panics unless both ends
/// are nodes, and when the graph already has `u32::MAX` edges.
#[verifier::external_body]
pub(crate) fn ui_add_edge(g: &mut UiGraph, a: usize, b: usize)
    requires
        a < ui_nodes(*old(g)).len(),
        b < ui_nodes(*old(g)).len(),
        ui_edges(*old(g)).len() < end_index(),
    ensures
        ui_nodes(*final(g)) == ui_nodes(*old(g)),
        ui_edges(*final(g)) == ui_edges(*old(g)).push((a as nat, b as nat)),
{
    g.add_edge(NodeIndex::new(a), NodeIndex::new(b), ());
}

/// `graph[a]` (`Index` for `Graph`): the weight of node `a`; it panics when
/// there is no such node.
#[verifier::external_body]
pub(crate) fn ui_node_weight(g: &UiGraph, a: usize) -> (weight: &Widget)
    requires
        a < ui_nodes(*g).len(),
    ensures
        *weight == ui_nodes(*g)[a as int],
{
    &g[NodeIndex::new(a)]
}

/// `&mut graph[a]` (`IndexMut` for `Graph`): the weight of node `a` to
/// change in place; it panics when there is no such node. Only that weight
/// changes: the edges, and what every search yields, stay as they were.
#[verifier::external_body]
pub(crate) fn ui_node_weight_mut(g: &mut UiGraph, a: usize) -> (weight: &mut Widget)
    requires
        a < ui_nodes(*old(g)).len(),
    ensures
        *weight == ui_nodes(*old(g))[a as int],
        ui_nodes(*final(g)) == ui_nodes(*old(g)).update(a as int, *final(weight)),
        ui_edges(*final(g)) == ui_edges(*old(g)),
        forall|d: StoreDfs| #[trigger] ui_dfs_pending(d, *final(g)) == ui_dfs_pending(d, *old(g)),
{
    &mut g[NodeIndex::new(a)]
}

/// `graph.neighbors_directed(a, direction)`, run to the end: the neighbors
/// of `a` in the given direction, newest edge first; none when `a` is not a
/// node.
#[verifier::external_body]
pub(crate) fn ui_neighbors(g: &UiGraph, a: usize, direction: EdgeDirection) -> (found: Vec<usize>)
    requires
        a <= end_index(),
    ensures
        found@.map_values(|i: usize| i as nat) == neighbors(ui_edges(*g), a as nat, direction),
{
    let dir = match direction {
        EdgeDirection::Outgoing => Direction::Outgoing,
        EdgeDirection::Incoming => Direction::Incoming,
    };
    g.neighbors_directed(NodeIndex::new(a), dir).map(|n| n.index()).collect()
}

/// `Dfs::new(&graph, start)`: a preorder search whose stack holds `start`
/// and whose visit map covers every node of `g`. Stepped on `g`, it yields
/// each node reachable from the node `start` once, `start` first and every
/// other node after a node that has an edge to it.
#[verifier::external_body]
pub(crate) fn ui_dfs(g: &UiGraph, start: usize) -> (dfs: StoreDfs)
    requires
        start < end_index(),
    ensures
        dfs_stack(dfs) == seq![start as nat],
        dfs_capacity(dfs) == ui_nodes(*g).len(),
        start < ui_nodes(*g).len() ==> search_order(ui_dfs_pending(dfs, *g), seq_edge(ui_edges(*g)), start as nat, true),
{
    Dfs::new(g, NodeIndex::new(start))
}

/// `Dfs::next`: the next node of the search on `g`. Every node on the stack,
/// and every node of `g`, must lie below the visit map's capacity (else it
/// panics); the stack keeps that bound.
#[verifier::external_body]
pub(crate) fn ui_dfs_next(dfs: &mut StoreDfs, g: &UiGraph) -> (next: Option<usize>)
    requires
        forall|i: int| 0 <= i < dfs_stack(*old(dfs)).len() ==> #[trigger] dfs_stack(*old(dfs))[i] < dfs_capacity(*old(dfs)),
        ui_nodes(*g).len() <= dfs_capacity(*old(dfs)),
    ensures
        ui_dfs_pending(*old(dfs), *g).len() == 0 ==> next is None,
        ui_dfs_pending(*old(dfs), *g).len() > 0 ==> next == Some(ui_dfs_pending(*old(dfs), *g)[0] as usize),
        ui_dfs_pending(*final(dfs), *g) == (if ui_dfs_pending(*old(dfs), *g).len() == 0 {
            ui_dfs_pending(*old(dfs), *g)
        } else {
            ui_dfs_pending(*old(dfs), *g).drop_first()
        }),
        dfs_capacity(*final(dfs)) == dfs_capacity(*old(dfs)),
        forall|i: int| 0 <= i < dfs_stack(*final(dfs)).len() ==> #[trigger] dfs_stack(*final(dfs))[i] < dfs_capacity(*final(dfs)),
{
    dfs.next(g).map(|n| n.index())
}

} // verus!
