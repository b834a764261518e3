//! The stable graph that holds the widget tree, seen through a model of
//! plain values: its nodes (index to widget), each node's outgoing and
//! incoming edge lists (newest edge first), and what its walkers and
//! depth-first searches still have to yield.

use vstd::prelude::*;
use petgraph::stable_graph::{NodeIndex, StableGraph, WalkNeighbors};
use petgraph::visit::{Dfs, DfsPostOrder};
use petgraph::{Directed, Direction};
use fixedbitset::FixedBitSet;
use crate::graph_model::{list_at, list_edge, lists_without, other_than, search_order, EdgeDirection};
use crate::widget::WidgetContainer;

verus! {

#[verifier::external_type_specification]
#[verifier::external_body]
#[verifier::reject_recursive_types(N)]
#[verifier::reject_recursive_types(E)]
#[verifier::reject_recursive_types(Ty)]
#[verifier::reject_recursive_types(Ix)]
pub struct ExStableGraph<N, E, Ty, Ix>(StableGraph<N, E, Ty, Ix>);

#[verifier::external_type_specification]
#[verifier::external_body]
#[verifier::reject_recursive_types(Ix)]
pub struct ExNodeIndex<Ix>(NodeIndex<Ix>);

#[verifier::external_type_specification]
#[verifier::external_body]
#[verifier::reject_recursive_types(Ix)]
pub struct ExWalkNeighbors<Ix>(WalkNeighbors<Ix>);

#[verifier::external_type_specification]
#[verifier::external_body]
pub struct ExFixedBitSet(FixedBitSet);

#[verifier::external_type_specification]
#[verifier::external_body]
pub struct ExDirected(Directed);

#[verifier::external_type_specification]
#[verifier::external_body]
#[verifier::reject_recursive_types(N)]
#[verifier::reject_recursive_types(VM)]
pub struct ExDfs<N, VM>(Dfs<N, VM>);

#[verifier::external_type_specification]
#[verifier::external_body]
#[verifier::reject_recursive_types(N)]
#[verifier::reject_recursive_types(VM)]
pub struct ExDfsPostOrder<N, VM>(DfsPostOrder<N, VM>);

/// The graph that holds the widget tree.
pub type WidgetStore = StableGraph<WidgetContainer, ()>;

/// A preorder depth-first search over the widget store.
pub type StoreDfs = Dfs<NodeIndex<u32>, FixedBitSet>;

/// A postorder depth-first search over the widget store.
pub type StorePostOrder = DfsPostOrder<NodeIndex<u32>, FixedBitSet>;

/// The live nodes of the store: node index to weight.
pub uninterp spec fn store_nodes(g: StableGraph<WidgetContainer, ()>) -> Map<nat, WidgetContainer>;

/// For each live node, the targets of the edges that start at it, newest
/// edge first (the node's outgoing edge list).
pub uninterp spec fn store_out(g: StableGraph<WidgetContainer, ()>) -> Map<nat, Seq<nat>>;

/// For each live node, the sources of the edges that end at it, newest
/// edge first (the node's incoming edge list).
pub uninterp spec fn store_in(g: StableGraph<WidgetContainer, ()>) -> Map<nat, Seq<nat>>;

/// The number of edges of the store.
pub uninterp spec fn store_edge_count(g: StableGraph<WidgetContainer, ()>) -> nat;

/// The nodes that the neighbor walker `w` yields, one per call, when it is
/// stepped on the store `g` until it is exhausted.
pub uninterp spec fn walk_pending(w: WalkNeighbors<u32>, g: StableGraph<WidgetContainer, ()>) -> Seq<nat>;

/// The nodes that the search `d` yields, one per call, when it is stepped on
/// the store `g` until it is exhausted.
pub uninterp spec fn dfs_pending(d: Dfs<NodeIndex<u32>, FixedBitSet>, g: StableGraph<WidgetContainer, ()>) -> Seq<nat>;

/// The nodes on the stack of the search `d`, bottom first.
pub uninterp spec fn dfs_stack(d: Dfs<NodeIndex<u32>, FixedBitSet>) -> Seq<nat>;

/// The number of node indices that the visit map of `d` was made for.
pub uninterp spec fn dfs_capacity(d: Dfs<NodeIndex<u32>, FixedBitSet>) -> nat;

/// The nodes that the postorder search `d` yields, one per call, when it is
/// stepped on the store `g` until it is exhausted.
pub uninterp spec fn post_order_pending(d: DfsPostOrder<NodeIndex<u32>, FixedBitSet>, g: StableGraph<WidgetContainer, ()>) -> Seq<nat>;

/// The nodes on the stack of the postorder search `d`, bottom first.
pub uninterp spec fn post_order_stack(d: DfsPostOrder<NodeIndex<u32>, FixedBitSet>) -> Seq<nat>;

/// The number of node indices that the visit maps of `d` were made for.
pub uninterp spec fn post_order_capacity(d: DfsPostOrder<NodeIndex<u32>, FixedBitSet>) -> nat;

/// The index that petgraph uses for "no node": the largest `u32`.
pub open spec fn end_index() -> nat {
    4294967295
}

/// The neighbors of `a` in the given direction, newest edge first; none
/// when `a` is not a live node.
pub open spec fn store_neighbors(g: WidgetStore, a: nat, direction: EdgeDirection) -> Seq<nat> {
    match direction {
        EdgeDirection::Outgoing => list_at(store_out(g), a),
        EdgeDirection::Incoming => list_at(store_in(g), a),
    }
}

/// The number of edges with an end at node `a`: every edge into it, and
/// every edge from it to another node (a loop at `a` counted once).
pub open spec fn store_edges_at(g: WidgetStore, a: nat) -> nat {
    list_at(store_in(g), a).len() + list_at(store_out(g), a).filter(other_than(a)).len()
}

/// The edge relation of the store: `b` is a target of an edge from `a`.
pub open spec fn store_edge(g: WidgetStore) -> spec_fn(nat, nat) -> bool {
    list_edge(store_out(g))
}

/// Shape facts that hold of every store: finitely many nodes, all below the
/// end index, a pair of edge lists for each live node and no other, and
/// only live nodes on those lists.
pub open spec fn store_shape(g: WidgetStore) -> bool {
    &&& store_nodes(g).dom().finite()
    &&& forall|k: nat| store_nodes(g).contains_key(k) ==> k < end_index()
    &&& store_out(g).dom() == store_nodes(g).dom()
    &&& store_in(g).dom() == store_nodes(g).dom()
    &&& forall|a: nat, i: int| store_out(g).contains_key(a) && 0 <= i < store_out(g)[a].len()
        ==> store_nodes(g).contains_key(#[trigger] store_out(g)[a][i])
    &&& forall|a: nat, i: int| store_in(g).contains_key(a) && 0 <= i < store_in(g)[a].len()
        ==> store_nodes(g).contains_key(#[trigger] store_in(g)[a][i])
}

/// `g2` differs from `g1` at most in node weights: every walker and search
/// yields the same nodes on both.
pub open spec fn same_structure(g1: WidgetStore, g2: WidgetStore) -> bool {
    &&& store_nodes(g1).dom() == store_nodes(g2).dom()
    &&& store_out(g1) == store_out(g2)
    &&& store_in(g1) == store_in(g2)
    &&& store_edge_count(g1) == store_edge_count(g2)
    &&& forall|w: WalkNeighbors<u32>| #[trigger] walk_pending(w, g2) == walk_pending(w, g1)
    &&& forall|d: StoreDfs| #[trigger] dfs_pending(d, g2) == dfs_pending(d, g1)
    &&& forall|d: StorePostOrder| #[trigger] post_order_pending(d, g2) == post_order_pending(d, g1)
}

/// `StableGraph::new`: an empty directed graph.
#[verifier::external_body]
pub(crate) fn store_new() -> (store: WidgetStore)
    ensures
        store_nodes(store).dom() == Set::<nat>::empty(),
        store_out(store).dom() == Set::<nat>::empty(),
        store_in(store).dom() == Set::<nat>::empty(),
        store_edge_count(store) == 0,
{
    StableGraph::new()
}

/// `StableGraph::add_node`: stores `weight` under an index that no live node
/// has (a vacant slot if there is one, else a new one), with empty edge
/// lists, and returns it. It panics when the graph already has `u32::MAX`
/// nodes. Which vacant slot is taken is not stated.
#[verifier::external_body]
pub(crate) fn store_add_node(g: &mut WidgetStore, weight: WidgetContainer) -> (index: usize)
    requires
        store_nodes(*old(g)).len() < end_index(),
    ensures
        !store_nodes(*old(g)).contains_key(index as nat),
        index < end_index(),
        store_nodes(*final(g)) == store_nodes(*old(g)).insert(index as nat, weight),
        store_out(*final(g)) == store_out(*old(g)).insert(index as nat, Seq::<nat>::empty()),
        store_in(*final(g)) == store_in(*old(g)).insert(index as nat, Seq::<nat>::empty()),
        store_edge_count(*final(g)) == store_edge_count(*old(g)),
{
    g.add_node(weight).index()
}

/// `StableGraph::add_edge`: adds the edge `a -> b` at the head of the
/// outgoing list of `a` and of the incoming list of `b`. It panics unless
/// both ends are live nodes, and when the graph already has `u32::MAX`
/// edges.
#[verifier::external_body]
pub(crate) fn store_add_edge(g: &mut WidgetStore, a: usize, b: usize)
    requires
        store_nodes(*old(g)).contains_key(a as nat),
        store_nodes(*old(g)).contains_key(b as nat),
        store_edge_count(*old(g)) < end_index(),
    ensures
        store_nodes(*final(g)) == store_nodes(*old(g)),
        store_out(*final(g)) == store_out(*old(g)).insert(a as nat, seq![b as nat] + store_out(*old(g))[a as nat]),
        store_in(*final(g)) == store_in(*old(g)).insert(b as nat, seq![a as nat] + store_in(*old(g))[b as nat]),
        store_edge_count(*final(g)) == store_edge_count(*old(g)) + 1,
{
    g.add_edge(NodeIndex::new(a), NodeIndex::new(b), ());
}

/// `StableGraph::remove_node`: removes node `a` with every edge that starts
/// or ends at it (so `a` leaves every other node's lists, which keep their
/// order) and returns its weight; `None`, with nothing changed, when `a` is
/// not a live node. The edge count falls by the number of edges that had an
/// end at `a` (its outgoing edges go first, each unlinked from both lists,
/// then what is left on its incoming list).
#[verifier::external_body]
pub(crate) fn store_remove_node(g: &mut WidgetStore, a: usize) -> (removed: Option<WidgetContainer>)
    requires
        a < end_index(),
    ensures
        store_nodes(*old(g)).contains_key(a as nat) ==> {
            &&& removed == Some(store_nodes(*old(g))[a as nat])
            &&& store_nodes(*final(g)) == store_nodes(*old(g)).remove(a as nat)
            &&& store_out(*final(g)) == lists_without(store_out(*old(g)), a as nat)
            &&& store_in(*final(g)) == lists_without(store_in(*old(g)), a as nat)
            &&& store_edge_count(*final(g)) + store_edges_at(*old(g), a as nat) == store_edge_count(*old(g))
        },
        !store_nodes(*old(g)).contains_key(a as nat) ==> {
            &&& removed is None
            &&& store_nodes(*final(g)) == store_nodes(*old(g))
            &&& store_out(*final(g)) == store_out(*old(g))
            &&& store_in(*final(g)) == store_in(*old(g))
            &&& store_edge_count(*final(g)) == store_edge_count(*old(g))
        },
{
    g.remove_node(NodeIndex::new(a))
}

/// `StableGraph::node_weight_mut`: the weight of node `a` to change in
/// place, `None` when `a` is not a live node. Only that weight changes.
#[verifier::external_body]
pub(crate) fn store_node_weight_mut(g: &mut WidgetStore, a: usize) -> (weight: Option<&mut WidgetContainer>)
    requires
        a < end_index(),
    ensures
        store_nodes(*old(g)).contains_key(a as nat) ==> {
            &&& weight is Some
            &&& *weight.unwrap() == store_nodes(*old(g))[a as nat]
            &&& store_nodes(*final(g)) == store_nodes(*old(g)).insert(a as nat, *final(weight.unwrap()))
        },
        !store_nodes(*old(g)).contains_key(a as nat) ==> {
            &&& weight is None
            &&& store_nodes(*final(g)) == store_nodes(*old(g))
        },
        same_structure(*old(g), *final(g)),
{
    g.node_weight_mut(NodeIndex::new(a))
}

/// `graph[a]` (`Index` for `StableGraph`): the weight of the live node `a`;
/// it panics when `a` is not a live node.
#[verifier::external_body]
pub(crate) fn store_node_weight(g: &WidgetStore, a: usize) -> (weight: &WidgetContainer)
    requires
        store_nodes(*g).contains_key(a as nat),
    ensures
        *weight == store_nodes(*g)[a as nat],
{
    &g[NodeIndex::new(a)]
}

/// `NodeIndex::end`: the index that stands for no node.
#[verifier::external_body]
pub(crate) fn node_index_end() -> (index: usize)
    ensures
        index == end_index(),
{
    NodeIndex::<u32>::end().index()
}

/// `neighbors_directed(a, direction).detach()`: a walker along the edge
/// list of `a` in the given direction (outgoing: the targets of the edges
/// from `a`; incoming: the sources of the edges into `a`), newest edge
/// first; it yields nothing when `a` is not a live node.
#[verifier::external_body]
pub(crate) fn store_walker(g: &WidgetStore, a: usize, direction: EdgeDirection) -> (walker: WalkNeighbors<u32>)
    requires
        a <= end_index(),
    ensures
        walk_pending(walker, *g) == store_neighbors(*g, a as nat, direction),
{
    let dir = match direction {
        EdgeDirection::Outgoing => Direction::Outgoing,
        EdgeDirection::Incoming => Direction::Incoming,
    };
    g.neighbors_directed(NodeIndex::new(a), dir).detach()
}

/// `WalkNeighbors::next_node`: the next node of the walk on `g`.
#[verifier::external_body]
pub(crate) fn walker_next(walker: &mut WalkNeighbors<u32>, g: &WidgetStore) -> (next: Option<usize>)
    ensures
        walk_pending(*old(walker), *g).len() == 0 ==> next is None,
        walk_pending(*old(walker), *g).len() > 0 ==> next == Some(walk_pending(*old(walker), *g)[0] as usize),
        walk_pending(*final(walker), *g) == (if walk_pending(*old(walker), *g).len() == 0 {
            walk_pending(*old(walker), *g)
        } else {
            walk_pending(*old(walker), *g).drop_first()
        }),
{
    walker.next_node(g).map(|n| n.index())
}

/// `Dfs::new(&graph, start)`: a preorder search whose stack holds `start`
/// and whose visit map covers every node index of `g`. Stepped on `g`, it
/// yields each node reachable from a live `start` once, `start` first and
/// every other node after a node that has an edge to it (it is pushed when
/// that node is visited).
#[verifier::external_body]
pub(crate) fn store_dfs(g: &WidgetStore, start: usize) -> (dfs: StoreDfs)
    requires
        start < end_index(),
    ensures
        dfs_stack(dfs) == seq![start as nat],
        forall|k: nat| store_nodes(*g).contains_key(k) ==> k < dfs_capacity(dfs),
        store_nodes(*g).contains_key(start as nat) ==> search_order(dfs_pending(dfs, *g), store_edge(*g), start as nat, true),
{
    Dfs::new(g, NodeIndex::new(start))
}

/// `Dfs::next`: the next node of the search on `g`. Every node that is on
/// the stack, and every live node of `g`, must lie below the visit map's
/// capacity (else it panics); the stack keeps that bound.
#[verifier::external_body]
pub(crate) fn store_dfs_next(dfs: &mut StoreDfs, g: &WidgetStore) -> (next: Option<usize>)
    requires
        forall|i: int| 0 <= i < dfs_stack(*old(dfs)).len() ==> #[trigger] dfs_stack(*old(dfs))[i] < dfs_capacity(*old(dfs)),
        forall|k: nat| store_nodes(*g).contains_key(k) ==> k < dfs_capacity(*old(dfs)),
    ensures
        dfs_pending(*old(dfs), *g).len() == 0 ==> next is None,
        dfs_pending(*old(dfs), *g).len() > 0 ==> next == Some(dfs_pending(*old(dfs), *g)[0] as usize),
        dfs_pending(*final(dfs), *g) == (if dfs_pending(*old(dfs), *g).len() == 0 {
            dfs_pending(*old(dfs), *g)
        } else {
            dfs_pending(*old(dfs), *g).drop_first()
        }),
        dfs_capacity(*final(dfs)) == dfs_capacity(*old(dfs)),
        forall|i: int| 0 <= i < dfs_stack(*final(dfs)).len() ==> #[trigger] dfs_stack(*final(dfs))[i] < dfs_capacity(*final(dfs)),
{
    dfs.next(g).map(|n| n.index())
}

/// `DfsPostOrder::new(&graph, start)`: a postorder search whose stack holds
/// `start` and whose visit maps cover every node index of `g`. Stepped on
/// `g`, it yields each node reachable from a live `start` once, `start`
/// last and every other node before a node that has an edge to it (a node
/// is yielded once everything pushed above it is finished).
#[verifier::external_body]
pub(crate) fn store_post_order(g: &WidgetStore, start: usize) -> (dfs: StorePostOrder)
    requires
        start < end_index(),
    ensures
        post_order_stack(dfs) == seq![start as nat],
        forall|k: nat| store_nodes(*g).contains_key(k) ==> k < post_order_capacity(dfs),
        store_nodes(*g).contains_key(start as nat) ==> search_order(post_order_pending(dfs, *g), store_edge(*g), start as nat, false),
{
    DfsPostOrder::new(g, NodeIndex::new(start))
}

/// `DfsPostOrder::next`: the next node of the postorder search on `g`.
/// Every node that is on the stack, and every live node of `g`, must lie
/// below the visit maps' capacity (else it panics); the stack keeps that
/// bound.
#[verifier::external_body]
pub(crate) fn store_post_order_next(dfs: &mut StorePostOrder, g: &WidgetStore) -> (next: Option<usize>)
    requires
        forall|i: int| 0 <= i < post_order_stack(*old(dfs)).len() ==> #[trigger] post_order_stack(*old(dfs))[i] < post_order_capacity(*old(dfs)),
        forall|k: nat| store_nodes(*g).contains_key(k) ==> k < post_order_capacity(*old(dfs)),
    ensures
        post_order_pending(*old(dfs), *g).len() == 0 ==> next is None,
        post_order_pending(*old(dfs), *g).len() > 0 ==> next == Some(post_order_pending(*old(dfs), *g)[0] as usize),
        post_order_pending(*final(dfs), *g) == (if post_order_pending(*old(dfs), *g).len() == 0 {
            post_order_pending(*old(dfs), *g)
        } else {
            post_order_pending(*old(dfs), *g).drop_first()
        }),
        post_order_capacity(*final(dfs)) == post_order_capacity(*old(dfs)),
        forall|i: int| 0 <= i < post_order_stack(*final(dfs)).len() ==> #[trigger] post_order_stack(*final(dfs))[i] < post_order_capacity(*final(dfs)),
{
    dfs.next(g).map(|n| n.index())
}

} // verus!
