//! The widget tree: a stable graph of widgets with edges from parent to
//! child, a map from widget id to node index, and walkers that yield the
//! ids of a widget's parents, children, subtree, or of the widgets under
//! the cursor.

use std::collections::HashMap;
use vstd::prelude::*;
use petgraph::stable_graph::WalkNeighbors;
use crate::graph_model::{
    lemma_filter_absent, lemma_filter_contains_iff, lemma_filter_no_duplicates, list_at, list_edge,
    lists_without, other_than, reaches, search_order, is_path, EdgeDirection,
};
use crate::widget::{Widget, WidgetContainer, WidgetId};
use crate::widget_store::{
    dfs_capacity, dfs_pending, dfs_stack, end_index, node_index_end, post_order_capacity,
    post_order_pending, post_order_stack, same_structure, store_add_edge, store_add_node,
    store_dfs, store_dfs_next, store_edge_count, store_edges_at, store_in, store_neighbors, store_new,
    store_node_weight, store_node_weight_mut, store_nodes, store_out, store_post_order,
    store_post_order_next, store_remove_node, store_shape, store_walker, walk_pending,
    walker_next, StoreDfs, StorePostOrder, WidgetStore,
};

verus! {

broadcast use vstd::std_specs::hash::group_hash_axioms;

/// The widget tree. Its fields are public so that contracts elsewhere can
/// speak of the graph a walker is stepped on and of where ids are stored.
pub struct WidgetGraph {
    pub graph: WidgetStore,
    pub root_id: WidgetId,
    pub widget_map: HashMap<WidgetId, usize>,
}

/// `depth` is larger at the end of every edge of `lists` than at its start.
pub open spec fn depth_grows(lists: Map<nat, Seq<nat>>, depth: spec_fn(nat) -> nat) -> bool {
    forall|a: nat, b: nat| #[trigger] list_at(lists, a).contains(b) ==> depth(a) < depth(b)
}

/// The ids of the widgets at the given node indices of `nodes`, in order.
pub open spec fn ids_of(nodes: Map<nat, WidgetContainer>, indices: Seq<nat>) -> Seq<WidgetId> {
    indices.map_values(|n: nat| nodes[n].widget.id)
}

impl WidgetGraph {
    /// Where each widget id is stored.
    pub open spec fn index_map(&self) -> Map<WidgetId, usize> {
        self.widget_map@
    }

    /// The graph that holds the tree.
    pub open spec fn store(&self) -> WidgetStore {
        self.graph
    }

    /// The id of the root widget.
    pub open spec fn root(&self) -> WidgetId {
        self.root_id
    }

    /// The live nodes of the tree.
    pub open spec fn nodes(&self) -> Map<nat, WidgetContainer> {
        store_nodes(self.graph)
    }

    /// Each live node's children, newest first.
    pub open spec fn out_lists(&self) -> Map<nat, Seq<nat>> {
        store_out(self.graph)
    }

    /// Each live node's parents, newest edge first.
    pub open spec fn in_lists(&self) -> Map<nat, Seq<nat>> {
        store_in(self.graph)
    }

    /// The number of parent-to-child edges.
    pub open spec fn edge_count(&self) -> nat {
        store_edge_count(self.graph)
    }

    /// Every node has at most one parent, the child lists and the parent
    /// lists describe the same edges, and no child is listed twice.
    pub open spec fn single_parents(&self) -> bool {
        &&& forall|n: nat| #[trigger] self.in_lists().contains_key(n) ==> self.in_lists()[n].len() <= 1
        &&& forall|a: nat, b: nat|
            #![trigger self.out_lists()[a].contains(b)]
            #![trigger self.in_lists()[b].contains(a)]
            self.nodes().contains_key(a) && self.nodes().contains_key(b)
                ==> (self.out_lists()[a].contains(b) <==> self.in_lists()[b].contains(a))
        &&& forall|a: nat| #[trigger] self.out_lists().contains_key(a) ==> self.out_lists()[a].no_duplicates()
    }

    /// The shape of the store holds, every id points at a live node, no two
    /// ids at the same one, and every node has at most one parent.
    pub open spec fn wf(&self) -> bool {
        &&& store_shape(self.graph)
        &&& forall|id: WidgetId| #[trigger] self.index_map().contains_key(id)
            ==> self.nodes().contains_key(self.index_map()[id] as nat)
        &&& forall|a: WidgetId, b: WidgetId|
            #[trigger] self.index_map().contains_key(a) && #[trigger] self.index_map().contains_key(b) && a != b
            ==> self.index_map()[a] != self.index_map()[b]
        &&& self.single_parents()
    }

    /// The node of the widget with id `id`, if the tree knows that id.
    pub open spec fn node_of(&self, id: WidgetId) -> Option<nat> {
        if self.index_map().contains_key(id) {
            Some(self.index_map()[id] as nat)
        } else {
            None
        }
    }

    /// The stored container of widget `id`, if the tree knows that id.
    pub open spec fn container_of(&self, id: WidgetId) -> Option<WidgetContainer> {
        match self.node_of(id) {
            Some(n) => Some(self.nodes()[n]),
            None => None,
        }
    }

    /// The widget with id `id`, if the tree knows that id.
    pub open spec fn widget_of(&self, id: WidgetId) -> Option<Widget> {
        match self.node_of(id) {
            Some(n) => Some(self.nodes()[n].widget),
            None => None,
        }
    }

    /// The nodes of the children of widget `id`, newest first.
    pub open spec fn child_nodes(&self, id: WidgetId) -> Seq<nat> {
        match self.node_of(id) {
            Some(n) => list_at(self.out_lists(), n),
            None => Seq::empty(),
        }
    }

    /// The nodes of the parents of widget `id`, newest edge first.
    pub open spec fn parent_nodes(&self, id: WidgetId) -> Seq<nat> {
        match self.node_of(id) {
            Some(n) => list_at(self.in_lists(), n),
            None => Seq::empty(),
        }
    }

    /// The id of the parent of widget `id`: the source of the newest edge
    /// into it.
    pub open spec fn parent_of(&self, id: WidgetId) -> Option<WidgetId> {
        if self.parent_nodes(id).len() > 0 {
            Some(self.nodes()[self.parent_nodes(id)[0]].widget.id)
        } else {
            None
        }
    }

    /// The node a new widget is linked under: that of `parent_id`, when it
    /// names a widget this tree knows.
    pub open spec fn linked_parent(&self, parent_id: Option<WidgetId>) -> Option<nat> {
        match parent_id {
            Some(p) => self.node_of(p),
            None => None,
        }
    }

    /// `after` is this tree with `widget` added under the fresh node
    /// `index` with no edges, its id recorded, and, when `parent_id` names a
    /// widget known once that id is recorded, an edge from the parent's node
    /// to `index` at the head of the parent's children.
    pub open spec fn adds(self, after: Self, widget: WidgetContainer, parent_id: Option<WidgetId>, index: usize) -> bool {
        let n = index as nat;
        let out1 = self.out_lists().insert(n, Seq::<nat>::empty());
        let in1 = self.in_lists().insert(n, Seq::<nat>::empty());
        &&& !self.nodes().contains_key(n)
        &&& after.nodes() == self.nodes().insert(n, widget)
        &&& after.index_map() == self.index_map().insert(widget.widget.id, index)
        &&& after.root() == self.root()
        &&& match after.linked_parent(parent_id) {
            Some(p) => {
                &&& after.out_lists() == out1.insert(p, seq![n] + out1[p])
                &&& after.in_lists() == in1.insert(n, seq![p] + in1[n])
                &&& after.edge_count() == self.edge_count() + 1
            },
            None => {
                &&& after.out_lists() == out1
                &&& after.in_lists() == in1
                &&& after.edge_count() == self.edge_count()
            },
        }
    }

    /// `after` is this tree without widget `widget_id`, its node, and the
    /// edges into and out of that node, and `removed` is what was stored
    /// there; or, when the tree does not know that id, `after` is this tree
    /// and `removed` is `None`.
    pub open spec fn removes(self, after: Self, widget_id: WidgetId, removed: Option<WidgetContainer>) -> bool {
        &&& after.root() == self.root()
        &&& match self.node_of(widget_id) {
            Some(n) => {
                &&& removed == Some(self.nodes()[n])
                &&& after.nodes() == self.nodes().remove(n)
                &&& after.out_lists() == lists_without(self.out_lists(), n)
                &&& after.in_lists() == lists_without(self.in_lists(), n)
                &&& after.edge_count() + store_edges_at(self.graph, n) == self.edge_count()
                &&& after.index_map() == self.index_map().remove(widget_id)
            },
            None => {
                &&& removed is None
                &&& after.nodes() == self.nodes()
                &&& after.out_lists() == self.out_lists()
                &&& after.in_lists() == self.in_lists()
                &&& after.edge_count() == self.edge_count()
                &&& after.index_map() == self.index_map()
            },
        }
    }

    /// Every id the tree knows is the id of the widget stored for it.
    pub open spec fn ids_consistent(self) -> bool {
        forall|id: WidgetId| #[trigger] self.index_map().contains_key(id)
            ==> self.nodes()[self.index_map()[id] as nat].widget.id == id
    }

    /// No path leads from a node back to itself: some depth grows along
    /// every edge.
    pub open spec fn acyclic(self) -> bool {
        exists|depth: spec_fn(nat) -> nat| #[trigger] depth_grows(self.out_lists(), depth)
    }

    /// A forest whose id map agrees with its widgets: every node has at most
    /// one parent (part of `wf`), there are no cycles, and every id names
    /// the widget stored for it.
    pub open spec fn forest(self) -> bool {
        &&& self.wf()
        &&& self.acyclic()
        &&& self.ids_consistent()
    }

    /// The ids of the children of widget `id`, newest first.
    pub open spec fn children_ids(self, id: WidgetId) -> Seq<WidgetId> {
        ids_of(self.nodes(), self.child_nodes(id))
    }

    /// An empty tree whose root will be the widget with id `root_id`.
    pub fn new(root_id: WidgetId) -> (tree: Self)
        ensures
            tree.wf(),
            tree.root() == root_id,
            tree.nodes().dom() == Set::<nat>::empty(),
            tree.edge_count() == 0,
            tree.index_map().dom() == Set::<WidgetId>::empty(),
    {
        let tree = WidgetGraph { graph: store_new(), widget_map: HashMap::new(), root_id };
        assert(tree.out_lists().dom() =~= tree.nodes().dom());
        assert(tree.in_lists().dom() =~= tree.nodes().dom());
        tree
    }

    /// The node of widget `widget_id`, if the tree knows that id.
    fn find_widget(&self, widget_id: WidgetId) -> (found: Option<usize>)
        requires
            self.wf(),
        ensures
            found == (match self.node_of(widget_id) {
                Some(n) => Some(n as usize),
                None => None,
            }),
            found matches Some(n) ==> self.nodes().contains_key(n as nat) && n < end_index(),
    {
        match self.widget_map.get(&widget_id) {
            Some(index) => Some(*index),
            None => None,
        }
    }

    /// The widget with id `widget_id`, to change in place; `None` when the
    /// tree does not know that id.
    pub fn get_widget(&mut self, widget_id: WidgetId) -> (widget: Option<&mut Widget>)
        requires
            old(self).wf(),
        ensures
            match old(self).node_of(widget_id) {
                Some(n) => {
                    &&& widget is Some
                    &&& Some(*widget.unwrap()) == old(self).widget_of(widget_id)
                    &&& final(self).nodes() == old(self).nodes().insert(
                        n,
                        (WidgetContainer { widget: *final(widget.unwrap()) }),
                    )
                },
                None => widget is None && final(self).nodes() == old(self).nodes(),
            },
            same_structure(old(self).store(), final(self).store()),
            final(self).index_map() == old(self).index_map(),
            final(self).root() == old(self).root(),
            final(self).wf(),
    {
        proof { lemma_same_structure_keeps_shape(*self); }
        match self.find_widget(widget_id) {
            Some(index) => match store_node_weight_mut(&mut self.graph, index) {
                Some(container) => Some(&mut container.widget),
                None => None,
            },
            None => None,
        }
    }

    /// The stored container of widget `widget_id`, to change in place;
    /// `None` when the tree does not know that id.
    pub fn get_widget_container(&mut self, widget_id: WidgetId) -> (container: Option<&mut WidgetContainer>)
        requires
            old(self).wf(),
        ensures
            match old(self).node_of(widget_id) {
                Some(n) => {
                    &&& container is Some
                    &&& Some(*container.unwrap()) == old(self).container_of(widget_id)
                    &&& final(self).nodes() == old(self).nodes().insert(n, *final(container.unwrap()))
                },
                None => container is None && final(self).nodes() == old(self).nodes(),
            },
            same_structure(old(self).store(), final(self).store()),
            final(self).index_map() == old(self).index_map(),
            final(self).root() == old(self).root(),
            final(self).wf(),
    {
        proof { lemma_same_structure_keeps_shape(*self); }
        match self.find_widget(widget_id) {
            Some(index) => store_node_weight_mut(&mut self.graph, index),
            None => None,
        }
    }

    /// Adds `widget` under a fresh node and records its id; when `parent_id`
    /// names a widget the tree knows (looked up after the new id is
    /// recorded), adds the edge from the parent to the new node. Returns
    /// the new node. A parent id the tree does not know is passed over.
    pub fn add_widget(&mut self, widget: WidgetContainer, parent_id: Option<WidgetId>) -> (index: usize)
        requires
            old(self).wf(),
            old(self).nodes().len() < end_index(),
            parent_id matches Some(p) && (old(self).index_map().contains_key(p) || p == widget.widget.id)
                ==> old(self).edge_count() < end_index(),
        ensures
            final(self).wf(),
            old(self).adds(*final(self), widget, parent_id, index),
            final(self).nodes().len() == old(self).nodes().len() + 1,
            final(self).node_of(widget.widget.id) == Some(index as nat),
            final(self).parent_nodes(widget.widget.id) == (match final(self).linked_parent(parent_id) {
                Some(p) => seq![p],
                None => Seq::<nat>::empty(),
            }),
            parent_id is Some && final(self).index_map().contains_key(parent_id.unwrap())
                ==> final(self).edge_count() == old(self).edge_count() + 1,
            !(parent_id is Some && final(self).index_map().contains_key(parent_id.unwrap()))
                ==> final(self).edge_count() == old(self).edge_count(),
            forall|a: nat| a != index as nat ==> #[trigger] list_at(final(self).in_lists(), a) == list_at(old(self).in_lists(), a),
            final(self).child_nodes(widget.widget.id) == (if final(self).linked_parent(parent_id) == Some(index as nat) {
                seq![index as nat]
            } else {
                Seq::<nat>::empty()
            }),
    {
        let ghost before = *self;
        let ghost given = widget;
        let id = widget.widget.id;
        let widget_index = store_add_node(&mut self.graph, widget);
        self.widget_map.insert(id, widget_index);
        let ghost n = widget_index as nat;
        proof { lemma_add_node_keeps_shape(before, *self, n); }
        let ghost mid = *self;
        if let Some(parent_id) = parent_id {
            if let Some(parent_index) = self.find_widget(parent_id) {
                store_add_edge(&mut self.graph, parent_index, widget_index);
                proof { lemma_add_edge_keeps_shape(mid, *self, parent_index as nat, n); }
            }
        }
        proof {
            assert(self.node_of(id) == Some(n));
            assert(mid.nodes().len() == before.nodes().len() + 1);
            law_add_links_only_known_parent(before, *self, given, parent_id, widget_index);
        }
        widget_index
    }

    /// Removes widget `widget_id`, with its node and every edge into or out
    /// of that node, and returns it; `None`, with nothing changed, when the
    /// tree does not know that id.
    pub fn remove_widget(&mut self, widget_id: WidgetId) -> (removed: Option<WidgetContainer>)
        requires
            old(self).wf(),
        ensures
            final(self).wf(),
            old(self).removes(*final(self), widget_id, removed),
            old(self).node_of(widget_id) is Some ==> final(self).nodes().len() == old(self).nodes().len() - 1,
            old(self).node_of(widget_id) is None ==> *final(self) == *old(self),
    {
        let ghost before = *self;
        if let Some(node_index) = self.find_widget(widget_id) {
            self.widget_map.remove(&widget_id);
            let removed = store_remove_node(&mut self.graph, node_index);
            proof { lemma_removal_keeps_shape(before, *self, node_index as nat); }
            if let Some(widget) = removed {
                return Some(widget);
            }
        }
        None
    }

    /// The node of the root widget.
    fn root_index(&self) -> (index: usize)
        requires
            self.wf(),
            self.node_of(self.root()) is Some,
        ensures
            Some(index as nat) == self.node_of(self.root()),
            self.nodes().contains_key(index as nat),
            index < end_index(),
    {
        match self.find_widget(self.root_id) {
            Some(index) => index,
            None => node_index_end(),
        }
    }

    /// The root widget, to change in place; the tree must know it.
    pub fn get_root(&mut self) -> (root: &mut Widget)
        requires
            old(self).wf(),
            old(self).node_of(old(self).root()) is Some,
        ensures
            Some(*root) == old(self).widget_of(old(self).root()),
            final(self).nodes() == old(self).nodes().insert(
                old(self).node_of(old(self).root()).unwrap(),
                (WidgetContainer { widget: *final(root) }),
            ),
            same_structure(old(self).store(), final(self).store()),
            final(self).index_map() == old(self).index_map(),
            final(self).root() == old(self).root(),
            final(self).wf(),
    {
        let root_id = self.root_id;
        self.get_widget(root_id).unwrap()
    }

    /// The id of the parent of widget `widget_id`: the source of the newest
    /// edge into its node; `None` when it has none or the tree does not
    /// know the id.
    pub fn parent(&mut self, widget_id: WidgetId) -> (parent: Option<WidgetId>)
        requires
            old(self).wf(),
        ensures
            parent == old(self).parent_of(widget_id),
            *final(self) == *old(self),
    {
        let node_index = match self.find_widget(widget_id) {
            Some(index) => index,
            None => node_index_end(),
        };
        let mut walker = NeighborsWalker::new(&self.graph, node_index, EdgeDirection::Incoming);
        walker.next(&self.graph)
    }

    /// A walker over the children of widget `widget_id`, newest first, each
    /// once; empty when the tree does not know the id.
    pub fn children(&mut self, widget_id: WidgetId) -> (walker: NeighborsWalker)
        requires
            old(self).wf(),
        ensures
            walker.pending(final(self).store()) == old(self).child_nodes(widget_id),
            walker.pending(final(self).store()).no_duplicates(),
            walker.valid_for(final(self).store()),
            *final(self) == *old(self),
    {
        let node_index = match self.find_widget(widget_id) {
            Some(index) => index,
            None => node_index_end(),
        };
        proof {
            if self.out_lists().contains_key(node_index as nat) {
                assert(self.out_lists()[node_index as nat].no_duplicates());
            }
        }
        NeighborsWalker::new(&self.graph, node_index, EdgeDirection::Outgoing)
    }

    /// A walker over the widgets of the whole tree in postorder (every
    /// widget before the widget it was reached from), from the root; its
    /// `next` yields those that are under `point`. The tree must know its
    /// root.
    pub fn widgets_under_cursor<P>(&mut self, point: P) -> (walker: CursorWidgetWalker<P>)
        requires
            old(self).wf(),
            old(self).node_of(old(self).root()) is Some,
        ensures
            walker.cursor() == point,
            walker.valid_for(final(self).store()),
            search_order(walker.pending(final(self).store()), list_edge(old(self).out_lists()), old(self).node_of(old(self).root()).unwrap(), false),
            *final(self) == *old(self),
    {
        let root_index = self.root_index();
        let walker = CursorWidgetWalker::new(point, &self.graph, root_index);
        proof { lemma_search_within(self.graph, walker.pending(self.graph), root_index as nat, false); }
        walker
    }

    /// A walker over the subtree of widget `widget_id` in preorder, starting
    /// with that widget. The tree must know the id.
    pub fn dfs(&mut self, widget_id: WidgetId) -> (walker: DfsWalker)
        requires
            old(self).wf(),
            old(self).node_of(widget_id) is Some,
        ensures
            walker.valid_for(final(self).store()),
            search_order(walker.pending(final(self).store()), list_edge(old(self).out_lists()), old(self).node_of(widget_id).unwrap(), true),
            *final(self) == *old(self),
    {
        let node_index = match self.find_widget(widget_id) {
            Some(index) => index,
            None => node_index_end(),
        };
        let walker = DfsWalker::new(&self.graph, node_index);
        proof { lemma_search_within(self.graph, walker.pending(self.graph), node_index as nat, true); }
        walker
    }
}

/// One call of a walker's `next` that went from `before` to `after` still
/// to visit and returned `next`: the id of the widget at the first node
/// still to visit, which is then passed; `None`, with nothing changed, when
/// nothing is left.
pub open spec fn walk_step(nodes: Map<nat, WidgetContainer>, before: Seq<nat>, after: Seq<nat>, next: Option<WidgetId>) -> bool {
    if before.len() == 0 {
        next is None && after == before
    } else {
        next == Some(nodes[before[0]].widget.id) && after == before.drop_first()
    }
}

/// What a whole run of walker steps returns: the ids of the widgets at the
/// nodes still to visit at the start, in order, then `None` on every later
/// call.
pub open spec fn run_yields(nodes: Map<nat, WidgetContainer>, first: Seq<nat>, results: Seq<Option<WidgetId>>) -> bool {
    forall|i: int| 0 <= i < results.len() ==> #[trigger] results[i] == (if i < first.len() {
        Some(nodes[first[i]].widget.id)
    } else {
        None
    })
}

/// Over a run of steps, what is still to visit after `k` calls is what was
/// to visit at the start less its first `k` nodes.
proof fn lemma_walk_run(nodes: Map<nat, WidgetContainer>, pendings: Seq<Seq<nat>>, results: Seq<Option<WidgetId>>, k: int)
    requires
        pendings.len() == results.len() + 1,
        forall|i: int| 0 <= i < results.len() ==> walk_step(nodes, #[trigger] pendings[i], pendings[i + 1], results[i]),
        0 <= k <= results.len(),
    ensures
        pendings[k] == pendings[0].skip(if k < pendings[0].len() { k } else { pendings[0].len() as int }),
        forall|i: int| 0 <= i < k ==> #[trigger] results[i] == (if i < pendings[0].len() {
            Some(nodes[pendings[0][i]].widget.id)
        } else {
            None
        }),
    decreases k,
{
    let first = pendings[0];
    if k == 0 {
        assert(first.skip(0) =~= first);
    } else {
        lemma_walk_run(nodes, pendings, results, k - 1);
        let j = k - 1;
        assert(walk_step(nodes, pendings[j], pendings[j + 1], results[j]));
        if j < first.len() {
            assert(pendings[j][0] == first[j]);
            assert(pendings[j].drop_first() =~= first.skip(j + 1));
        } else {
            assert(pendings[j].len() == 0);
        }
    }
}

/// Yields the ids of the neighbors of one node, newest edge first, on the
/// graph it is stepped on.
pub struct NeighborsWalker {
    neighbors: WalkNeighbors<u32>,
}

impl NeighborsWalker {
    /// The nodes still to be yielded on `graph`.
    pub closed spec fn pending(&self, graph: WidgetStore) -> Seq<nat> {
        walk_pending(self.neighbors, graph)
    }

    /// Every node still to be yielded on `graph` is a live node of it.
    pub open spec fn valid_for(&self, graph: WidgetStore) -> bool {
        &&& store_shape(graph)
        &&& forall|i: int| 0 <= i < self.pending(graph).len() ==> store_nodes(graph).contains_key(#[trigger] self.pending(graph)[i])
    }

    fn new(graph: &WidgetStore, node_index: usize, direction: EdgeDirection) -> (walker: Self)
        requires
            node_index <= end_index(),
            store_shape(*graph),
        ensures
            walker.pending(*graph) == store_neighbors(*graph, node_index as nat, direction),
            walker.valid_for(*graph),
    {
        let walker = NeighborsWalker { neighbors: store_walker(graph, node_index, direction) };
        let ghost a = node_index as nat;
        assert forall|i: int| 0 <= i < walker.pending(*graph).len()
            implies store_nodes(*graph).contains_key(#[trigger] walker.pending(*graph)[i]) by {
            match direction {
                EdgeDirection::Outgoing => assert(store_out(*graph)[a][i] == walker.pending(*graph)[i]),
                EdgeDirection::Incoming => assert(store_in(*graph)[a][i] == walker.pending(*graph)[i]),
            }
        }
        walker
    }

    /// The id of the next neighbor, `None` when the walk is over.
    pub fn next(&mut self, graph: &WidgetStore) -> (next: Option<WidgetId>)
        requires
            old(self).valid_for(*graph),
        ensures
            walk_step(store_nodes(*graph), old(self).pending(*graph), final(self).pending(*graph), next),
            final(self).valid_for(*graph),
    {
        match walker_next(&mut self.neighbors, graph) {
            Some(node_index) => {
                assert(store_nodes(*graph).contains_key(old(self).pending(*graph)[0]));
                Some(store_node_weight(graph, node_index).widget.id)
            },
            None => None,
        }
    }

    /// The ids of all neighbors still to be yielded, in walk order.
    pub fn collect(&mut self, graph: &WidgetStore) -> (ids: Vec<WidgetId>)
        requires
            old(self).valid_for(*graph),
        ensures
            ids@ == ids_of(store_nodes(*graph), old(self).pending(*graph)),
            final(self).pending(*graph).len() == 0,
    {
        let mut ids: Vec<WidgetId> = Vec::new();
        let ghost all = ids_of(store_nodes(*graph), self.pending(*graph));
        loop
            invariant
                self.valid_for(*graph),
                all == ids_of(store_nodes(*graph), old(self).pending(*graph)),
                ids@ + ids_of(store_nodes(*graph), self.pending(*graph)) == all,
            decreases self.pending(*graph).len(),
        {
            let ghost before = self.pending(*graph);
            match self.next(graph) {
                Some(id) => {
                    assert(ids_of(store_nodes(*graph), before) == seq![id] + ids_of(store_nodes(*graph), self.pending(*graph)));
                    ids.push(id);
                },
                None => {
                    assert(ids@ == all);
                    return ids;
                },
            }
        }
    }
}

/// Yields, in postorder from the node it was made for, the ids of the
/// widgets that a caller-supplied test places under `point`.
pub struct CursorWidgetWalker<P> {
    point: P,
    dfs: StorePostOrder,
}

impl<P> CursorWidgetWalker<P> {
    /// The point the walker looks for widgets under.
    pub closed spec fn cursor(&self) -> P {
        self.point
    }
    /// The nodes the underlying postorder search still yields on `graph`.
    pub closed spec fn pending(&self, graph: WidgetStore) -> Seq<nat> {
        post_order_pending(self.dfs, graph)
    }

    /// The search can step on `graph` without panicking, and every node it
    /// still yields is a live node of `graph`.
    pub closed spec fn valid_for(&self, graph: WidgetStore) -> bool {
        &&& store_shape(graph)
        &&& forall|i: int| 0 <= i < post_order_stack(self.dfs).len() ==> #[trigger] post_order_stack(self.dfs)[i] < post_order_capacity(self.dfs)
        &&& forall|k: nat| store_nodes(graph).contains_key(k) ==> k < post_order_capacity(self.dfs)
        &&& forall|i: int| 0 <= i < self.pending(graph).len() ==> store_nodes(graph).contains_key(#[trigger] self.pending(graph)[i])
    }

    fn new(point: P, graph: &WidgetStore, root_index: usize) -> (walker: Self)
        requires
            root_index < end_index(),
            store_nodes(*graph).contains_key(root_index as nat),
        ensures
            walker.cursor() == point,
            walker.pending(*graph) == post_order_pending(walker.dfs, *graph),
            search_order(walker.pending(*graph), list_edge(store_out(*graph)), root_index as nat, false),
            forall|i: int| 0 <= i < post_order_stack(walker.dfs).len() ==> #[trigger] post_order_stack(walker.dfs)[i] < post_order_capacity(walker.dfs),
            forall|k: nat| store_nodes(*graph).contains_key(k) ==> k < post_order_capacity(walker.dfs),
    {
        CursorWidgetWalker { point, dfs: store_post_order(graph, root_index) }
    }

    /// `after` is this walker after one call of `next` on `graph` that
    /// returned `next`, with `is_mouse_over` as the test: the widgets of
    /// the search are tested in order up to the first that passes, whose id
    /// is returned, and the search goes on after it; `None` when none
    /// passes, and the search is over.
    pub open spec fn steps_to<F: Fn(&Widget, &P) -> bool>(
        self,
        after: Self,
        graph: WidgetStore,
        is_mouse_over: F,
        next: Option<WidgetId>,
    ) -> bool {
        &&& after.cursor() == self.cursor()
        &&& match next {
            Some(id) => exists|k: int| {
                &&& 0 <= k < self.pending(graph).len()
                &&& id == store_nodes(graph)[self.pending(graph)[k]].widget.id
                &&& is_mouse_over.ensures((&store_nodes(graph)[self.pending(graph)[k]].widget, &self.cursor()), true)
                &&& forall|j: int| 0 <= j < k ==> is_mouse_over.ensures(
                    (&store_nodes(graph)[#[trigger] self.pending(graph)[j]].widget, &self.cursor()), false)
                &&& after.pending(graph) == self.pending(graph).skip(k + 1)
            },
            None => {
                &&& after.pending(graph).len() == 0
                &&& forall|j: int| 0 <= j < self.pending(graph).len() ==> is_mouse_over.ensures(
                    (&store_nodes(graph)[#[trigger] self.pending(graph)[j]].widget, &self.cursor()), false)
            },
        }
    }

    /// The id of the next widget of the search that `is_mouse_over` places
    /// under the point; `None` when the search ends first. Every widget the
    /// search passes is tested once, in order, and the search stops after
    /// the first one that passes.
    pub fn next<F: Fn(&Widget, &P) -> bool>(&mut self, graph: &WidgetStore, is_mouse_over: F) -> (next: Option<WidgetId>)
        requires
            old(self).valid_for(*graph),
            forall|w: Widget, p: P| is_mouse_over.requires((&w, &p)),
        ensures
            final(self).valid_for(*graph),
            old(self).steps_to(*final(self), *graph, is_mouse_over, next),
    {
        let ghost all = self.pending(*graph);
        let ghost mut k: int = 0;
        loop
            invariant
                self.valid_for(*graph),
                self.point == old(self).point,
                all == old(self).pending(*graph),
                0 <= k <= all.len(),
                self.pending(*graph) == all.skip(k),
                forall|j: int| 0 <= j < k ==> is_mouse_over.ensures(
                    (&store_nodes(*graph)[#[trigger] all[j]].widget, &old(self).cursor()), false),
                forall|w: Widget, p: P| is_mouse_over.requires((&w, &p)),
            decreases all.len() - k,
        {
            let ghost before = self.pending(*graph);
            match store_post_order_next(&mut self.dfs, graph) {
                Some(node_index) => {
                    let ghost kk = k;
                    assert(before[0] == all[kk]);
                    assert(store_nodes(*graph).contains_key(before[0]));
                    let widget = &store_node_weight(graph, node_index).widget;
                    let over = is_mouse_over(widget, &self.point);
                    proof {
                        assert(self.pending(*graph) =~= all.skip(kk + 1));
                        k = kk + 1;
                    }
                    if over {
                        assert({
                            &&& 0 <= kk < all.len()
                            &&& widget.id == store_nodes(*graph)[all[kk]].widget.id
                            &&& is_mouse_over.ensures((&store_nodes(*graph)[all[kk]].widget, &old(self).cursor()), true)
                            &&& forall|j: int| 0 <= j < kk ==> is_mouse_over.ensures(
                                (&store_nodes(*graph)[#[trigger] all[j]].widget, &old(self).cursor()), false)
                            &&& self.pending(*graph) == all.skip(kk + 1)
                        });
                        return Some(widget.id);
                    }
                },
                None => {
                    return None;
                },
            }
        }
    }
}

/// Yields the ids of the widgets of a subtree in preorder, starting with
/// the widget it was made for.
pub struct DfsWalker {
    dfs: StoreDfs,
}

impl DfsWalker {
    /// The nodes the underlying search still yields on `graph`.
    pub closed spec fn pending(&self, graph: WidgetStore) -> Seq<nat> {
        dfs_pending(self.dfs, graph)
    }

    /// The search can step on `graph` without panicking, and every node it
    /// still yields is a live node of `graph`.
    pub closed spec fn valid_for(&self, graph: WidgetStore) -> bool {
        &&& store_shape(graph)
        &&& forall|i: int| 0 <= i < dfs_stack(self.dfs).len() ==> #[trigger] dfs_stack(self.dfs)[i] < dfs_capacity(self.dfs)
        &&& forall|k: nat| store_nodes(graph).contains_key(k) ==> k < dfs_capacity(self.dfs)
        &&& forall|i: int| 0 <= i < self.pending(graph).len() ==> store_nodes(graph).contains_key(#[trigger] self.pending(graph)[i])
    }

    fn new(graph: &WidgetStore, root_index: usize) -> (walker: Self)
        requires
            root_index < end_index(),
            store_nodes(*graph).contains_key(root_index as nat),
        ensures
            walker.pending(*graph) == dfs_pending(walker.dfs, *graph),
            search_order(walker.pending(*graph), list_edge(store_out(*graph)), root_index as nat, true),
            forall|i: int| 0 <= i < dfs_stack(walker.dfs).len() ==> #[trigger] dfs_stack(walker.dfs)[i] < dfs_capacity(walker.dfs),
            forall|k: nat| store_nodes(*graph).contains_key(k) ==> k < dfs_capacity(walker.dfs),
    {
        DfsWalker { dfs: store_dfs(graph, root_index) }
    }

    /// The id of the next widget of the search, `None` when it is over.
    pub fn next(&mut self, graph: &WidgetStore) -> (next: Option<WidgetId>)
        requires
            old(self).valid_for(*graph),
        ensures
            final(self).valid_for(*graph),
            walk_step(store_nodes(*graph), old(self).pending(*graph), final(self).pending(*graph), next),
    {
        match store_dfs_next(&mut self.dfs, graph) {
            Some(node_index) => {
                assert(store_nodes(*graph).contains_key(old(self).pending(*graph)[0]));
                Some(store_node_weight(graph, node_index).widget.id)
            },
            None => None,
        }
    }
}

/// Adding the node `n`, with empty edge lists and an id that points at
/// it, to a well-formed tree leaves a well-formed tree.
proof fn lemma_add_node_keeps_shape(before: WidgetGraph, after: WidgetGraph, n: nat)
    requires
        before.wf(),
        !before.nodes().contains_key(n),
        n < end_index(),
        exists|w: WidgetContainer| after.nodes() == #[trigger] before.nodes().insert(n, w)
            && after.index_map() == before.index_map().insert(w.widget.id, n as usize),
        after.out_lists() == before.out_lists().insert(n, Seq::<nat>::empty()),
        after.in_lists() == before.in_lists().insert(n, Seq::<nat>::empty()),
    ensures
        after.wf(),
        after.nodes().len() == before.nodes().len() + 1,
{
    let w = choose|w: WidgetContainer| after.nodes() == #[trigger] before.nodes().insert(n, w)
        && after.index_map() == before.index_map().insert(w.widget.id, n as usize);
    assert(after.out_lists().dom() =~= after.nodes().dom());
    assert(after.in_lists().dom() =~= after.nodes().dom());
    assert forall|k: nat| #[trigger] before.out_lists().contains_key(k) implies !before.out_lists()[k].contains(n) by {
        if before.out_lists()[k].contains(n) {
            let j = choose|j: int| 0 <= j < before.out_lists()[k].len() && before.out_lists()[k][j] == n;
        }
    }
    assert forall|k: nat| #[trigger] before.in_lists().contains_key(k) implies !before.in_lists()[k].contains(n) by {
        if before.in_lists()[k].contains(n) {
            let j = choose|j: int| 0 <= j < before.in_lists()[k].len() && before.in_lists()[k][j] == n;
        }
    }
    assert forall|a: nat, b: nat| after.nodes().contains_key(a) && after.nodes().contains_key(b)
        implies (after.out_lists()[a].contains(b) <==> after.in_lists()[b].contains(a)) by {
        if a != n && b != n {
            assert(before.nodes().contains_key(a) && before.nodes().contains_key(b));
            assert(before.out_lists()[a].contains(b) <==> before.in_lists()[b].contains(a));
        } else if a != n {
            assert(before.out_lists().contains_key(a));
        } else if b != n {
            assert(before.in_lists().contains_key(b));
        }
    }
    assert forall|a: nat, i: int| after.out_lists().contains_key(a) && 0 <= i < after.out_lists()[a].len()
        implies after.nodes().contains_key(#[trigger] after.out_lists()[a][i]) by {
        assert(before.nodes().contains_key(before.out_lists()[a][i]));
    }
    assert forall|a: nat, i: int| after.in_lists().contains_key(a) && 0 <= i < after.in_lists()[a].len()
        implies after.nodes().contains_key(#[trigger] after.in_lists()[a][i]) by {
        assert(before.nodes().contains_key(before.in_lists()[a][i]));
    }
    assert forall|x: WidgetId| #[trigger] after.index_map().contains_key(x)
        implies after.nodes().contains_key(after.index_map()[x] as nat) by {
        if x != w.widget.id {
            assert(before.index_map().contains_key(x));
        }
    }
    assert forall|x: WidgetId, y: WidgetId|
        #[trigger] after.index_map().contains_key(x) && #[trigger] after.index_map().contains_key(y) && x != y
        implies after.index_map()[x] != after.index_map()[y] by {
        if x != w.widget.id && y != w.widget.id {
            assert(before.index_map().contains_key(x) && before.index_map().contains_key(y));
        } else if x != w.widget.id {
            assert(before.index_map().contains_key(x));
            assert(before.nodes().contains_key(before.index_map()[x] as nat));
        } else {
            assert(before.index_map().contains_key(y));
            assert(before.nodes().contains_key(before.index_map()[y] as nat));
        }
    }
    assert(after.nodes().dom() =~= before.nodes().dom().insert(n));
}

/// Adding the edge `p -> n`, where `n` has no parent yet, to a well-formed
/// tree leaves a well-formed tree.
proof fn lemma_add_edge_keeps_shape(before: WidgetGraph, after: WidgetGraph, p: nat, n: nat)
    requires
        before.wf(),
        before.nodes().contains_key(p),
        before.nodes().contains_key(n),
        before.in_lists()[n].len() == 0,
        after.nodes() == before.nodes(),
        after.index_map() == before.index_map(),
        after.out_lists() == before.out_lists().insert(p, seq![n] + before.out_lists()[p]),
        after.in_lists() == before.in_lists().insert(n, seq![p] + before.in_lists()[n]),
    ensures
        after.wf(),
{
    assert(!before.out_lists()[p].contains(n)) by {
        if before.out_lists()[p].contains(n) {
            assert(before.in_lists()[n].contains(p));
        }
    }
    assert(after.out_lists().dom() =~= after.nodes().dom());
    assert(after.in_lists().dom() =~= after.nodes().dom());
    assert forall|a: nat, i: int| after.out_lists().contains_key(a) && 0 <= i < after.out_lists()[a].len()
        implies after.nodes().contains_key(#[trigger] after.out_lists()[a][i]) by {
        if a == p && i > 0 {
            assert(after.out_lists()[a][i] == before.out_lists()[a][i - 1]);
        } else if a != p {
            assert(after.out_lists()[a][i] == before.out_lists()[a][i]);
        }
    }
    assert forall|a: nat, i: int| after.in_lists().contains_key(a) && 0 <= i < after.in_lists()[a].len()
        implies after.nodes().contains_key(#[trigger] after.in_lists()[a][i]) by {
        if a != n {
            assert(after.in_lists()[a][i] == before.in_lists()[a][i]);
        }
    }
    assert forall|a: nat, b: nat| after.nodes().contains_key(a) && after.nodes().contains_key(b)
        implies (after.out_lists()[a].contains(b) <==> after.in_lists()[b].contains(a)) by {
        let ob = before.out_lists()[a];
        let ib = before.in_lists()[b];
        if a == p {
            let l = after.out_lists()[a];
            assert(l == seq![n] + ob);
            if l.contains(b) && b != n {
                let i = choose|i: int| 0 <= i < l.len() && l[i] == b;
                assert(ob[i - 1] == b);
            }
            if ob.contains(b) {
                let i = choose|i: int| 0 <= i < ob.len() && ob[i] == b;
                assert(l[i + 1] == b);
            }
            assert(l[0] == n);
        }
        if b == n {
            let l = after.in_lists()[b];
            assert(l == seq![p] + ib);
            assert(l[0] == p);
            if l.contains(a) && a != p {
                let i = choose|i: int| 0 <= i < l.len() && l[i] == a;
                assert(ib[i - 1] == a);
            }
        }
        assert(before.out_lists()[a].contains(b) <==> before.in_lists()[b].contains(a));
    }
    assert forall|a: nat| #[trigger] after.out_lists().contains_key(a) implies after.out_lists()[a].no_duplicates() by {
        if a == p {
            let l = after.out_lists()[a];
            let m = before.out_lists()[a];
            assert forall|i: int, j: int| 0 <= i < l.len() && 0 <= j < l.len() && i != j implies l[i] != l[j] by {
                if i > 0 && j > 0 {
                    assert(l[i] == m[i - 1] && l[j] == m[j - 1]);
                } else if i == 0 {
                    assert(l[j] == m[j - 1]);
                    assert(m.contains(l[j]));
                } else {
                    assert(l[i] == m[i - 1]);
                    assert(m.contains(l[i]));
                }
            }
        }
    }
    assert forall|a: nat| #[trigger] after.in_lists().contains_key(a) implies after.in_lists()[a].len() <= 1 by {
        if a != n {
            assert(before.in_lists().contains_key(a));
        }
    }
}

/// A change of node weights only, with the id map kept, keeps a tree
/// well-formed.
proof fn lemma_same_structure_keeps_shape(before: WidgetGraph)
    requires
        before.wf(),
    ensures
        forall|g: WidgetStore| #[trigger] same_structure(before.graph, g)
            ==> (WidgetGraph { graph: g, ..before }).wf(),
{
    assert forall|g: WidgetStore| #[trigger] same_structure(before.graph, g)
        implies (WidgetGraph { graph: g, ..before }).wf() by {
        let after = WidgetGraph { graph: g, ..before };
        assert forall|k: nat| after.nodes().contains_key(k) <==> before.nodes().contains_key(k) by {
            assert(after.nodes().dom().contains(k) <==> before.nodes().dom().contains(k));
        }
        assert(after.out_lists() == before.out_lists());
        assert(after.in_lists() == before.in_lists());
        assert(after.nodes().dom() == before.nodes().dom());
        assert(store_shape(g)) by {
            assert forall|a: nat, i: int| store_out(g).contains_key(a) && 0 <= i < store_out(g)[a].len()
                implies store_nodes(g).contains_key(#[trigger] store_out(g)[a][i]) by {
                assert(before.nodes().contains_key(before.out_lists()[a][i]));
            }
            assert forall|a: nat, i: int| store_in(g).contains_key(a) && 0 <= i < store_in(g)[a].len()
                implies store_nodes(g).contains_key(#[trigger] store_in(g)[a][i]) by {
                assert(before.nodes().contains_key(before.in_lists()[a][i]));
            }
        }
        assert(after.index_map() == before.index_map());
        assert(after.single_parents()) by {
            assert forall|a: nat, b: nat| after.nodes().contains_key(a) && after.nodes().contains_key(b)
                implies (after.out_lists()[a].contains(b) <==> after.in_lists()[b].contains(a)) by {
                assert(before.nodes().contains_key(a) && before.nodes().contains_key(b));
                assert(before.out_lists()[a].contains(b) <==> before.in_lists()[b].contains(a));
            }
        }
    }
}

/// Every node that a search from a live node yields is live.
pub proof fn lemma_search_within(g: WidgetStore, order: Seq<nat>, start: nat, start_first: bool)
    requires
        store_shape(g),
        store_nodes(g).contains_key(start),
        search_order(order, list_edge(store_out(g)), start, start_first),
    ensures
        forall|i: int| 0 <= i < order.len() ==> store_nodes(g).contains_key(#[trigger] order[i]),
{
    assert forall|i: int| 0 <= i < order.len() implies store_nodes(g).contains_key(#[trigger] order[i]) by {
        assert(order.contains(order[i]));
        let edge = list_edge(store_out(g));
        assert(reaches(edge, start, order[i]));
        let path = choose|path: Seq<nat>| #[trigger] is_path(edge, path) && path[0] == start && path.last() == order[i];
        if path.len() > 1 {
            let k = path.len() - 2;
            assert(edge(path[k], path[k + 1]));
            let a = path[k];
            let j = choose|j: int| 0 <= j < store_out(g)[a].len() && store_out(g)[a][j] == path[k + 1];
            assert(store_nodes(g).contains_key(store_out(g)[a][j]));
        }
    }
}

/// Removing node `n` with its edges from a well-formed tree whose id map
/// has already dropped the id of `n` leaves a well-formed tree.
proof fn lemma_removal_keeps_shape(before: WidgetGraph, after: WidgetGraph, n: nat)
    requires
        before.wf(),
        before.nodes().contains_key(n),
        after.nodes() == before.nodes().remove(n),
        after.out_lists() == lists_without(before.out_lists(), n),
        after.in_lists() == lists_without(before.in_lists(), n),
        exists|id: WidgetId| before.index_map().contains_key(id) && before.index_map()[id] == n
            && after.index_map() == #[trigger] before.index_map().remove(id),
    ensures
        after.wf(),
{
    let id = choose|id: WidgetId| before.index_map().contains_key(id) && before.index_map()[id] == n
        && after.index_map() == #[trigger] before.index_map().remove(id);
    let keep = other_than(n);
    assert(after.out_lists().dom() =~= after.nodes().dom());
    assert(after.in_lists().dom() =~= after.nodes().dom());
    assert forall|a: nat, b: nat| after.out_lists().contains_key(a) implies
        (#[trigger] after.out_lists()[a].contains(b) <==> before.out_lists()[a].contains(b) && b != n) by {
        lemma_filter_contains_iff(before.out_lists()[a], keep, b);
    }
    assert forall|a: nat, b: nat| after.in_lists().contains_key(a) implies
        (#[trigger] after.in_lists()[a].contains(b) <==> before.in_lists()[a].contains(b) && b != n) by {
        lemma_filter_contains_iff(before.in_lists()[a], keep, b);
    }
    assert forall|a: nat, i: int| after.out_lists().contains_key(a) && 0 <= i < after.out_lists()[a].len()
        implies after.nodes().contains_key(#[trigger] after.out_lists()[a][i]) by {
        let x = after.out_lists()[a][i];
        assert(after.out_lists()[a].contains(x));
        let j = choose|j: int| 0 <= j < before.out_lists()[a].len() && before.out_lists()[a][j] == x;
    }
    assert forall|a: nat, i: int| after.in_lists().contains_key(a) && 0 <= i < after.in_lists()[a].len()
        implies after.nodes().contains_key(#[trigger] after.in_lists()[a][i]) by {
        let x = after.in_lists()[a][i];
        assert(after.in_lists()[a].contains(x));
        let j = choose|j: int| 0 <= j < before.in_lists()[a].len() && before.in_lists()[a][j] == x;
    }
    assert forall|a: nat| #[trigger] after.in_lists().contains_key(a) implies after.in_lists()[a].len() <= 1 by {
        before.in_lists()[a].lemma_filter_len(keep);
    }
    assert forall|a: nat| #[trigger] after.out_lists().contains_key(a) implies after.out_lists()[a].no_duplicates() by {
        lemma_filter_no_duplicates(before.out_lists()[a], keep);
    }
    assert forall|x: WidgetId| #[trigger] after.index_map().contains_key(x)
        implies after.nodes().contains_key(after.index_map()[x] as nat) by {
        assert(before.index_map().contains_key(x) && x != id);
    }
}

/// Whether the widget at a node of `nodes` passes `hit`.
pub open spec fn hit_node(nodes: Map<nat, WidgetContainer>, hit: spec_fn(Widget) -> bool) -> spec_fn(nat) -> bool {
    |n: nat| hit(nodes[n].widget)
}

/// The ids, in order, of the widgets at the nodes of `pending` that pass
/// `hit`.
pub open spec fn hits(nodes: Map<nat, WidgetContainer>, pending: Seq<nat>, hit: spec_fn(Widget) -> bool) -> Seq<WidgetId> {
    ids_of(nodes, pending.filter(hit_node(nodes, hit)))
}

/// A sequence none of whose members passes `p` filters to nothing.
proof fn lemma_filter_none(s: Seq<nat>, p: spec_fn(nat) -> bool)
    requires
        forall|j: int| 0 <= j < s.len() ==> !p(#[trigger] s[j]),
    ensures
        s.filter(p) == Seq::<nat>::empty(),
{
    if s.filter(p).len() > 0 {
        s.lemma_filter_pred(p, 0);
        s.lemma_filter_contains_rev(p, s.filter(p)[0]);
        let j = choose|j: int| 0 <= j < s.len() && s[j] == s.filter(p)[0];
        assert(!p(s[j]));
    }
    assert(s.filter(p) =~= Seq::<nat>::empty());
}

/// When the test a cursor walker is given answers as `hit` does, each call
/// of `next` yields the first of the ids that `hits` lists for what the
/// search still has to visit, and leaves the rest of that list; a `None`
/// comes only when that list is empty. So a whole run of calls yields, in
/// order, the widgets of the postorder search that pass the test, each
/// once, and then only `None`.
pub proof fn law_cursor_yields_hits<P, F: Fn(&Widget, &P) -> bool>(
    graph: WidgetStore,
    before: CursorWidgetWalker<P>,
    after: CursorWidgetWalker<P>,
    is_mouse_over: F,
    hit: spec_fn(Widget) -> bool,
    next: Option<WidgetId>,
)
    requires
        before.steps_to(after, graph, is_mouse_over, next),
        forall|w: Widget, b: bool| #[trigger] is_mouse_over.ensures((&w, &before.cursor()), b) ==> b == hit(w),
    ensures
        hits(store_nodes(graph), before.pending(graph), hit) == (match next {
            Some(id) => seq![id] + hits(store_nodes(graph), after.pending(graph), hit),
            None => Seq::<WidgetId>::empty(),
        }),
        next is None ==> after.pending(graph).len() == 0,
{
    let nodes = store_nodes(graph);
    let pending = before.pending(graph);
    let p = hit_node(nodes, hit);
    match next {
        Some(id) => {
            let k = choose|k: int| {
                &&& 0 <= k < pending.len()
                &&& id == nodes[pending[k]].widget.id
                &&& is_mouse_over.ensures((&nodes[pending[k]].widget, &before.cursor()), true)
                &&& forall|j: int| 0 <= j < k ==> is_mouse_over.ensures(
                    (&nodes[#[trigger] pending[j]].widget, &before.cursor()), false)
                &&& after.pending(graph) == pending.skip(k + 1)
            };
            let head = pending.take(k);
            let rest = pending.skip(k + 1);
            assert(pending =~= head + (seq![pending[k]] + rest));
            assert forall|j: int| 0 <= j < head.len() implies !p(#[trigger] head[j]) by {
                assert(head[j] == pending[j]);
                assert(is_mouse_over.ensures((&nodes[pending[j]].widget, &before.cursor()), false));
            }
            lemma_filter_none(head, p);
            assert(p(pending[k]));
            Seq::filter_distributes_over_add(head, seq![pending[k]] + rest, p);
            rest.lemma_filter_prepend(pending[k], p);
            assert(pending.filter(p) =~= seq![pending[k]] + rest.filter(p));
            assert(ids_of(nodes, seq![pending[k]] + rest.filter(p)) =~= seq![id] + ids_of(nodes, rest.filter(p)));
        },
        None => {
            assert forall|j: int| 0 <= j < pending.len() implies !p(#[trigger] pending[j]) by {
                assert(is_mouse_over.ensures((&nodes[pending[j]].widget, &before.cursor()), false));
            }
            lemma_filter_none(pending, p);
            assert(hits(nodes, pending, hit) =~= Seq::<WidgetId>::empty());
        },
    }
}

/// A run of calls of a neighbor walker's `next` on one graph returns the
/// ids of the widgets at the nodes it was made for (children newest first,
/// or the parent), in order, each node once when the list holds none twice
/// (as a child list never does), and then `None` on every later call.
pub proof fn law_neighbors_run(graph: WidgetStore, walkers: Seq<NeighborsWalker>, results: Seq<Option<WidgetId>>)
    requires
        walkers.len() == results.len() + 1,
        forall|i: int| 0 <= i < results.len() ==> walk_step(
            store_nodes(graph),
            (#[trigger] walkers[i]).pending(graph),
            walkers[i + 1].pending(graph),
            results[i],
        ),
    ensures
        run_yields(store_nodes(graph), walkers[0].pending(graph), results),
{
    let pendings = walkers.map_values(|w: NeighborsWalker| w.pending(graph));
    assert forall|i: int| 0 <= i < results.len() implies walk_step(store_nodes(graph), #[trigger] pendings[i], pendings[i + 1], results[i]) by {
        assert(walk_step(store_nodes(graph), walkers[i].pending(graph), walkers[i + 1].pending(graph), results[i]));
    }
    lemma_walk_run(store_nodes(graph), pendings, results, results.len() as int);
}

/// A run of calls of the `next` of the walker that `dfs` made for a widget
/// of a well-formed tree, on that tree's graph, returns the ids of the
/// widgets reachable from it along child edges, each node once, in
/// preorder: that widget first (its own id where ids name their widgets),
/// every other widget after its parent; then `None` on every later call.
pub proof fn law_dfs_run(tree: WidgetGraph, id: WidgetId, walkers: Seq<DfsWalker>, results: Seq<Option<WidgetId>>)
    requires
        tree.wf(),
        tree.node_of(id) is Some,
        walkers.len() == results.len() + 1,
        walkers[0].valid_for(tree.store()),
        search_order(walkers[0].pending(tree.store()), list_edge(tree.out_lists()), tree.node_of(id).unwrap(), true),
        forall|i: int| 0 <= i < results.len() ==> walk_step(
            tree.nodes(),
            (#[trigger] walkers[i]).pending(tree.store()),
            walkers[i + 1].pending(tree.store()),
            results[i],
        ),
    ensures
        run_yields(tree.nodes(), walkers[0].pending(tree.store()), results),
        walkers[0].pending(tree.store())[0] == tree.node_of(id).unwrap(),
        tree.ids_consistent() && results.len() > 0 ==> results[0] == Some(id),
        walkers[0].pending(tree.store()).no_duplicates(),
        forall|n: nat| walkers[0].pending(tree.store()).contains(n)
            <==> reaches(list_edge(tree.out_lists()), tree.node_of(id).unwrap(), n),
        forall|i: int| 0 < i < walkers[0].pending(tree.store()).len() ==> exists|j: int| 0 <= j < i
            && tree.in_lists()[#[trigger] walkers[0].pending(tree.store())[i]] == seq![walkers[0].pending(tree.store())[j]],
{
    let graph = tree.store();
    let first = walkers[0].pending(graph);
    let pendings = walkers.map_values(|w: DfsWalker| w.pending(graph));
    assert forall|i: int| 0 <= i < results.len() implies walk_step(tree.nodes(), #[trigger] pendings[i], pendings[i + 1], results[i]) by {
        assert(walk_step(tree.nodes(), walkers[i].pending(graph), walkers[i + 1].pending(graph), results[i]));
    }
    lemma_walk_run(tree.nodes(), pendings, results, results.len() as int);
    if tree.ids_consistent() && results.len() > 0 {
        assert(results[0] == Some(tree.nodes()[first[0]].widget.id));
        assert(tree.index_map().contains_key(id));
    }
    assert forall|i: int| 0 < i < first.len() implies exists|j: int| 0 <= j < i
        && tree.in_lists()[#[trigger] first[i]] == seq![first[j]] by {
        let j = choose|j: int| 0 <= j < i && list_edge(tree.out_lists())(first[j], first[i]);
        let a = first[j];
        let b = first[i];
        assert(tree.nodes().contains_key(a) && tree.nodes().contains_key(b));
        assert(tree.out_lists()[a].contains(b));
        assert(tree.in_lists()[b].contains(a));
        let l = tree.in_lists()[b];
        assert(l.len() <= 1);
        let k = choose|k: int| 0 <= k < l.len() && l[k] == a;
        assert(l =~= seq![a]);
    }
}

/// A run of calls of a cursor walker's `next` on one graph, with a test
/// that answers as `hit` does, returns the ids of the widgets that pass
/// among those its postorder search still had to visit at the start (each
/// node once), in order, and then `None` on every later call.
pub proof fn law_cursor_run<P, F: Fn(&Widget, &P) -> bool>(
    graph: WidgetStore,
    walkers: Seq<CursorWidgetWalker<P>>,
    results: Seq<Option<WidgetId>>,
    is_mouse_over: F,
    hit: spec_fn(Widget) -> bool,
)
    requires
        walkers.len() == results.len() + 1,
        forall|i: int| 0 <= i < results.len() ==> (#[trigger] walkers[i]).steps_to(walkers[i + 1], graph, is_mouse_over, results[i]),
        forall|w: Widget, b: bool| #[trigger] is_mouse_over.ensures((&w, &walkers[0].cursor()), b) ==> b == hit(w),
    ensures
        forall|i: int| 0 <= i < results.len() ==> #[trigger] results[i] == (if i < hits(store_nodes(graph), walkers[0].pending(graph), hit).len() {
            Some(hits(store_nodes(graph), walkers[0].pending(graph), hit)[i])
        } else {
            None
        }),
        walkers[0].pending(graph).no_duplicates() ==> walkers[0].pending(graph).filter(hit_node(store_nodes(graph), hit)).no_duplicates(),
{
    let nodes = store_nodes(graph);
    let h = hits(nodes, walkers[0].pending(graph), hit);
    lemma_cursor_run(graph, walkers, results, is_mouse_over, hit, results.len() as int);
    if walkers[0].pending(graph).no_duplicates() {
        lemma_filter_no_duplicates(walkers[0].pending(graph), hit_node(nodes, hit));
    }
}

/// After `k` calls of a cursor walker's `next`, the hits still to come are
/// the hits at the start less the first `k`, and the first `k` calls
/// returned those.
proof fn lemma_cursor_run<P, F: Fn(&Widget, &P) -> bool>(
    graph: WidgetStore,
    walkers: Seq<CursorWidgetWalker<P>>,
    results: Seq<Option<WidgetId>>,
    is_mouse_over: F,
    hit: spec_fn(Widget) -> bool,
    k: int,
)
    requires
        walkers.len() == results.len() + 1,
        forall|i: int| 0 <= i < results.len() ==> (#[trigger] walkers[i]).steps_to(walkers[i + 1], graph, is_mouse_over, results[i]),
        forall|w: Widget, b: bool| #[trigger] is_mouse_over.ensures((&w, &walkers[0].cursor()), b) ==> b == hit(w),
        0 <= k <= results.len(),
    ensures
        walkers[k].cursor() == walkers[0].cursor(),
        hits(store_nodes(graph), walkers[k].pending(graph), hit) == hits(store_nodes(graph), walkers[0].pending(graph), hit).skip(
            if k < hits(store_nodes(graph), walkers[0].pending(graph), hit).len() { k } else { hits(store_nodes(graph), walkers[0].pending(graph), hit).len() as int }),
        forall|i: int| 0 <= i < k ==> #[trigger] results[i] == (if i < hits(store_nodes(graph), walkers[0].pending(graph), hit).len() {
            Some(hits(store_nodes(graph), walkers[0].pending(graph), hit)[i])
        } else {
            None
        }),
    decreases k,
{
    let nodes = store_nodes(graph);
    let h = hits(nodes, walkers[0].pending(graph), hit);
    if k == 0 {
        assert(h.skip(0) =~= h);
    } else {
        lemma_cursor_run(graph, walkers, results, is_mouse_over, hit, k - 1);
        let j = k - 1;
        assert(walkers[j].steps_to(walkers[j + 1], graph, is_mouse_over, results[j]));
        law_cursor_yields_hits(graph, walkers[j], walkers[j + 1], is_mouse_over, hit, results[j]);
        let hj = hits(nodes, walkers[j].pending(graph), hit);
        match results[j] {
            Some(x) => {
                assert(hj == seq![x] + hits(nodes, walkers[j + 1].pending(graph), hit));
                assert(j < h.len());
                assert(hj[0] == h[j]);
                let r = hits(nodes, walkers[j + 1].pending(graph), hit);
                assert(hj == h.skip(j));
                assert(r =~= hj.skip(1));
                assert(hj.skip(1) =~= h.skip(j + 1));
            },
            None => {
                assert(hj.len() == 0);
                assert(j >= h.len());
                assert(walkers[j + 1].pending(graph).len() == 0);
                assert(walkers[j + 1].pending(graph).filter(hit_node(nodes, hit)).len() == 0);
                assert(hits(nodes, walkers[j + 1].pending(graph), hit) =~= h.skip(h.len() as int));
            },
        }
    }
}

/// Every widget id names exactly the live node that holds it: the id map
/// holds the id of every stored widget and points it at that widget's node.
pub open spec fn ids_complete(tree: WidgetGraph) -> bool {
    forall|n: nat| #[trigger] tree.nodes().contains_key(n) ==> {
        &&& tree.index_map().contains_key(tree.nodes()[n].widget.id)
        &&& tree.index_map()[tree.nodes()[n].widget.id] == n
    }
}

/// In a well-formed tree whose ids name their widgets and are complete, a
/// widget is a child of `p` exactly when `p` is its parent: every child of
/// `p` has `p` as parent, and every known widget whose parent is `p` is
/// among the children of `p`.
pub proof fn law_parent_of_child(tree: WidgetGraph, p: WidgetId, c: WidgetId)
    requires
        tree.wf(),
        tree.ids_consistent(),
        ids_complete(tree),
        tree.node_of(p) is Some,
    ensures
        tree.children_ids(p).contains(c) ==> tree.parent_of(c) == Some(p),
        tree.node_of(c) is Some && tree.parent_of(c) == Some(p) ==> tree.children_ids(p).contains(c),
{
    let np = tree.index_map()[p] as nat;
    assert(tree.nodes().contains_key(np));
    let kids = tree.out_lists()[np];
    assert(tree.child_nodes(p) == kids);
    if tree.children_ids(p).contains(c) {
        let i = choose|i: int| 0 <= i < tree.children_ids(p).len() && tree.children_ids(p)[i] == c;
        let m = kids[i];
        assert(tree.nodes().contains_key(m));
        assert(c == tree.nodes()[m].widget.id);
        assert(tree.node_of(c) == Some(m));
        assert(kids.contains(m));
        assert(tree.in_lists()[m].contains(np));
        let l = tree.in_lists()[m];
        assert(l.len() <= 1);
        assert(l[0] == np);
        assert(tree.parent_nodes(c) == l);
    }
    if tree.node_of(c) is Some && tree.parent_of(c) == Some(p) {
        let m = tree.index_map()[c] as nat;
        assert(tree.nodes().contains_key(m));
        let l = tree.in_lists()[m];
        assert(tree.parent_nodes(c) == l);
        let q = l[0];
        assert(l.contains(q));
        assert(tree.nodes().contains_key(q));
        assert(tree.nodes()[q].widget.id == p);
        assert(q == np);
        assert(kids.contains(m));
        let i = choose|i: int| 0 <= i < kids.len() && kids[i] == m;
        assert(tree.children_ids(p)[i] == tree.nodes()[m].widget.id);
        assert(tree.nodes()[m].widget.id == c);
    }
}

/// Adding a widget links it only below the widget `parent_id` names, when
/// the tree knows that id once the new id is recorded: the new node's
/// parents are exactly that widget's node, or none; that node gains the new
/// node as its newest child; every other node keeps its children, every
/// old node keeps its parents, and the edge count grows by one exactly when
/// an edge is added.
pub proof fn law_add_links_only_known_parent(
    before: WidgetGraph,
    after: WidgetGraph,
    widget: WidgetContainer,
    parent_id: Option<WidgetId>,
    index: usize,
)
    requires
        before.wf(),
        before.adds(after, widget, parent_id, index),
    ensures
        list_at(after.in_lists(), index as nat) == (match parent_id {
            Some(q) => if after.index_map().contains_key(q) {
                seq![after.index_map()[parent_id.unwrap()] as nat]
            } else {
                Seq::<nat>::empty()
            },
            None => Seq::<nat>::empty(),
        }),
        forall|a: nat| a != index as nat ==> #[trigger] list_at(after.in_lists(), a) == list_at(before.in_lists(), a),
        forall|a: nat| !(parent_id is Some && after.index_map().contains_key(parent_id.unwrap()) && after.index_map()[parent_id.unwrap()] as nat == a)
            ==> #[trigger] list_at(after.out_lists(), a) == list_at(before.out_lists(), a),
        parent_id is Some && after.index_map().contains_key(parent_id.unwrap()) ==> {
            let p = after.index_map()[parent_id.unwrap()] as nat;
            &&& list_at(after.out_lists(), p) == seq![index as nat] + list_at(before.out_lists(), p)
            &&& after.edge_count() == before.edge_count() + 1
        },
        !(parent_id is Some && after.index_map().contains_key(parent_id.unwrap())) ==> after.edge_count() == before.edge_count(),
{
    let n = index as nat;
    assert(!before.in_lists().contains_key(n));
    assert(!before.out_lists().contains_key(n));
    assert forall|a: nat| a != n implies #[trigger] list_at(after.in_lists(), a) == list_at(before.in_lists(), a) by {
        assert(after.in_lists().contains_key(a) <==> before.in_lists().contains_key(a));
    }
    assert forall|a: nat| !(parent_id is Some && after.index_map().contains_key(parent_id.unwrap()) && after.index_map()[parent_id.unwrap()] as nat == a)
        implies #[trigger] list_at(after.out_lists(), a) == list_at(before.out_lists(), a) by {
        if a == n {
            assert(list_at(after.out_lists(), a) =~= Seq::<nat>::empty());
        } else {
            assert(after.out_lists().contains_key(a) <==> before.out_lists().contains_key(a));
        }
    }
    if parent_id is Some && after.index_map().contains_key(parent_id.unwrap()) {
        let p = after.index_map()[parent_id.unwrap()] as nat;
        assert(after.linked_parent(parent_id) == Some(p));
        if p != n {
            assert(after.index_map()[parent_id.unwrap()] == before.index_map()[parent_id.unwrap()]);
            assert(before.nodes().contains_key(p));
        }
    }
}

/// A widget just added is found again by its id, at the node the addition
/// returned, as it was given.
pub proof fn law_found_after_add(
    before: WidgetGraph,
    after: WidgetGraph,
    widget: WidgetContainer,
    parent_id: Option<WidgetId>,
    index: usize,
)
    requires
        before.adds(after, widget, parent_id, index),
    ensures
        after.node_of(widget.widget.id) == Some(index as nat),
        after.container_of(widget.widget.id) == Some(widget),
        after.widget_of(widget.widget.id) == Some(widget.widget),
{
}

/// What `get_widget` hands out is the widget inside what
/// `get_widget_container` hands out: both find something for the same ids.
pub proof fn law_widget_in_container(tree: WidgetGraph, id: WidgetId)
    ensures
        tree.widget_of(id) == (match tree.container_of(id) {
            Some(c) => Some(c.widget),
            None => None,
        }),
        tree.widget_of(id) is Some <==> tree.node_of(id) is Some,
{
}

/// Removing the widget that was just added, under an id the tree did not
/// know, hands that widget back and leaves the tree as it was before the
/// addition: the same nodes, edges, ids, parents and children.
#[verifier::rlimit(40)]
pub proof fn law_remove_undoes_add(
    before: WidgetGraph,
    added: WidgetGraph,
    after: WidgetGraph,
    widget: WidgetContainer,
    parent_id: Option<WidgetId>,
    index: usize,
    removed: Option<WidgetContainer>,
)
    requires
        before.wf(),
        !before.index_map().contains_key(widget.widget.id),
        before.adds(added, widget, parent_id, index),
        added.removes(after, widget.widget.id, removed),
    ensures
        removed == Some(widget),
        after.nodes() == before.nodes(),
        after.out_lists() == before.out_lists(),
        after.in_lists() == before.in_lists(),
        after.edge_count() == before.edge_count(),
        after.index_map() == before.index_map(),
        after.root() == before.root(),
        forall|id: WidgetId| after.parent_of(id) == before.parent_of(id) && after.children_ids(id) == before.children_ids(id),
{
    let n = index as nat;
    let keep = other_than(n);
    assert(added.node_of(widget.widget.id) == Some(n));
    assert(store_edges_at(added.graph, n) + before.edge_count() == added.edge_count()) by {
        let out_n = list_at(added.out_lists(), n);
        if added.linked_parent(parent_id) == Some(n) {
            assert(out_n =~= seq![n]);
            Seq::<nat>::empty().lemma_filter_prepend(n, keep);
            assert(seq![n] + Seq::<nat>::empty() =~= seq![n]);
            reveal(Seq::filter);
            assert(out_n.filter(keep) =~= Seq::<nat>::empty());
        } else {
            assert(out_n =~= Seq::<nat>::empty());
            reveal(Seq::filter);
            assert(out_n.filter(keep) =~= Seq::<nat>::empty());
        }
    }
    assert(after.nodes() =~= before.nodes());
    assert(after.index_map() =~= before.index_map());
    assert(after.out_lists() =~= before.out_lists()) by {
        assert forall|k: nat| #[trigger] before.out_lists().contains_key(k) implies after.out_lists()[k] == before.out_lists()[k] by {
            assert(k != n);
            assert(!before.out_lists()[k].contains(n)) by {
                if before.out_lists()[k].contains(n) {
                    let j = choose|j: int| 0 <= j < before.out_lists()[k].len() && before.out_lists()[k][j] == n;
                }
            }
            lemma_filter_absent(before.out_lists()[k], n);
            if added.linked_parent(parent_id) == Some(k) {
                before.out_lists()[k].lemma_filter_prepend(n, keep);
                assert(seq![n].filter(keep) =~= Seq::<nat>::empty()) by {
                    Seq::<nat>::empty().lemma_filter_prepend(n, keep);
                    assert(seq![n] + Seq::<nat>::empty() =~= seq![n]);
                    reveal(Seq::filter);
                }
            }
        }
    }
    assert(after.in_lists() =~= before.in_lists()) by {
        assert forall|k: nat| #[trigger] before.in_lists().contains_key(k) implies after.in_lists()[k] == before.in_lists()[k] by {
            assert(k != n);
            assert(!before.in_lists()[k].contains(n)) by {
                if before.in_lists()[k].contains(n) {
                    let j = choose|j: int| 0 <= j < before.in_lists()[k].len() && before.in_lists()[k][j] == n;
                }
            }
            lemma_filter_absent(before.in_lists()[k], n);
        }
    }
}

/// Adding a widget under a known parent, in a tree where every id names
/// the widget stored for it, makes that parent the widget's parent and the
/// widget the parent's newest child, and keeps every id naming its widget.
pub proof fn law_add_makes_newest_child(
    before: WidgetGraph,
    after: WidgetGraph,
    widget: WidgetContainer,
    parent: WidgetId,
    index: usize,
)
    requires
        before.wf(),
        before.ids_consistent(),
        before.node_of(parent) is Some,
        parent != widget.widget.id,
        before.adds(after, widget, Some(parent), index),
    ensures
        after.ids_consistent(),
        after.node_of(widget.widget.id) == Some(index as nat),
        after.parent_of(widget.widget.id) == Some(parent),
        after.children_ids(parent) == seq![widget.widget.id] + before.children_ids(parent),
{
    let n = index as nat;
    let p = before.index_map()[parent] as nat;
    assert(after.index_map()[parent] == before.index_map()[parent]);
    assert(before.nodes().contains_key(p));
    assert(after.linked_parent(Some(parent)) == Some(p));
    assert(after.nodes()[p] == before.nodes()[p]);
    let old_children = before.out_lists()[p];
    assert(after.child_nodes(parent) == seq![n] + old_children);
    assert(ids_of(after.nodes(), seq![n] + old_children) =~= seq![widget.widget.id] + ids_of(before.nodes(), old_children)) by {
        assert forall|i: int| 0 <= i < old_children.len() implies after.nodes()[#[trigger] old_children[i]] == before.nodes()[old_children[i]] by {
            assert(before.nodes().contains_key(old_children[i]));
        }
    }
    assert forall|id: WidgetId| #[trigger] after.index_map().contains_key(id)
        implies after.nodes()[after.index_map()[id] as nat].widget.id == id by {
        if id != widget.widget.id {
            assert(before.index_map().contains_key(id));
            assert(before.nodes().contains_key(before.index_map()[id] as nat));
        }
    }
}

/// Adding a widget to a forest whose ids name their widgets, under any
/// parent but itself, leaves such a forest: every node keeps at most one
/// parent, no cycle appears, and every id names the widget stored for it.
pub proof fn law_add_keeps_forest(
    before: WidgetGraph,
    after: WidgetGraph,
    widget: WidgetContainer,
    parent_id: Option<WidgetId>,
    index: usize,
)
    requires
        before.forest(),
        after.wf(),
        parent_id != Some(widget.widget.id),
        before.adds(after, widget, parent_id, index),
    ensures
        after.forest(),
{
    let n = index as nat;
    let depth = choose|depth: spec_fn(nat) -> nat| #[trigger] depth_grows(before.out_lists(), depth);
    let lp = after.linked_parent(parent_id);
    let deep = |k: nat| if k == n {
        match lp {
            Some(p) => depth(p) + 1,
            None => 0,
        }
    } else {
        depth(k)
    };
    assert forall|k: nat| #[trigger] before.out_lists().contains_key(k) implies !before.out_lists()[k].contains(n) by {
        if before.out_lists()[k].contains(n) {
            let j = choose|j: int| 0 <= j < before.out_lists()[k].len() && before.out_lists()[k][j] == n;
        }
    }
    if let Some(p) = lp {
        let pid = parent_id.unwrap();
        assert(after.index_map()[pid] == before.index_map()[pid]);
        assert(p != n);
    }
    assert forall|a: nat, b: nat| #[trigger] list_at(after.out_lists(), a).contains(b) implies deep(a) < deep(b) by {
        if a == n {
            assert(list_at(after.out_lists(), a) == Seq::<nat>::empty());
        } else if lp == Some(a) {
            let l = list_at(after.out_lists(), a);
            let m = list_at(before.out_lists(), a);
            assert(l == seq![n] + m);
            if b != n {
                let i = choose|i: int| 0 <= i < l.len() && l[i] == b;
                assert(m[i - 1] == b);
                assert(m.contains(b));
            }
        } else {
            assert(list_at(after.out_lists(), a) == list_at(before.out_lists(), a));
        }
    }
    assert(depth_grows(after.out_lists(), deep));
    assert forall|id: WidgetId| #[trigger] after.index_map().contains_key(id)
        implies after.nodes()[after.index_map()[id] as nat].widget.id == id by {
        if id != widget.widget.id {
            assert(before.index_map().contains_key(id));
            assert(before.nodes().contains_key(before.index_map()[id] as nat));
        }
    }
}

/// Removing a widget from a forest whose ids name their widgets leaves
/// such a forest.
pub proof fn law_remove_keeps_forest(
    before: WidgetGraph,
    after: WidgetGraph,
    widget_id: WidgetId,
    removed: Option<WidgetContainer>,
)
    requires
        before.forest(),
        after.wf(),
        before.removes(after, widget_id, removed),
    ensures
        after.forest(),
{
    let depth = choose|depth: spec_fn(nat) -> nat| #[trigger] depth_grows(before.out_lists(), depth);
    if let Some(n) = before.node_of(widget_id) {
        assert forall|a: nat, b: nat| #[trigger] list_at(after.out_lists(), a).contains(b) implies depth(a) < depth(b) by {
            assert(after.out_lists().contains_key(a));
            lemma_filter_contains_iff(before.out_lists()[a], other_than(n), b);
            assert(list_at(before.out_lists(), a).contains(b));
        }
        assert(depth_grows(after.out_lists(), depth));
        assert forall|id: WidgetId| #[trigger] after.index_map().contains_key(id)
            implies after.nodes()[after.index_map()[id] as nat].widget.id == id by {
            assert(before.index_map().contains_key(id) && id != widget_id);
            assert(before.index_map()[id] != before.index_map()[widget_id]);
        }
    } else {
        assert(after.out_lists() == before.out_lists());
        assert(depth_grows(after.out_lists(), depth));
    }
}

} // verus!
