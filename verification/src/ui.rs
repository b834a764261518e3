//! The user interface: the widget tree, which widgets are dirty, which
//! widgets the mouse is over, and how queued events find the widgets they
//! are addressed to.

pub mod graph;

use std::collections::{HashMap, HashSet};
use vstd::prelude::*;
use vstd::std_specs::iter::IteratorSpec;
use crate::graph_model::{
    in_neighbors, lemma_distinct_targets, lemma_no_neighbors_outside, lemma_reached_within, out_neighbors,
    is_path, search_order, seq_edge, targets_distinct, EdgeDirection,
};
use crate::widget::{Widget, WidgetId};
use crate::widgets::hover::Hover;
use crate::widget_store::{dfs_capacity, dfs_stack, end_index, StoreDfs};
use crate::ui_store::{
    indices_below, ui_add_edge, ui_add_node, ui_dfs, ui_dfs_next, ui_dfs_pending, ui_edges,
    ui_graph_new, ui_neighbors, ui_node_weight, ui_node_weight_mut, ui_nodes, ui_shape, UiGraph,
};

verus! {

broadcast use vstd::std_specs::hash::group_hash_axioms;

/// Where the mouse is, in window pixels.
#[derive(PartialEq, Eq, Structural, Clone, Copy, Debug)]
pub struct MousePosition {
    pub x: i32,
    pub y: i32,
}

/// Input from the window, as far as the interface reacts to it itself.
#[derive(PartialEq, Eq, Structural, Clone, Copy, Debug)]
pub enum InputEvent {
    /// The mouse moved to this position.
    MouseMoved(i32, i32),
    /// Any other input.
    Other,
}

/// What the interface remembers of the input: where the mouse is, and the
/// widgets it was found over.
pub struct InputState {
    pub mouse: MousePosition,
    pub last_over: HashSet<WidgetId>,
}

impl InputState {
    fn new() -> (state: Self)
        ensures
            state.mouse == (MousePosition { x: 0, y: 0 }),
            state.last_over@ == Set::<WidgetId>::empty(),
    {
        InputState { mouse: MousePosition { x: 0, y: 0 }, last_over: HashSet::new() }
    }

    /// The ids the mouse was found over, each once, in the set's order.
    fn over_ids(&self) -> (ids: Vec<WidgetId>)
        ensures
            ids@.to_set() == self.last_over@,
            ids@.no_duplicates(),
    {
        let mut ids: Vec<WidgetId> = Vec::new();
        for id in it: self.last_over.iter()
            invariant
                it.seq() == vstd::std_specs::hash::spec_hash_keys_iter(&self.last_over).remaining(),
                ids@ == it.seq().take(it.index()).unref(),
                it.seq().unref().to_set() == self.last_over@,
                it.seq().unref().no_duplicates(),
            ensures
                ids@ == it.seq().unref(),
        {
            ids.push(*id);
            assert(it.seq().take(it.index() + 1).unref() =~= ids@);
        }
        ids
    }
}

/// Identifies the kind of an input event; the sender of the event picks it.
pub type EventId = u64;

/// An event the interface queues for its widgets.
#[derive(PartialEq, Eq, Structural, Clone, Copy, Debug)]
pub enum UiEvent {
    /// The mouse came over, or left, a widget.
    Hover(Hover),
    /// Input from the window, under its event id.
    Input(EventId, InputEvent),
}

/// Where a queued event is delivered.
#[derive(PartialEq, Eq, Structural, Clone, Copy, Debug)]
pub enum EventAddress {
    /// The widget with this id.
    Widget(WidgetId),
    /// The newest child of the widget with this id.
    Child(WidgetId),
    /// The widget with this id and every widget below it, in preorder.
    SubTree(WidgetId),
    /// Every widget of the tree that the mouse is over, in preorder.
    UnderMouse,
}

/// The user interface.
pub struct Ui {
    pub graph: UiGraph,
    pub root_index: Option<usize>,
    pub input_state: InputState,
    pub widget_map: HashMap<WidgetId, usize>,
    pub dirty_widgets: HashSet<usize>,
}

impl Ui {
    /// The widgets, by node index.
    pub open spec fn nodes(&self) -> Seq<Widget> {
        ui_nodes(self.graph)
    }

    /// The parent-to-child edges, oldest first.
    pub open spec fn edges(&self) -> Seq<(nat, nat)> {
        ui_edges(self.graph)
    }

    /// The id map and the root point at nodes of the graph, no node has two
    /// incoming edges (every widget has at most one parent), and every edge
    /// runs from an older node to a newer one.
    pub open spec fn wf(&self) -> bool {
        &&& ui_shape(self.graph)
        &&& targets_distinct(self.edges())
        &&& edges_point_forward(self.edges())
        &&& forall|id: WidgetId| #[trigger] self.widget_map@.contains_key(id) ==> self.widget_map@[id] < self.nodes().len()
        &&& (self.root_index matches Some(r) ==> r < self.nodes().len())
    }

    /// The node of the widget with id `id`, if the interface knows that id.
    pub open spec fn node_of(&self, id: WidgetId) -> Option<nat> {
        if self.widget_map@.contains_key(id) {
            Some(self.widget_map@[id] as nat)
        } else {
            None
        }
    }

    /// `after` is this interface with `child` appended as node `index`,
    /// below `parent_index` when that is given, its id recorded and the new
    /// node marked dirty.
    pub open spec fn adds(self, after: Self, parent_index: Option<usize>, child: Widget, index: usize) -> bool {
        &&& index == self.nodes().len()
        &&& after.nodes() == self.nodes().push(child)
        &&& after.edges() == (match parent_index {
            Some(p) => self.edges().push((p as nat, index as nat)),
            None => self.edges(),
        })
        &&& after.widget_map@ == self.widget_map@.insert(child.id, index)
        &&& after.dirty_widgets@ == self.dirty_widgets@.insert(index)
        &&& after.root_index == self.root_index
        &&& after.input_state.last_over@ == self.input_state.last_over@
        &&& after.input_state.mouse == self.input_state.mouse
    }

    /// An interface with no widgets, nothing dirty, and the mouse over
    /// nothing.
    pub fn new() -> (ui: Self)
        ensures
            ui.wf(),
            ui.nodes().len() == 0,
            ui.edges().len() == 0,
            ui.root_index is None,
            ui.widget_map@ == Map::<WidgetId, usize>::empty(),
            ui.dirty_widgets@ == Set::<usize>::empty(),
            ui.input_state.last_over@ == Set::<WidgetId>::empty(),
            ui.input_state.mouse == (MousePosition { x: 0, y: 0 }),
    {
        Ui {
            graph: ui_graph_new(),
            root_index: None,
            input_state: InputState::new(),
            widget_map: HashMap::new(),
            dirty_widgets: HashSet::new(),
        }
    }

    /// Adds `root_widget` without a parent and makes it the root.
    pub fn set_root(&mut self, root_widget: Widget) -> (index: usize)
        requires
            old(self).wf(),
            old(self).nodes().len() < end_index(),
        ensures
            final(self).wf(),
            index == old(self).nodes().len(),
            final(self).root_index == Some(index),
            final(self).nodes() == old(self).nodes().push(root_widget),
            final(self).edges() == old(self).edges(),
            final(self).widget_map@ == old(self).widget_map@.insert(root_widget.id, index),
            final(self).dirty_widgets@ == old(self).dirty_widgets@.insert(index),
            final(self).input_state.last_over@ == old(self).input_state.last_over@,
            final(self).input_state.mouse == old(self).input_state.mouse,
    {
        let index = self.add_widget(None, root_widget);
        self.root_index = Some(index);
        index
    }

    /// The root widget; the interface must have one.
    pub fn get_root(&mut self) -> (root: &Widget)
        requires
            old(self).wf(),
            old(self).root_index is Some,
        ensures
            *root == old(self).nodes()[old(self).root_index.unwrap() as int],
            *final(self) == *old(self),
    {
        let index = self.root_index.unwrap();
        ui_node_weight(&self.graph, index)
    }

    /// Marks the root as needing to be drawn again after the window changed
    /// size; the interface must have a root. (The new size itself goes to
    /// the layout, which the application keeps.)
    pub fn window_resized(&mut self)
        requires
            old(self).wf(),
            old(self).root_index is Some,
        ensures
            final(self).wf(),
            final(self).dirty_widgets@ == old(self).dirty_widgets@.insert(old(self).root_index.unwrap()),
            final(self).graph == old(self).graph,
            final(self).root_index == old(self).root_index,
            final(self).widget_map@ == old(self).widget_map@,
            final(self).input_state.last_over@ == old(self).input_state.last_over@,
            final(self).input_state.mouse == old(self).input_state.mouse,
    {
        let index = self.root_index.unwrap();
        self.dirty_widgets.insert(index);
    }

    /// The parents of node `node_index`, newest edge first: at most one.
    /// None when `node_index` is not a node (the end index included).
    pub fn parents(&mut self, node_index: usize) -> (parents: Vec<usize>)
        requires
            node_index <= end_index(),
        ensures
            parents@.map_values(|i: usize| i as nat) == in_neighbors(old(self).edges(), node_index as nat),
            old(self).wf() ==> parents@.len() <= 1,
            *final(self) == *old(self),
    {
        let parents = ui_neighbors(&self.graph, node_index, EdgeDirection::Incoming);
        proof {
            if self.wf() {
                lemma_distinct_targets(self.edges(), node_index as nat);
                assert(parents@.len() == parents@.map_values(|i: usize| i as nat).len());
            }
        }
        parents
    }

    /// The children of node `node_index`, newest first, each once. None
    /// when `node_index` is not a node (the end index included).
    pub fn children(&mut self, node_index: usize) -> (children: Vec<usize>)
        requires
            node_index <= end_index(),
        ensures
            children@.map_values(|i: usize| i as nat) == out_neighbors(old(self).edges(), node_index as nat),
            old(self).wf() ==> children@.no_duplicates(),
            *final(self) == *old(self),
    {
        let children = ui_neighbors(&self.graph, node_index, EdgeDirection::Outgoing);
        proof {
            if self.wf() {
                lemma_distinct_targets(self.edges(), node_index as nat);
                let m = children@.map_values(|i: usize| i as nat);
                assert forall|i: int, j: int| 0 <= i < children@.len() && 0 <= j < children@.len() && i != j
                    implies children@[i] != children@[j] by {
                    assert(m[i] == children@[i] as nat && m[j] == children@[j] as nat);
                }
            }
        }
        children
    }

    /// The children of node `node_index` in the order they are drawn:
    /// oldest first, so that newer children are drawn over older ones.
    pub fn draw_children(&self, node_index: usize) -> (order: Vec<usize>)
        requires
            self.wf(),
            node_index < self.nodes().len(),
        ensures
            order@.map_values(|i: usize| i as nat) == out_neighbors(self.edges(), node_index as nat).reverse(),
            forall|i: int| 0 <= i < order@.len() ==> #[trigger] order@[i] < self.nodes().len(),
    {
        let children = ui_neighbors(&self.graph, node_index, EdgeDirection::Outgoing);
        let ghost newest_first = children@.map_values(|i: usize| i as nat);
        proof { lemma_neighbors_below(self.nodes().len(), self.edges(), node_index as nat); }
        let mut order: Vec<usize> = Vec::new();
        let mut k: usize = children.len();
        while k > 0
            invariant
                k <= children@.len(),
                newest_first == children@.map_values(|i: usize| i as nat),
                order@.map_values(|i: usize| i as nat) == newest_first.reverse().take(children@.len() - k),
            decreases k,
        {
            let ghost before = order@;
            k = k - 1;
            order.push(children[k]);
            proof {
                let n = children@.len() as int;
                let r = newest_first.reverse();
                assert(r[n - k - 1] == newest_first[k as int]);
                assert(newest_first[k as int] == children@[k as int] as nat);
                assert(r.take(n - k) =~= r.take(n - k - 1).push(r[n - k - 1]));
                assert(order@ == before.push(children@[k as int]));
                assert(order@.map_values(|i: usize| i as nat) =~= before.map_values(|i: usize| i as nat).push(children@[k as int] as nat));
            }
        }
        proof {
            assert(newest_first.reverse().take(children@.len() as int) =~= newest_first.reverse());
            assert forall|i: int| 0 <= i < order@.len() implies #[trigger] order@[i] < self.nodes().len() by {
                let m = order@.map_values(|i: usize| i as nat);
                assert(m[i] == order@[i] as nat);
                assert(m[i] == newest_first[newest_first.len() - 1 - i]);
            }
        }
        order
    }

    /// Adds `child` as a new node, below `parent_index` when that is given,
    /// records its id and marks it dirty. Returns the new node.
    pub fn add_widget(&mut self, parent_index: Option<usize>, child: Widget) -> (index: usize)
        requires
            old(self).wf(),
            old(self).nodes().len() < end_index(),
            parent_index matches Some(p) ==> p < old(self).nodes().len() && old(self).edges().len() < end_index(),
        ensures
            final(self).wf(),
            old(self).adds(*final(self), parent_index, child, index),
            parent_index is None ==> final(self).edges() == old(self).edges(),
            parent_index matches Some(p) ==> final(self).edges() == old(self).edges().push((p as nat, index as nat)),
            in_neighbors(final(self).edges(), index as nat) == (match parent_index {
                Some(p) => seq![p as nat],
                None => Seq::<nat>::empty(),
            }),
    {
        let id = child.id;
        let child_index = ui_add_node(&mut self.graph, child);
        if let Some(parent_index) = parent_index {
            ui_add_edge(&mut self.graph, parent_index, child_index);
        }
        self.widget_map.insert(id, child_index);
        self.dirty_widgets.insert(child_index);
        assert(edges_point_forward(self.edges())) by {
            let es = self.edges();
            assert forall|i: int| 0 <= i < es.len() implies #[trigger] es[i].0 < es[i].1 by {
                if i < old(self).edges().len() {
                    assert(es[i] == old(self).edges()[i]);
                }
            }
        }
        assert(targets_distinct(self.edges())) by {
            let es = self.edges();
            let old_es = old(self).edges();
            assert forall|i: int, j: int| 0 <= i < j < es.len() implies #[trigger] es[i].1 != #[trigger] es[j].1 by {
                assert(es[i] == old_es[i]);
                if j < old_es.len() {
                    assert(es[j] == old_es[j]);
                } else {
                    assert(indices_below(old(self).nodes().len()).contains(old_es[i].0));
                    assert(indices_below(old(self).nodes().len()).contains(old_es[i].1));
                    assert(es[j] == (parent_index.unwrap() as nat, child_index as nat));
                }
            }
        }
        assert(crate::graph_model::edges_within(indices_below(self.nodes().len()), self.edges())) by {
            let es = self.edges();
            assert forall|i: int| 0 <= i < es.len() implies indices_below(self.nodes().len()).contains(#[trigger] es[i].0)
                && indices_below(self.nodes().len()).contains(es[i].1) by {
                if i < old(self).edges().len() {
                    assert(es[i] == old(self).edges()[i]);
                    assert(indices_below(old(self).nodes().len()).contains(es[i].0));
                } else {
                    assert(es[i] == (parent_index.unwrap() as nat, child_index as nat));
                }
            }
        }
        proof { law_add_links_only_given_parent(*old(self), *self, parent_index, child, child_index); }
        child_index
    }

    /// Looks widget `widget_id` up and always answers `None`: the widget it
    /// finds is dropped, never handed back.
    pub fn get_widget(&self, widget_id: WidgetId) -> (widget: Option<&Widget>)
        requires
            self.wf(),
        ensures
            widget is None,
    {
        if let Some(node_index) = self.widget_map.get(&widget_id) {
            let _found = ui_node_weight(&self.graph, *node_index);
        }
        None
    }


    /// Where an event addressed to `address` goes: a router that yields the
    /// target nodes one at a time (see `EventRouter::next`). `Widget` and
    /// `Child` give at most one node; `SubTree` and `UnderMouse` search the
    /// subtree of the widget, or of the root, in preorder. `UnderMouse`
    /// needs a root.
    pub fn route_event(&self, address: EventAddress) -> (router: EventRouter)
        requires
            self.wf(),
            address is UnderMouse ==> self.root_index is Some,
        ensures
            router.valid_for(self.graph),
            router.hit_tested() == (address is UnderMouse),
            match address {
                EventAddress::Widget(id) => router.pending(self.graph) == (match self.node_of(id) {
                    Some(n) => seq![n],
                    None => Seq::<nat>::empty(),
                }),
                EventAddress::Child(id) => router.pending(self.graph) == (match self.node_of(id) {
                    Some(n) => if out_neighbors(self.edges(), n).len() > 0 {
                        seq![out_neighbors(self.edges(), n)[0]]
                    } else {
                        Seq::<nat>::empty()
                    },
                    None => Seq::<nat>::empty(),
                }),
                EventAddress::SubTree(id) => match self.node_of(id) {
                    Some(n) => search_order(router.pending(self.graph), seq_edge(self.edges()), n, true),
                    None => router.pending(self.graph).len() == 0,
                },
                EventAddress::UnderMouse => search_order(
                    router.pending(self.graph),
                    seq_edge(self.edges()),
                    self.root_index.unwrap() as nat,
                    true,
                ),
            },
    {
        match address {
            EventAddress::Widget(id) => {
                let found = match self.widget_map.get(&id) {
                    Some(index) => Some(*index),
                    None => None,
                };
                EventRouter { route: Route::Single(found) }
            },
            EventAddress::Child(id) => {
                let found = match self.widget_map.get(&id) {
                    Some(index) => {
                        let children = ui_neighbors(&self.graph, *index, EdgeDirection::Outgoing);
                        proof { lemma_neighbors_below(self.nodes().len(), self.edges(), *index as nat); }
                        if children.len() > 0 {
                            assert(children@.map_values(|i: usize| i as nat)[0] == children@[0] as nat);
                            Some(children[0])
                        } else {
                            None
                        }
                    },
                    None => None,
                };
                EventRouter { route: Route::Single(found) }
            },
            EventAddress::SubTree(id) => {
                match self.widget_map.get(&id) {
                    Some(index) => {
                        let dfs = ui_dfs(&self.graph, *index);
                        proof { lemma_search_below(self.graph, ui_dfs_pending(dfs, self.graph), *index as nat); }
                        EventRouter { route: Route::Search(dfs) }
                    },
                    None => EventRouter { route: Route::Single(None) },
                }
            },
            EventAddress::UnderMouse => {
                let root = self.root_index.unwrap();
                let dfs = ui_dfs(&self.graph, root);
                proof { lemma_search_below(self.graph, ui_dfs_pending(dfs, self.graph), root as nat); }
                EventRouter { route: Route::UnderMouse(dfs) }
            },
        }
    }

    /// After the handlers of node `node_index` ran: when its drawing
    /// changed, marks the node dirty and clears the widget's change flag.
    pub fn finish_widget_event(&mut self, node_index: usize)
        requires
            old(self).wf(),
            node_index < old(self).nodes().len(),
        ensures
            final(self).wf(),
            old(self).nodes()[node_index as int].has_updated ==> {
                &&& final(self).dirty_widgets@ == old(self).dirty_widgets@.insert(node_index)
                &&& final(self).nodes() == old(self).nodes().update(
                    node_index as int,
                    (Widget { has_updated: false, ..old(self).nodes()[node_index as int] }),
                )
            },
            !old(self).nodes()[node_index as int].has_updated ==> {
                &&& final(self).dirty_widgets@ == old(self).dirty_widgets@
                &&& final(self).nodes() == old(self).nodes()
            },
            final(self).edges() == old(self).edges(),
            forall|d: StoreDfs| #[trigger] ui_dfs_pending(d, final(self).graph) == ui_dfs_pending(d, old(self).graph),
            forall|r: EventRouter| #[trigger] r.valid_for(old(self).graph) ==> {
                &&& r.valid_for(final(self).graph)
                &&& r.pending(final(self).graph) == r.pending(old(self).graph)
            },
            final(self).widget_map@ == old(self).widget_map@,
            final(self).root_index == old(self).root_index,
            final(self).input_state.last_over@ == old(self).input_state.last_over@,
            final(self).input_state.mouse == old(self).input_state.mouse,
    {
        let widget = ui_node_weight_mut(&mut self.graph, node_index);
        if widget.has_updated {
            self.dirty_widgets.insert(node_index);
            widget.has_updated = false;
        }
        proof {
            assert(self.nodes().len() == old(self).nodes().len());
            assert forall|r: EventRouter| #[trigger] r.valid_for(old(self).graph) implies {
                &&& r.valid_for(self.graph)
                &&& r.pending(self.graph) == r.pending(old(self).graph)
            } by {
                assert(ui_edges(self.graph) == ui_edges(old(self).graph));
                assert(ui_nodes(self.graph).len() == ui_nodes(old(self).graph).len());
                assert(ui_shape(self.graph));
                assert(r.pending(self.graph) == r.pending(old(self).graph)) by {
                    match r.route {
                        Route::Search(d) => assert(ui_dfs_pending(d, self.graph) == ui_dfs_pending(d, old(self).graph)),
                        Route::UnderMouse(d) => assert(ui_dfs_pending(d, self.graph) == ui_dfs_pending(d, old(self).graph)),
                        Route::Single(_) => {},
                    }
                }
            }
        }
    }

    /// Reacts to input from the window. When the mouse moved, it records
    /// the new position; then each widget the mouse was found over that the
    /// interface still knows, and that `is_mouse_over` no longer places
    /// under the mouse, is forgotten and gets a `Hover::Out` event, and
    /// every widget under the mouse gets a `Hover::Over` event (the `Out`
    /// events come in the set's own order). Other input changes nothing
    /// here. Last, when the sender gave the event an id (`input_id`), the
    /// event itself goes to every widget under the mouse. Returns the events
    /// to queue, in order.
    pub fn handle_event<F: Fn(&Widget, &MousePosition) -> bool>(
        &mut self,
        event: InputEvent,
        input_id: Option<EventId>,
        is_mouse_over: F,
    ) -> (events: Vec<(EventAddress, UiEvent)>)
        requires
            old(self).wf(),
            forall|w: Widget, m: MousePosition| is_mouse_over.requires((&w, &m)),
        ensures
            final(self).wf(),
            final(self).graph == old(self).graph,
            final(self).root_index == old(self).root_index,
            final(self).widget_map@ == old(self).widget_map@,
            final(self).dirty_widgets@ == old(self).dirty_widgets@,
            match event {
                InputEvent::MouseMoved(x, y) => {
                    &&& final(self).input_state.mouse == (MousePosition { x, y })
                    &&& exists|left: Seq<WidgetId>| {
                        &&& events@ == hover_out_events(left).push((EventAddress::UnderMouse, UiEvent::Hover(Hover::Over)))
                            + forwarded_input(event, input_id)
                        &&& left.no_duplicates()
                        &&& final(self).input_state.last_over@ == old(self).input_state.last_over@.difference(left.to_set())
                        &&& forall|i: int| 0 <= i < left.len() ==> {
                            &&& old(self).input_state.last_over@.contains(#[trigger] left[i])
                            &&& old(self).node_of(left[i]) is Some
                            &&& is_mouse_over.ensures(
                                (&old(self).nodes()[old(self).node_of(left[i]).unwrap() as int], &final(self).input_state.mouse),
                                false,
                            )
                        }
                        &&& forall|id: WidgetId| #[trigger] old(self).input_state.last_over@.contains(id)
                            && old(self).node_of(id) is Some && !left.contains(id)
                            ==> is_mouse_over.ensures(
                                (&old(self).nodes()[old(self).node_of(id).unwrap() as int], &final(self).input_state.mouse),
                                true,
                            )
                    }
                },
                InputEvent::Other => {
                    &&& events@ == forwarded_input(event, input_id)
                    &&& final(self).input_state.mouse == old(self).input_state.mouse
                    &&& final(self).input_state.last_over@ == old(self).input_state.last_over@
                },
            },
    {
        let mut events = match event {
            InputEvent::MouseMoved(x, y) => {
                self.input_state.mouse = MousePosition { x, y };
                self.hover_out(is_mouse_over)
            },
            InputEvent::Other => Vec::new(),
        };
        let ghost hover = events@;
        if let Some(id) = input_id {
            events.push((EventAddress::UnderMouse, UiEvent::Input(id, event)));
        }
        assert(events@ =~= hover + forwarded_input(event, input_id));
        events
    }

    /// The decisions that follow a move of the mouse, once the new position
    /// is recorded. Each widget the mouse
    /// was found over that the interface still knows, and that
    /// `is_mouse_over` no longer places under the mouse, is forgotten and
    /// gets a `Hover::Out` event; then every widget under the mouse gets a
    /// `Hover::Over` event. Returns those events in order; the `Out` events
    /// follow the set's own order.
    fn hover_out<F: Fn(&Widget, &MousePosition) -> bool>(&mut self, is_mouse_over: F) -> (events: Vec<(EventAddress, UiEvent)>)
        requires
            old(self).wf(),
            forall|w: Widget, m: MousePosition| is_mouse_over.requires((&w, &m)),
        ensures
            final(self).wf(),
            final(self).graph == old(self).graph,
            final(self).root_index == old(self).root_index,
            final(self).widget_map@ == old(self).widget_map@,
            final(self).dirty_widgets@ == old(self).dirty_widgets@,
            final(self).input_state.mouse == old(self).input_state.mouse,
            exists|left: Seq<WidgetId>| {
                &&& events@ == hover_out_events(left).push((EventAddress::UnderMouse, UiEvent::Hover(Hover::Over)))
                &&& left.no_duplicates()
                &&& final(self).input_state.last_over@ == old(self).input_state.last_over@.difference(left.to_set())
                &&& forall|i: int| 0 <= i < left.len() ==> {
                    &&& old(self).input_state.last_over@.contains(#[trigger] left[i])
                    &&& old(self).node_of(left[i]) is Some
                    &&& is_mouse_over.ensures((&old(self).nodes()[old(self).node_of(left[i]).unwrap() as int], &old(self).input_state.mouse), false)
                }
                &&& forall|id: WidgetId| #[trigger] old(self).input_state.last_over@.contains(id)
                    && old(self).node_of(id) is Some && !left.contains(id)
                    ==> is_mouse_over.ensures((&old(self).nodes()[old(self).node_of(id).unwrap() as int], &old(self).input_state.mouse), true)
            },
    {
        let last_over = self.input_state.over_ids();
        let mut events: Vec<(EventAddress, UiEvent)> = Vec::new();
        let ghost mut left: Seq<WidgetId> = Seq::empty();
        let n = last_over.len();
        let mut i: usize = 0;
        while i < n
            invariant
                self.wf(),
                self.graph == old(self).graph,
                self.root_index == old(self).root_index,
                self.widget_map@ == old(self).widget_map@,
                self.dirty_widgets@ == old(self).dirty_widgets@,
                self.input_state.mouse == old(self).input_state.mouse,
                n == last_over@.len(),
                0 <= i <= n,
                last_over@.to_set() == old(self).input_state.last_over@,
                last_over@.no_duplicates(),
                events@ == hover_out_events(left),
                left.no_duplicates(),
                self.input_state.last_over@ == old(self).input_state.last_over@.difference(left.to_set()),
                forall|j: int| 0 <= j < left.len() ==> {
                    &&& last_over@.take(i as int).contains(#[trigger] left[j])
                    &&& old(self).node_of(left[j]) is Some
                    &&& is_mouse_over.ensures((&old(self).nodes()[old(self).node_of(left[j]).unwrap() as int], &old(self).input_state.mouse), false)
                },
                forall|j: int| 0 <= j < i && old(self).node_of(#[trigger] last_over@[j]) is Some && !left.contains(last_over@[j])
                    ==> is_mouse_over.ensures((&old(self).nodes()[old(self).node_of(last_over@[j]).unwrap() as int], &old(self).input_state.mouse), true),
                forall|w: Widget, m: MousePosition| is_mouse_over.requires((&w, &m)),
            decreases n - i,
        {
            let id = last_over[i];
            proof {
                assert(last_over@.take(i as int + 1) =~= last_over@.take(i as int).push(id));
                assert forall|j: int| 0 <= j < left.len() implies last_over@.take(i as int + 1).contains(#[trigger] left[j]) by {
                    assert(last_over@.take(i as int).contains(left[j]));
                    let k = choose|k: int| 0 <= k < i && last_over@.take(i as int)[k] == left[j];
                    assert(last_over@.take(i as int + 1)[k] == left[j]);
                }
                assert(!left.contains(id)) by {
                    if left.contains(id) {
                        let j = choose|j: int| 0 <= j < left.len() && left[j] == id;
                        assert(last_over@.take(i as int).contains(left[j]));
                        let k = choose|k: int| 0 <= k < i && last_over@.take(i as int)[k] == id;
                        assert(last_over@[k] == last_over@[i as int]);
                    }
                }
            }
            if let Some(last_index) = self.find_widget(id) {
                let widget = ui_node_weight(&self.graph, last_index);
                if !is_mouse_over(widget, &self.input_state.mouse) {
                    events.push((EventAddress::Widget(id), UiEvent::Hover(Hover::Out)));
                    self.input_state.last_over.remove(&id);
                    proof {
                        let old_left = left;
                        left = left.push(id);
                        assert(events@ =~= hover_out_events(left));
                        assert forall|x: WidgetId| left.contains(x) <==> old_left.contains(x) || x == id by {
                            if left.contains(x) {
                                let j = choose|j: int| 0 <= j < left.len() && left[j] == x;
                                if j < old_left.len() {
                                    assert(old_left[j] == x);
                                }
                            }
                            if old_left.contains(x) {
                                let j = choose|j: int| 0 <= j < old_left.len() && old_left[j] == x;
                                assert(left[j] == x);
                            }
                            if x == id {
                                assert(left[left.len() - 1] == x);
                            }
                        }
                        assert(left.to_set() =~= old_left.to_set().insert(id));
                        assert(left.no_duplicates()) by {
                            assert forall|a: int, b: int| 0 <= a < left.len() && 0 <= b < left.len() && a != b implies left[a] != left[b] by {
                                if a < old_left.len() && b < old_left.len() {
                                    assert(old_left[a] != old_left[b]);
                                } else if a < old_left.len() {
                                    assert(old_left.contains(left[a]));
                                } else if b < old_left.len() {
                                    assert(old_left.contains(left[b]));
                                }
                            }
                        }
                        assert(self.input_state.last_over@ =~= old(self).input_state.last_over@.difference(left.to_set()));
                        assert forall|j: int| 0 <= j < left.len() implies last_over@.take(i as int + 1).contains(#[trigger] left[j]) by {
                            if j == left.len() - 1 {
                                assert(last_over@.take(i as int + 1)[i as int] == id);
                            } else {
                                assert(left[j] == old_left[j]);
                            }
                        }
                    }
                }
            }
            i = i + 1;
        }
        proof {
            assert(last_over@.take(n as int) =~= last_over@);
            assert forall|id: WidgetId| #[trigger] old(self).input_state.last_over@.contains(id)
                && old(self).node_of(id) is Some && !left.contains(id)
                implies is_mouse_over.ensures((&old(self).nodes()[old(self).node_of(id).unwrap() as int], &old(self).input_state.mouse), true) by {
                assert(last_over@.to_set().contains(id));
                let k = choose|k: int| 0 <= k < last_over@.len() && last_over@[k] == id;
            }
            assert forall|j: int| 0 <= j < left.len() implies old(self).input_state.last_over@.contains(#[trigger] left[j]) by {
                assert(last_over@.take(n as int).contains(left[j]));
                assert(last_over@.contains(left[j]));
                assert(last_over@.to_set().contains(left[j]));
            }
        }
        events.push((EventAddress::UnderMouse, UiEvent::Hover(Hover::Over)));
        events
    }

    /// What to feed in again once the event queue is drained: when the
    /// layout changed meanwhile, the widget under the mouse may have moved,
    /// so a move of the mouse to where it was last seen; else nothing.
    pub fn mouse_replay(&self, layout_changed: bool) -> (replay: Option<InputEvent>)
        ensures
            replay == (if layout_changed {
                Some(InputEvent::MouseMoved(self.input_state.mouse.x, self.input_state.mouse.y))
            } else {
                None
            }),
    {
        if layout_changed {
            Some(InputEvent::MouseMoved(self.input_state.mouse.x, self.input_state.mouse.y))
        } else {
            None
        }
    }

    /// The node of widget `widget_id`, if the interface knows that id.
    fn find_widget(&mut self, widget_id: WidgetId) -> (found: Option<usize>)
        requires
            old(self).wf(),
        ensures
            found == (match old(self).node_of(widget_id) {
                Some(n) => Some(n as usize),
                None => None,
            }),
            *final(self) == *old(self),
    {
        match self.widget_map.get(&widget_id) {
            Some(index) => Some(*index),
            None => None,
        }
    }
}

/// Adding a widget links it only below the parent it was given: the new
/// node's parents are exactly that parent, or none when none was given;
/// that parent gains the new node as its newest child; every other node
/// keeps its children and every old node keeps its parents. Given no
/// parent, no edge is added at all.
pub proof fn law_add_links_only_given_parent(
    before: Ui,
    after: Ui,
    parent_index: Option<usize>,
    child: Widget,
    index: usize,
)
    requires
        before.wf(),
        parent_index matches Some(p) ==> p < before.nodes().len(),
        before.adds(after, parent_index, child, index),
    ensures
        in_neighbors(after.edges(), index as nat) == (match parent_index {
            Some(p) => seq![p as nat],
            None => Seq::<nat>::empty(),
        }),
        out_neighbors(after.edges(), index as nat) == Seq::<nat>::empty(),
        forall|a: nat| (match parent_index {
            Some(p) => a != p as nat,
            None => true,
        }) ==> #[trigger] out_neighbors(after.edges(), a) == out_neighbors(before.edges(), a),
        parent_index matches Some(p) ==> out_neighbors(after.edges(), p as nat)
            == seq![index as nat] + out_neighbors(before.edges(), p as nat),
        forall|a: nat| a != index as nat ==> #[trigger] in_neighbors(after.edges(), a) == in_neighbors(before.edges(), a),
        parent_index is None ==> after.edges().len() == before.edges().len(),
{
    let e = before.edges();
    let n = index as nat;
    lemma_no_neighbors_outside(indices_below(before.nodes().len()), e, n);
    assert(!indices_below(before.nodes().len()).contains(n));
    assert(in_neighbors(e, n) =~= Seq::<nat>::empty());
    assert(out_neighbors(e, n) =~= Seq::<nat>::empty());
    match parent_index {
        Some(p) => {
            let pe = (p as nat, n);
            assert(e.push(pe).drop_last() =~= e);
            assert(e.push(pe).last() == pe);
            assert(p as nat != n);
            assert(in_neighbors(e.push(pe), n) =~= seq![p as nat] + in_neighbors(e, n));
            assert forall|a: nat| a != p as nat implies #[trigger] out_neighbors(after.edges(), a) == out_neighbors(e, a) by {
                assert(after.edges() == e.push(pe));
            }
            assert forall|a: nat| a != n implies #[trigger] in_neighbors(after.edges(), a) == in_neighbors(e, a) by {
                assert(after.edges() == e.push(pe));
            }
        },
        None => {},
    }
}

/// A widget added below a parent becomes the first of that parent's
/// children (children come newest first), the parent is its only parent,
/// and it is dirty and found by its id.
pub proof fn law_new_child_comes_first(before: Ui, after: Ui, parent: usize, child: Widget, index: usize)
    requires
        before.wf(),
        before.adds(after, Some(parent), child, index),
    ensures
        out_neighbors(after.edges(), parent as nat) == seq![index as nat] + out_neighbors(before.edges(), parent as nat),
        in_neighbors(after.edges(), index as nat) == seq![parent as nat],
        after.dirty_widgets@.contains(index),
        after.node_of(child.id) == Some(index as nat),
{
    let e = before.edges();
    let pe = (parent as nat, index as nat);
    assert(e.push(pe).drop_last() =~= e);
    assert(e.push(pe).last() == pe);
    lemma_no_neighbors_outside(indices_below(before.nodes().len()), e, index as nat);
    assert(!indices_below(before.nodes().len()).contains(index as nat));
    assert(in_neighbors(e, index as nat) =~= Seq::<nat>::empty());
    assert(in_neighbors(e.push(pe), index as nat) =~= seq![parent as nat] + in_neighbors(e, index as nat));
}

/// The input event forwarded to the widgets under the mouse: one, under
/// the id the sender gave it, when it has one.
pub open spec fn forwarded_input(event: InputEvent, input_id: Option<EventId>) -> Seq<(EventAddress, UiEvent)> {
    match input_id {
        Some(id) => seq![(EventAddress::UnderMouse, UiEvent::Input(id, event))],
        None => Seq::empty(),
    }
}

/// Every edge runs from a node added earlier to one added later.
pub open spec fn edges_point_forward(edges: Seq<(nat, nat)>) -> bool {
    forall|i: int| 0 <= i < edges.len() ==> #[trigger] edges[i].0 < edges[i].1
}

/// Along a walk on edges that point forward, nodes only get newer.
proof fn lemma_walk_goes_forward(edges: Seq<(nat, nat)>, path: Seq<nat>)
    requires
        edges_point_forward(edges),
        is_path(seq_edge(edges), path),
    ensures
        path.len() > 1 ==> path[0] < path.last(),
    decreases path.len(),
{
    if path.len() > 1 {
        let front = path.drop_last();
        assert(is_path(seq_edge(edges), front)) by {
            assert forall|i: int| 0 <= i < front.len() - 1 implies seq_edge(edges)(#[trigger] front[i], front[i + 1]) by {
                assert(front[i] == path[i] && front[i + 1] == path[i + 1]);
            }
        }
        lemma_walk_goes_forward(edges, front);
        let k = path.len() - 2;
        assert(seq_edge(edges)(path[k], path[k + 1]));
        let j = choose|j: int| 0 <= j < edges.len() && edges[j] == (path[k], path[k + 1]);
        assert(edges[j].0 < edges[j].1);
        assert(front.last() == path[k]);
    }
}

/// The widgets of an interface form a forest: every widget has at most
/// one parent, and no walk along parent-to-child edges comes back to where
/// it started.
pub proof fn law_ui_is_forest(ui: Ui, a: nat, path: Seq<nat>)
    requires
        ui.wf(),
    ensures
        in_neighbors(ui.edges(), a).len() <= 1,
        is_path(seq_edge(ui.edges()), path) && path.len() > 1 ==> path[0] != path.last(),
{
    lemma_distinct_targets(ui.edges(), a);
    if is_path(seq_edge(ui.edges()), path) {
        lemma_walk_goes_forward(ui.edges(), path);
    }
}

/// A `Hover::Out` event for each of `ids`, in order.
pub open spec fn hover_out_events(ids: Seq<WidgetId>) -> Seq<(EventAddress, UiEvent)> {
    ids.map_values(|id: WidgetId| (EventAddress::Widget(id), UiEvent::Hover(Hover::Out)))
}

/// How an event router finds its targets.
enum Route {
    /// At most one node, given up front.
    Single(Option<usize>),
    /// Every node of a preorder search.
    Search(StoreDfs),
    /// The nodes of a preorder search that the mouse is over.
    UnderMouse(StoreDfs),
}

/// Yields, one at a time, the nodes that an event is delivered to.
pub struct EventRouter {
    route: Route,
}

impl EventRouter {
    /// The nodes still to be considered on `graph`, in order.
    pub closed spec fn pending(&self, graph: UiGraph) -> Seq<nat> {
        match self.route {
            Route::Single(Some(n)) => seq![n as nat],
            Route::Single(None) => Seq::empty(),
            Route::Search(d) => ui_dfs_pending(d, graph),
            Route::UnderMouse(d) => ui_dfs_pending(d, graph),
        }
    }

    /// Whether only the nodes the mouse is over are yielded.
    pub closed spec fn hit_tested(&self) -> bool {
        self.route is UnderMouse
    }

    /// The router can step on `graph` without panicking, and every node it
    /// still considers is a node of `graph`.
    pub closed spec fn valid_for(&self, graph: UiGraph) -> bool {
        &&& ui_shape(graph)
        &&& forall|i: int| 0 <= i < self.pending(graph).len() ==> #[trigger] self.pending(graph)[i] < ui_nodes(graph).len()
        &&& match self.route {
            Route::Single(_) => true,
            Route::Search(d) => search_ready(d, graph),
            Route::UnderMouse(d) => search_ready(d, graph),
        }
    }

    /// The next target node, `None` when there is none left. A hit-tested
    /// router asks `is_mouse_over` about each widget of its search in turn,
    /// stops at the first it places under the mouse, and records that
    /// widget's id among those the mouse is over.
    pub fn next<F: Fn(&Widget, &MousePosition) -> bool>(&mut self, ui: &mut Ui, is_mouse_over: F) -> (next: Option<usize>)
        requires
            old(self).valid_for(old(ui).graph),
            old(ui).wf(),
            forall|w: Widget, m: MousePosition| is_mouse_over.requires((&w, &m)),
        ensures
            final(self).valid_for(final(ui).graph),
            final(self).hit_tested() == old(self).hit_tested(),
            next matches Some(n) ==> n < old(ui).nodes().len(),
            final(ui).graph == old(ui).graph,
            final(ui).root_index == old(ui).root_index,
            final(ui).widget_map@ == old(ui).widget_map@,
            final(ui).dirty_widgets@ == old(ui).dirty_widgets@,
            final(ui).input_state.mouse == old(ui).input_state.mouse,
            final(ui).wf(),
            !old(self).hit_tested() ==> {
                &&& final(ui).input_state.last_over@ == old(ui).input_state.last_over@
                &&& old(self).pending(old(ui).graph).len() == 0 ==> next is None
                &&& old(self).pending(old(ui).graph).len() > 0 ==> {
                    &&& next == Some(old(self).pending(old(ui).graph)[0] as usize)
                    &&& final(self).pending(final(ui).graph) == old(self).pending(old(ui).graph).drop_first()
                }
            },
            old(self).hit_tested() ==> match next {
                Some(n) => exists|k: int| {
                    &&& 0 <= k < old(self).pending(old(ui).graph).len()
                    &&& n == old(self).pending(old(ui).graph)[k]
                    &&& is_mouse_over.ensures((&old(ui).nodes()[n as int], &old(ui).input_state.mouse), true)
                    &&& forall|j: int| 0 <= j < k ==> is_mouse_over.ensures(
                        (&old(ui).nodes()[#[trigger] old(self).pending(old(ui).graph)[j] as int], &old(ui).input_state.mouse), false)
                    &&& final(self).pending(final(ui).graph) == old(self).pending(old(ui).graph).skip(k + 1)
                    &&& final(ui).input_state.last_over@ == old(ui).input_state.last_over@.insert(old(ui).nodes()[n as int].id)
                },
                None => {
                    &&& final(self).pending(final(ui).graph).len() == 0
                    &&& final(ui).input_state.last_over@ == old(ui).input_state.last_over@
                    &&& forall|j: int| 0 <= j < old(self).pending(old(ui).graph).len() ==> is_mouse_over.ensures(
                        (&old(ui).nodes()[#[trigger] old(self).pending(old(ui).graph)[j] as int], &old(ui).input_state.mouse), false)
                },
            },
    {
        match &mut self.route {
            Route::Single(target) => {
                let found = *target;
                *target = None;
                found
            },
            Route::Search(dfs) => ui_dfs_next(dfs, &ui.graph),
            Route::UnderMouse(dfs) => next_under_mouse(dfs, ui, is_mouse_over),
        }
    }
}

/// The next node of the search `dfs` whose widget `is_mouse_over` places
/// under the mouse, recording that widget's id among those the mouse is
/// over; `None` when the search ends first.
fn next_under_mouse<F: Fn(&Widget, &MousePosition) -> bool>(dfs: &mut StoreDfs, ui: &mut Ui, is_mouse_over: F) -> (next: Option<usize>)
    requires
        search_ready(*old(dfs), old(ui).graph),
        forall|i: int| 0 <= i < ui_dfs_pending(*old(dfs), old(ui).graph).len()
            ==> #[trigger] ui_dfs_pending(*old(dfs), old(ui).graph)[i] < ui_nodes(old(ui).graph).len(),
        old(ui).wf(),
        forall|w: Widget, m: MousePosition| is_mouse_over.requires((&w, &m)),
    ensures
        search_ready(*final(dfs), final(ui).graph),
        final(ui).graph == old(ui).graph,
        final(ui).root_index == old(ui).root_index,
        final(ui).widget_map@ == old(ui).widget_map@,
        final(ui).dirty_widgets@ == old(ui).dirty_widgets@,
        final(ui).input_state.mouse == old(ui).input_state.mouse,
        final(ui).wf(),
        match next {
            Some(n) => exists|k: int| {
                &&& 0 <= k < ui_dfs_pending(*old(dfs), old(ui).graph).len()
                &&& n == ui_dfs_pending(*old(dfs), old(ui).graph)[k]
                &&& is_mouse_over.ensures((&old(ui).nodes()[n as int], &old(ui).input_state.mouse), true)
                &&& forall|j: int| 0 <= j < k ==> is_mouse_over.ensures(
                    (&old(ui).nodes()[#[trigger] ui_dfs_pending(*old(dfs), old(ui).graph)[j] as int], &old(ui).input_state.mouse), false)
                &&& ui_dfs_pending(*final(dfs), final(ui).graph) == ui_dfs_pending(*old(dfs), old(ui).graph).skip(k + 1)
                &&& final(ui).input_state.last_over@ == old(ui).input_state.last_over@.insert(old(ui).nodes()[n as int].id)
            },
            None => {
                &&& ui_dfs_pending(*final(dfs), final(ui).graph).len() == 0
                &&& final(ui).input_state.last_over@ == old(ui).input_state.last_over@
                &&& forall|j: int| 0 <= j < ui_dfs_pending(*old(dfs), old(ui).graph).len() ==> is_mouse_over.ensures(
                    (&old(ui).nodes()[#[trigger] ui_dfs_pending(*old(dfs), old(ui).graph)[j] as int], &old(ui).input_state.mouse), false)
            },
        },
{
    let ghost all = ui_dfs_pending(*dfs, ui.graph);
    let ghost mut k: int = 0;
    loop
        invariant
            search_ready(*dfs, ui.graph),
            ui.graph == old(ui).graph,
            ui.root_index == old(ui).root_index,
            ui.widget_map@ == old(ui).widget_map@,
            ui.dirty_widgets@ == old(ui).dirty_widgets@,
            ui.input_state.mouse == old(ui).input_state.mouse,
            ui.wf(),
            ui.input_state.last_over@ == old(ui).input_state.last_over@,
            all == ui_dfs_pending(*old(dfs), old(ui).graph),
            0 <= k <= all.len(),
            ui_dfs_pending(*dfs, ui.graph) == all.skip(k),
            forall|i: int| 0 <= i < all.len() ==> #[trigger] all[i] < ui_nodes(ui.graph).len(),
            forall|j: int| 0 <= j < k ==> is_mouse_over.ensures((&ui.nodes()[#[trigger] all[j] as int], &old(ui).input_state.mouse), false),
            forall|w: Widget, m: MousePosition| is_mouse_over.requires((&w, &m)),
        decreases all.len() - k,
    {
        let ghost before = ui_dfs_pending(*dfs, ui.graph);
        match ui_dfs_next(dfs, &ui.graph) {
            Some(node_index) => {
                let ghost kk = k;
                assert(before[0] == all[kk]);
                let widget = ui_node_weight(&ui.graph, node_index);
                let over = is_mouse_over(widget, &ui.input_state.mouse);
                proof {
                    assert(ui_dfs_pending(*dfs, ui.graph) =~= all.skip(kk + 1));
                    k = kk + 1;
                }
                if over {
                    let id = widget.id;
                    ui.input_state.last_over.insert(id);
                    assert({
                        &&& 0 <= kk < all.len()
                        &&& node_index == all[kk]
                        &&& is_mouse_over.ensures((&old(ui).nodes()[node_index as int], &old(ui).input_state.mouse), true)
                        &&& forall|j: int| 0 <= j < kk ==> is_mouse_over.ensures(
                            (&old(ui).nodes()[#[trigger] all[j] as int], &old(ui).input_state.mouse), false)
                        &&& ui_dfs_pending(*dfs, ui.graph) == all.skip(kk + 1)
                    });
                    return Some(node_index);
                }
            },
            None => {
                return None;
            },
        }
    }
}

/// The search `d` can step on `graph` without panicking.
pub open spec fn search_ready(d: StoreDfs, graph: UiGraph) -> bool {
    &&& forall|i: int| 0 <= i < dfs_stack(d).len() ==> #[trigger] dfs_stack(d)[i] < dfs_capacity(d)
    &&& ui_nodes(graph).len() <= dfs_capacity(d)
}

/// In a graph whose edges run between nodes below `n`, the neighbors of any
/// node are below `n`.
pub proof fn lemma_neighbors_below(n: nat, edges: Seq<(nat, nat)>, a: nat)
    requires
        crate::graph_model::edges_within(indices_below(n), edges),
    ensures
        forall|i: int| 0 <= i < out_neighbors(edges, a).len() ==> #[trigger] out_neighbors(edges, a)[i] < n,
{
    lemma_no_neighbors_outside(indices_below(n), edges, a);
    assert forall|i: int| 0 <= i < out_neighbors(edges, a).len() implies #[trigger] out_neighbors(edges, a)[i] < n by {
        assert(indices_below(n).contains(out_neighbors(edges, a)[i]));
    }
}

/// Every node that a search from a node of `g` yields is a node of `g`.
pub proof fn lemma_search_below(g: UiGraph, order: Seq<nat>, start: nat)
    requires
        ui_shape(g),
        start < ui_nodes(g).len(),
        search_order(order, seq_edge(ui_edges(g)), start, true),
    ensures
        forall|i: int| 0 <= i < order.len() ==> #[trigger] order[i] < ui_nodes(g).len(),
{
    assert forall|i: int| 0 <= i < order.len() implies #[trigger] order[i] < ui_nodes(g).len() by {
        assert(order.contains(order[i]));
        assert(indices_below(ui_nodes(g).len()).contains(start));
        lemma_reached_within(indices_below(ui_nodes(g).len()), ui_edges(g), start, order[i]);
    }
}

} // verus!
