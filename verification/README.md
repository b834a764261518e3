# limn

The core of a retained-mode user interface toolkit, verified with Verus.

- `src/widget.rs`: widgets, widget builders, event arguments and queues.
- `src/widgets/`: the hover behaviour and the OpenGL canvas widget.
- `src/ui/graph.rs`: `WidgetGraph`, a widget tree kept in a petgraph
  `StableGraph`, with walkers over parents, children, subtrees (preorder)
  and the widgets under the cursor (postorder).
- `src/ui.rs`: `Ui`, which keeps widgets in a petgraph `Graph`, tracks dirty
  widgets and the widgets under the mouse, and routes queued events to their
  target widgets.
- `src/widget_store.rs`, `src/ui_store.rs`: the petgraph types and calls the
  library relies on, with the contracts it assumes of them, stated over a
  plain model: nodes, each node's edge lists (newest first) or the edge
  list (oldest first), and what walkers and searches still yield.
- `src/graph_model.rs`: neighbor order, node removal on neighbor lists,
  reachability, and the orders a depth-first search yields.
- `app/`: the floating-point side: root layout with a cassowary solver,
  rectangle hit tests handed to the library as closures, cropping while
  drawing, and the loop that drains the event queue.
