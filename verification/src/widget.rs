//! What the library knows of a widget: its id, its name, what it draws, and
//! the handlers that a builder attaches to it.

use vstd::prelude::*;

verus! {

/// Identifies a widget; ids are handed out by the application.
pub type WidgetId = u64;

/// A property that a widget can have, and that event handlers add or remove.
#[derive(PartialEq, Eq, Structural, Clone, Copy, Debug)]
pub enum Property {
    Hover,
}

/// A change to the properties of the widgets of a subtree.
#[derive(PartialEq, Eq, Structural, Clone, Copy, Debug)]
pub enum PropChange {
    Add(Property),
    Remove(Property),
}

/// Where a queued event is sent.
#[derive(PartialEq, Eq, Structural, Clone, Copy, Debug)]
pub enum Target {
    /// The widget itself.
    Widget(WidgetId),
    /// The first child of the widget.
    Child(WidgetId),
    /// The widget and every widget below it.
    SubTree(WidgetId),
}

/// Property changes waiting to be delivered, in the order they were pushed.
pub struct EventQueue {
    pub pending: Vec<(Target, PropChange)>,
}

impl EventQueue {
    pub fn new() -> (queue: Self)
        ensures
            queue.pending@ == Seq::<(Target, PropChange)>::empty(),
    {
        EventQueue { pending: Vec::new() }
    }

    /// Appends a change addressed to `target`.
    pub fn push(&mut self, target: Target, change: PropChange)
        ensures
            final(self).pending@ == old(self).pending@.push((target, change)),
    {
        self.pending.push((target, change));
    }
}

/// What an event handler is given besides the event: the widget it runs for
/// and the queue it may push further events to.
pub struct EventArgs {
    pub widget_id: WidgetId,
    pub queue: EventQueue,
}

/// Behaviour attached to a widget that reacts to events of type `E`.
pub trait EventHandler<E> {
    fn handle(&mut self, event: &E, args: &mut EventArgs);
}

/// State of a canvas whose pixels come from an OpenGL texture.
#[derive(PartialEq, Eq, Structural, Clone, Copy, Debug)]
pub struct GLCanvasState {
    pub texture_id: u64,
}

impl GLCanvasState {
    pub fn new(texture_id: u64) -> (state: Self)
        ensures
            state.texture_id == texture_id,
    {
        GLCanvasState { texture_id }
    }
}

/// What a widget draws.
#[derive(PartialEq, Eq, Structural, Clone, Copy, Debug)]
pub enum DrawState {
    GLCanvas(GLCanvasState),
}

/// A widget: its id, a name for debugging, what it draws, and whether its
/// drawing changed since it was last drawn.
pub struct Widget {
    pub id: WidgetId,
    pub debug_name: String,
    pub draw_state: Option<DrawState>,
    pub has_updated: bool,
}

impl Widget {
    /// A widget with the given name and id that draws nothing yet.
    pub fn new(debug_name: &str, id: WidgetId) -> (widget: Self)
        ensures
            widget.id == id,
            widget.debug_name@ == debug_name@,
            widget.draw_state == None::<DrawState>,
            !widget.has_updated,
    {
        Widget { id, debug_name: debug_name.to_string(), draw_state: None, has_updated: false }
    }

    /// Replaces what the widget draws.
    pub fn set_draw_state(&mut self, state: DrawState)
        ensures
            final(self).id == old(self).id,
            final(self).debug_name@ == old(self).debug_name@,
            final(self).draw_state == Some(state),
            final(self).has_updated == old(self).has_updated,
    {
        self.draw_state = Some(state);
    }
}

/// A widget as it is stored in the widget graph.
pub struct WidgetContainer {
    pub widget: Widget,
}

/// The handlers that a builder can attach to a widget.
pub enum Handler {
    Hover(crate::widgets::hover::HoverHandler),
}

/// Collects what a widget will be made of before it is added to the graph.
pub struct WidgetBuilder {
    pub handlers: Vec<Handler>,
}

impl WidgetBuilder {
    pub fn new() -> (builder: Self)
        ensures
            builder.handlers@.len() == 0,
    {
        WidgetBuilder { handlers: Vec::new() }
    }

    /// Attaches `handler`, after those already attached, and hands the
    /// builder back for further calls.
    pub fn add_handler(&mut self, handler: Handler) -> (this: &mut Self)
        ensures
            this.handlers@ == old(self).handlers@.push(handler),
            *final(self) == *final(this),
    {
        self.handlers.push(handler);
        self
    }
}

} // verus!
