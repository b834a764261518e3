//! A widget that shows the contents of an OpenGL texture.

use vstd::prelude::*;
use crate::widget::{DrawState, GLCanvasState, Widget, WidgetId};

verus! {

/// Makes widgets that draw an OpenGL texture.
#[derive(Debug, Copy, Clone)]
pub struct GLCanvasBuilder;

impl GLCanvasBuilder {
    /// Creates a widget named "glcanvas", with id `id`, that draws the
    /// texture `texture_id`.
    pub fn new(texture_id: u64, id: WidgetId) -> (widget: Widget)
        ensures
            widget.id == id,
            widget.debug_name@ == "glcanvas"@,
            widget.draw_state == Some(DrawState::GLCanvas((GLCanvasState { texture_id }))),
            !widget.has_updated,
    {
        let image_draw_state = GLCanvasState::new(texture_id);
        let mut widget = Widget::new("glcanvas", id);
        widget.set_draw_state(DrawState::GLCanvas(image_draw_state));
        widget
    }
}

} // verus!
