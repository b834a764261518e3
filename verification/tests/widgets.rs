use limn::widget::{
    DrawState, EventArgs, EventHandler, EventQueue, GLCanvasState, Handler, PropChange, Property,
    Target, WidgetBuilder,
};
use limn::widgets::glcanvas::GLCanvasBuilder;
use limn::widgets::hover::{Hover, HoverHandler};

#[test]
fn glcanvas_widget_draws_its_texture() {
    let widget = GLCanvasBuilder::new(17, 3);
    assert_eq!(widget.id, 3);
    assert_eq!(widget.debug_name, "glcanvas");
    assert_eq!(widget.draw_state, Some(DrawState::GLCanvas(GLCanvasState { texture_id: 17 })));
    assert!(!widget.has_updated);
}

#[test]
fn hover_over_adds_hover_to_subtree() {
    let mut handler = HoverHandler;
    let mut args = EventArgs { widget_id: 5, queue: EventQueue::new() };
    handler.handle(&Hover::Over, &mut args);
    assert_eq!(args.widget_id, 5);
    assert_eq!(args.queue.pending, vec![(Target::SubTree(5), PropChange::Add(Property::Hover))]);
}

#[test]
fn hover_out_removes_hover_from_subtree() {
    let mut handler = HoverHandler;
    let mut args = EventArgs { widget_id: 8, queue: EventQueue::new() };
    args.queue.push(Target::Widget(1), PropChange::Add(Property::Hover));
    handler.handle(&Hover::Out, &mut args);
    assert_eq!(
        args.queue.pending,
        vec![
            (Target::Widget(1), PropChange::Add(Property::Hover)),
            (Target::SubTree(8), PropChange::Remove(Property::Hover)),
        ]
    );
}

#[test]
fn enable_hover_attaches_one_handler_each_time() {
    let mut builder = WidgetBuilder::new();
    assert_eq!(builder.handlers.len(), 0);
    builder.enable_hover().enable_hover();
    assert_eq!(builder.handlers.len(), 2);
    assert!(matches!(builder.handlers[0], Handler::Hover(HoverHandler)));
}
