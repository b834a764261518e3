//! Hovering: when the mouse enters or leaves a widget, the hover property is
//! added to or removed from the widget and everything below it.

use vstd::prelude::*;
use crate::widget::{EventArgs, EventHandler, Handler, PropChange, Property, Target, WidgetBuilder};

verus! {

/// The mouse entered (`Over`) or left (`Out`) a widget.
#[derive(PartialEq, Eq, Structural, Clone, Copy, Debug)]
pub enum Hover {
    Over,
    Out,
}

/// The property change that a hover event asks for.
pub open spec fn hover_change(event: Hover) -> PropChange {
    match event {
        Hover::Over => PropChange::Add(Property::Hover),
        Hover::Out => PropChange::Remove(Property::Hover),
    }
}

/// Turns hover events into property changes for the widget's subtree.
pub struct HoverHandler;

impl EventHandler<Hover> for HoverHandler {
    fn handle(&mut self, event: &Hover, args: &mut EventArgs)
        ensures
            final(args).widget_id == old(args).widget_id,
            final(args).queue.pending@ == old(args).queue.pending@.push(
                (Target::SubTree(old(args).widget_id), hover_change(*event)),
            ),
    {
        let change = match *event {
            Hover::Over => PropChange::Add(Property::Hover),
            Hover::Out => PropChange::Remove(Property::Hover),
        };
        let id = args.widget_id;
        args.queue.push(Target::SubTree(id), change);
    }
}

impl WidgetBuilder {
    /// Makes the widget react to the mouse entering and leaving it.
    pub fn enable_hover(&mut self) -> (this: &mut Self)
        ensures
            this.handlers@ == old(self).handlers@.push(Handler::Hover(HoverHandler)),
            *final(self) == *final(this),
    {
        self.add_handler(Handler::Hover(HoverHandler))
    }
}

} // verus!
