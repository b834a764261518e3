//! A widget tree for a retained-mode user interface: widgets live in a graph
//! whose edges run from parent to child, are found again by their ids, and
//! are visited in depth-first order when events are routed to them.

pub mod graph_model;
pub mod ui;
pub mod ui_store;
pub mod widget;
pub mod widget_store;
pub mod widgets;
