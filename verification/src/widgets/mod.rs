//! Ready-made widgets and widget behaviours.

pub mod glcanvas;
pub mod hover;
