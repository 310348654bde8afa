//! A registry of named key/value categories, and the decisions of the
//! worker that serves it over a message bus.

pub mod value;
pub mod category;
pub mod registry;
pub mod command;
pub mod session;
