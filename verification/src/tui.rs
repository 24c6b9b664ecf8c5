//! Interactive exploration of a report: directory tree, view state, the text it
//! shows, and what holds across its operations.

pub mod app;
pub mod laws;
pub mod tree;
pub mod view;
