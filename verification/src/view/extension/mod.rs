//! Extensions: views of a definition get panes with lines that an extension provides.

pub mod definition;
pub mod document;
pub mod laws;
pub mod pane_laws;
pub mod presentation;
pub mod reconcile;
pub mod store;
pub mod table;
