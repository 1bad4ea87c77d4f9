//! View definitions, view instances and the workspace that arranges them.

pub mod bindings;
pub mod compound;
pub mod content_state;
pub mod context;
pub mod definition;
pub mod extension;
pub mod forest;
pub mod instance;
pub mod laws;
pub mod layout;
pub mod panes;
pub mod registry;
pub mod registry_laws;
pub mod scene;
pub mod soundness;
pub mod talk;
pub mod workspace;
