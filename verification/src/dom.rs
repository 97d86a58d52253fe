//! Live trees: their nodes and listeners, the registry that owns the listener
//! handles, the patches carried out on them, and the updater that keeps a
//! live tree in step with a virtual one.

pub mod error;
pub mod live;
pub mod model;
pub mod registry;
pub mod materialize;
pub mod locate;
pub mod edit;
pub mod tree_edit;
pub mod apply;
pub mod dom_updater;
pub mod cmd;
pub mod program;
