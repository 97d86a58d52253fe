//! Virtual trees: nodes, their attributes, the patches that change them, and
//! the paths that address them.

pub mod path;
pub mod value;
pub mod attribute;
pub mod node;
pub mod patch;
pub mod html;
