//! Keeps a live tree in step with a virtual one: two virtual trees are compared
//! into an ordered list of patches, and the patches are carried out on the
//! live tree, with the listeners that are attached in it and the focus that is
//! on one of its nodes.

pub mod vdom;
pub mod diff;
pub mod dom;
pub mod proofs;
