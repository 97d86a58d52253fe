//! What holds of patches that are carried out on a live tree: the registry
//! stays balanced, the focus stays on a live node, and the tree comes to
//! show the new virtual tree.

pub mod identity;
pub mod balance;
pub mod focus;
pub mod attributes;
pub mod agree;
pub mod perform;
pub mod jobs;
pub mod keyed;
pub mod converge;
