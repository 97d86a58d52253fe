use vstd::prelude::*;

verus! {

/// Why a list of patches could not be carried out, or a handle not released.
#[derive(Debug, PartialEq, Eq, Clone, Copy)]
pub enum PatchError {
    /// A patch addresses a node that the live tree does not hold.
    PathResolutionFailure,
    /// The live tree cannot carry out a patch on the node that it addresses.
    BackendMutationFailure,
    /// A handle was to be released that the registry does not hold.
    RegistryInconsistency,
}

} // verus!
