use vstd::prelude::*;

verus! {

/// The failures that the core reports to its callers.
#[derive(Clone, Copy, Debug, PartialEq, Eq, Structural)]
pub enum AudioError {
    /// An invalid target bit depth, or a target depth above the source depth.
    ConfigurationError,
    /// An empty buffer handed to the transform, or a source depth that
    /// leaves the scale factor ill-defined.
    DomainError,
}

} // verus!
