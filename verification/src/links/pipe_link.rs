use vstd::prelude::*;

verus! {

/// Errors of pipe links.
#[derive(Debug, Clone, Copy, PartialEq, Eq)]
pub enum PipeLinkError {
    /// The receiver has already been taken
    ReceiverTaken,
    /// The link has closed
    Closed,
}

} // verus!
