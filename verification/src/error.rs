use vstd::prelude::*;

verus! {

/// Errors produced by the link set.
///
/// Where an error carries the error of another component (a link, a
/// serializer), the variant holds its description.
#[derive(Debug, Clone, PartialEq, Eq)]
pub enum LinkSetError {
    /// deserialize: unexpected end of stream
    DeserializeEOF,
    /// deserialize: found an invalid byte
    DeserializeInvalid(u8),
    /// deserialize: invalid slice length: 0
    DeserializeInvalidLen,
    /// A task of the link set terminated with the described error
    TaskTerminated(String),
    /// The message could not be turned into bytes
    SendableSerialization(String),
    /// The message could not be rebuilt from its bytes
    SendableDeserialization(String),
    /// A link failed an operation with the described error
    LinkError(String),
    /// The receiver has been taken from this link set (or this LinkSet is a
    /// sender clone)
    ReceiverTaken,
    /// A link has closed
    Closed,
    /// The link set has terminated
    Terminated,
    /// An address held another kind of representation than the one asked for
    IncorrectAddrType { expected: String, found: String },
    /// A link offers less room per chunk than the link set needs for its
    /// framing
    Implementation { size: u32, required_size: u32 },
}

/// A [Result] of the link set
pub type LinkSetResult<T> = Result<T, LinkSetError>;

} // verus!
