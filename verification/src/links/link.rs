use vstd::prelude::*;

verus! {

/// What the link set reads of a link besides the bytes it carries: its
/// scheme, the largest chunk it takes, and whether it has closed.
///
/// Links are written by the users of the library; nothing is assumed of
/// what these methods answer. Sending and receiving are asynchronous and
/// belong to the runtime around the library; a link type implements both.
pub trait Link {
    /// The scheme of the addresses this link connects to.
    fn scheme(&self) -> &'static str;

    /// The largest chunk of bytes that the link takes at once. The link set
    /// never hands it a larger one.
    fn max_size(&self) -> u32;

    /// A hint that the link can no longer carry data.
    fn is_closed(&mut self) -> bool;
}

} // verus!
