use vstd::prelude::*;

use crate::links::link::Link;

verus! {

/// A link that can hold on to one received chunk, so that it can be looked
/// at before it is consumed.
pub struct Peekable<L> {
    link: L,
    peeked: Option<Vec<u8>>,
}

/// The bytes of a held chunk, if any.
pub open spec fn opt_bytes(v: Option<Vec<u8>>) -> Option<Seq<u8>> {
    match v {
        Some(d) => Some(d@),
        None => None,
    }
}

impl<L: Link> Peekable<L> {
    /// The wrapped link.
    pub closed spec fn link(&self) -> L {
        self.link
    }

    /// The held chunk, if any.
    pub closed spec fn peeked(&self) -> Option<Seq<u8>> {
        opt_bytes(self.peeked)
    }

    /// Wraps `link`, holding nothing yet.
    pub fn new(link: L) -> (r: Self)
        ensures
            r.link() == link,
            r.peeked() is None,
    {
        Peekable { link, peeked: None }
    }

    /// Hands out the held chunk, if there is one; nothing is held afterwards.
    pub fn take_peeked(&mut self) -> (r: Option<Vec<u8>>)
        ensures
            opt_bytes(r) == old(self).peeked(),
            final(self).peeked() is None,
            final(self).link() == old(self).link(),
    {
        self.peeked.take()
    }

    /// Whether a chunk is held.
    pub fn has_peeked(&self) -> (r: bool)
        ensures
            r == self.peeked() is Some,
    {
        self.peeked.is_some()
    }

    /// The held chunk, if any, left in place.
    pub fn peeked_data(&self) -> (r: Option<&Vec<u8>>)
        ensures
            r matches Some(d) ==> self.peeked() == Some(d@),
            r is None ==> self.peeked() is None,
    {
        match &self.peeked {
            Some(d) => Some(d),
            None => None,
        }
    }

    /// Holds `data`, a chunk just received from the link, in place of
    /// whatever was held.
    pub fn store_peeked(&mut self, data: Vec<u8>)
        ensures
            final(self).peeked() == Some(data@),
            final(self).link() == old(self).link(),
    {
        self.peeked = Some(data);
    }

    /// The wrapped link, to send or receive on.
    pub fn link_mut(&mut self) -> (r: &mut L)
        ensures
            *r == old(self).link(),
            final(self).link() == *final(r),
            final(self).peeked() == old(self).peeked(),
    {
        &mut self.link
    }
}

impl<L: Link> Link for Peekable<L> {
    fn scheme(&self) -> &'static str {
        self.link.scheme()
    }

    fn max_size(&self) -> u32 {
        self.link.max_size()
    }

    fn is_closed(&mut self) -> bool {
        self.link.is_closed()
    }
}

} // verus!
