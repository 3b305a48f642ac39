use vstd::prelude::*;

use crate::links::latency::{
    default_history, ping_begun, ping_ended, spec_add_sample, spec_latency, LatencyHistory,
    LatencyView, MAX_DURATION_NANOS,
};
use crate::error::{LinkSetError, LinkSetResult};
use crate::links::link::Link;

verus! {

/// The bytes of a chunk that framing takes: what a link entry reserves of
/// each chunk its link takes.
pub const OVERHEAD: u32 = 56;

/// The largest payload for a link that takes chunks of `link_max` bytes: the
/// framing overhead is taken off, down to zero.
pub open spec fn spec_payload_size(link_max: u32) -> u32 {
    if link_max >= OVERHEAD {
        (link_max - OVERHEAD) as u32
    } else {
        0
    }
}

/// The largest payload for a link that takes chunks of `link_max` bytes.
pub fn payload_size(link_max: u32) -> (r: u32)
    ensures
        r == spec_payload_size(link_max),
{
    link_max.saturating_sub(OVERHEAD)
}

/// A link held by the link set, with the id that tells it from the others
/// and the timing of its pings.
pub struct LinkEntry<L> {
    id: u64,
    link: L,
    history: LatencyHistory,
}

/// What the link set knows of a link entry: its id and its ping timing.
#[verifier::ext_equal]
pub struct LinkEntryView {
    pub id: u64,
    pub history: LatencyView,
}

impl LinkEntryView {
    /// The estimated latency of the link, in nanoseconds.
    pub open spec fn latency(self) -> int {
        spec_latency(self.history.recent)
    }
}

impl<L> View for LinkEntry<L> {
    type V = LinkEntryView;

    closed spec fn view(&self) -> LinkEntryView {
        LinkEntryView { id: self.id, history: self.history@ }
    }
}

impl<L: Link> LinkEntry<L> {
    /// The link itself.
    pub closed spec fn link(&self) -> L {
        self.link
    }

    /// The ping timing is well formed.
    pub open spec fn wf(&self) -> bool {
        self@.history.wf()
    }

    /// A new entry for `link` under `id`, with the default latency history.
    pub fn new(link: L, id: u64) -> (r: Self)
        ensures
            r@ == (LinkEntryView { id, history: LatencyView { pinging: false, recent: default_history() } }),
            r.link() == link,
            r.wf(),
    {
        LinkEntry { id, link, history: LatencyHistory::new() }
    }

    /// The id of the link.
    pub fn id(&self) -> (r: u64)
        ensures
            r == self@.id,
    {
        self.id
    }

    /// The scheme of the link, as the link reports it.
    pub fn scheme(&self) -> &'static str {
        self.link.scheme()
    }

    /// Ends the pending ping, if there is one, recording its latency.
    pub fn end_ping(&mut self)
        requires
            old(self).wf(),
        ensures
            final(self)@.id == old(self)@.id,
            ping_ended(old(self)@.history, final(self)@.history),
            final(self).link() == old(self).link(),
    {
        self.history.end_ping();
    }

    /// Starts a ping, ending the pending one first. The caller then sends
    /// the ping across the link.
    pub fn begin_ping(&mut self)
        requires
            old(self).wf(),
        ensures
            final(self)@.id == old(self)@.id,
            ping_begun(old(self)@.history, final(self)@.history),
            final(self).link() == old(self).link(),
    {
        self.history.begin_ping();
    }

    /// Records a latency sample, in nanoseconds.
    pub fn add_latency(&mut self, latency: u128)
        requires
            old(self).wf(),
            latency <= MAX_DURATION_NANOS,
        ensures
            final(self)@ == (LinkEntryView {
                history: LatencyView {
                    recent: spec_add_sample(old(self)@.history.recent, latency),
                    ..old(self)@.history
                },
                ..old(self)@
            }),
            final(self).wf(),
            final(self).link() == old(self).link(),
    {
        self.history.add_latency(latency);
    }

    /// The estimated latency of the link, in nanoseconds: the average of the
    /// recent samples, rounded down.
    pub fn latency(&self) -> (r: u128)
        requires
            self.wf(),
        ensures
            r == self@.latency(),
    {
        self.history.latency()
    }

    /// The largest payload that a chunk of this link can carry: the payload
    /// size for the chunk size that the link reports.
    pub fn max_size(&self) -> (r: u32)
        ensures
            exists|m: u32| r == spec_payload_size(m),
    {
        let m = self.link.max_size();
        payload_size(m)
    }

    /// Whether the link reports itself closed. The link may update itself on
    /// the way; what the link set knows of the entry stays.
    pub fn is_closed(&mut self) -> (r: bool)
        ensures
            final(self)@ == old(self)@,
    {
        self.link.is_closed()
    }

    /// The link, to send or receive on.
    pub fn link_mut(&mut self) -> (r: &mut L)
        ensures
            *r == old(self).link(),
            final(self)@ == old(self)@,
            final(self).link() == *final(r),
    {
        &mut self.link
    }
}

/// Checks that a link whose chunks hold `size` bytes leaves room for the
/// framing: a link with no more room than the overhead cannot be used.
pub fn check_link_size(size: u32) -> (r: LinkSetResult<()>)
    ensures
        size > OVERHEAD ==> r is Ok,
        size <= OVERHEAD ==> (r matches Err(LinkSetError::Implementation { size: s, required_size: q })
            && s == size && q == OVERHEAD),
{
    if size <= OVERHEAD {
        Err(LinkSetError::Implementation { size, required_size: OVERHEAD })
    } else {
        Ok(())
    }
}

/// Hands out the ids of the links of a link set, each one once.
pub struct LinkIds {
    next: u64,
}

impl LinkIds {
    /// The id that the next link gets.
    pub closed spec fn next_id(&self) -> u64 {
        self.next
    }

    /// The id that the next link gets.
    pub fn next(&self) -> (r: u64)
        ensures
            r == self.next_id(),
    {
        self.next
    }

    /// Ids counted from zero.
    pub fn new() -> (r: LinkIds)
        ensures
            r.next_id() == 0,
    {
        LinkIds { next: 0 }
    }

    /// Gives `link` the next id and a new entry, if its chunks leave room
    /// for the framing. The id is used up either way.
    pub fn wrap_link<L: Link>(&mut self, link: L) -> (r: LinkSetResult<LinkEntry<L>>)
        requires
            old(self).next_id() < u64::MAX,
        ensures
            final(self).next_id() == old(self).next_id() + 1,
            r matches Ok(e) ==> {
                &&& e@ == (LinkEntryView {
                    id: old(self).next_id(),
                    history: LatencyView { pinging: false, recent: default_history() },
                })
                &&& e.link() == link
                &&& e.wf()
            },
            r matches Err(e) ==> e matches LinkSetError::Implementation { size: s, required_size: q }
                && s <= OVERHEAD && q == OVERHEAD,
    {
        let id = self.next;
        self.next = self.next + 1;
        match check_link_size(link.max_size()) {
            Ok(()) => Ok(LinkEntry::new(link, id)),
            Err(e) => Err(e),
        }
    }
}

} // verus!
