use vstd::prelude::*;

use crate::links::latency::{
    default_history, ping_begun, ping_ended, spec_add_sample, LatencyHistory,
    LatencyView, MAX_DURATION_NANOS,
};
use crate::links::link::Link;
use crate::links::link_entry::LinkEntryView;

verus! {

/// A link with the id that tells it from the others and the timing of its
/// pings, whose chunks carry protocol messages without framing overhead.
pub struct WrappedLink<L> {
    id: u64,
    link: L,
    history: LatencyHistory,
}

impl<L> View for WrappedLink<L> {
    type V = LinkEntryView;

    closed spec fn view(&self) -> LinkEntryView {
        LinkEntryView { id: self.id, history: self.history@ }
    }
}

impl<L: Link> WrappedLink<L> {
    /// The link itself.
    pub closed spec fn link(&self) -> L {
        self.link
    }

    /// The ping timing is well formed.
    pub open spec fn wf(&self) -> bool {
        self@.history.wf()
    }

    /// A new wrapper for `link` under `id`, with the default latency history.
    pub fn new(link: L, id: u64) -> (r: Self)
        ensures
            r@ == (LinkEntryView { id, history: LatencyView { pinging: false, recent: default_history() } }),
            r.link() == link,
            r.wf(),
    {
        WrappedLink { id, link, history: LatencyHistory::new() }
    }

    /// The id of the link.
    pub fn id(&self) -> (r: u64)
        ensures
            r == self@.id,
    {
        self.id
    }

    /// The scheme of the link, as the link reports it.
    pub fn scheme(&self) -> &'static str {
        self.link.scheme()
    }

    /// Ends the pending ping, if there is one, recording its latency.
    pub fn end_ping(&mut self)
        requires
            old(self).wf(),
        ensures
            final(self)@.id == old(self)@.id,
            ping_ended(old(self)@.history, final(self)@.history),
            final(self).link() == old(self).link(),
    {
        self.history.end_ping();
    }

    /// Starts a ping, ending the pending one first. The caller then sends
    /// the ping across the link.
    pub fn begin_ping(&mut self)
        requires
            old(self).wf(),
        ensures
            final(self)@.id == old(self)@.id,
            ping_begun(old(self)@.history, final(self)@.history),
            final(self).link() == old(self).link(),
    {
        self.history.begin_ping();
    }

    /// Records a latency sample, in nanoseconds.
    pub fn add_latency(&mut self, latency: u128)
        requires
            old(self).wf(),
            latency <= MAX_DURATION_NANOS,
        ensures
            final(self)@ == (LinkEntryView {
                history: LatencyView {
                    recent: spec_add_sample(old(self)@.history.recent, latency),
                    ..old(self)@.history
                },
                ..old(self)@
            }),
            final(self).wf(),
            final(self).link() == old(self).link(),
    {
        self.history.add_latency(latency);
    }

    /// The estimated latency of the link, in nanoseconds: the average of the
    /// recent samples, rounded down.
    pub fn latency(&self) -> (r: u128)
        requires
            self.wf(),
        ensures
            r == self@.latency(),
    {
        self.history.latency()
    }

    /// The largest chunk that the link takes, as the link reports it.
    pub fn max_size(&self) -> u32 {
        self.link.max_size()
    }

    /// Whether the link reports itself closed. The link may update itself on
    /// the way; what the link set knows of it stays.
    pub fn is_closed(&mut self) -> (r: bool)
        ensures
            final(self)@ == old(self)@,
    {
        self.link.is_closed()
    }

    /// The link, to send or receive on.
    pub fn link_mut(&mut self) -> (r: &mut L)
        ensures
            *r == old(self).link(),
            final(self)@ == old(self)@,
            final(self).link() == *final(r),
    {
        &mut self.link
    }
}

} // verus!
