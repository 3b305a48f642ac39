use vstd::prelude::*;

use crate::epoch::spec_increment;
use crate::protocol::ProtocolView;
use crate::state::spec::{
    Decision, connecting_timer, decide, decide_followup, int_epoch, period_timer, skips,
};
use crate::state::types::{
    ActionView, CommandView, Config, EventView, Followup, NoticeView, StateView,
};

verus! {

/// Leaving an established epoch, by any decision, moves on to the next epoch:
/// the state that follows offers the epoch after the one that was left.
pub proof fn law_leaving_epoch_advances(s: StateView, cfg: Config, ev: EventView)
    requires
        s.in_epoch(),
        !decide(s, cfg, ev).state.in_epoch(),
    ensures
        decide(s, cfg, ev).state.pending_epoch() == Some(spec_increment(s.current_epoch())),
{
}

/// The same holds of the decisions taken once the links were checked.
pub proof fn law_leaving_epoch_advances_followup(s: StateView, cfg: Config, f: Followup, links_empty: bool)
    requires
        s.in_epoch(),
        !decide_followup(s, cfg, f, links_empty).state.in_epoch(),
    ensures
        decide_followup(s, cfg, f, links_empty).state.pending_epoch() == Some(
            spec_increment(s.current_epoch()),
        ),
{
}

/// The epoch that two sides agree on: the greater of the two offers, where
/// no offer counts as less than any, and the first epoch where neither side
/// offers one.
pub open spec fn agreed_epoch(ours: Option<u64>, theirs: Option<u64>) -> u64 {
    match (ours, theirs) {
        (Some(a), Some(b)) => if a < b {
            b
        } else {
            a
        },
        (Some(a), None) => a,
        (None, Some(b)) => b,
        (None, None) => 1,
    }
}

/// During the epoch negotiation, a reset from the other side either connects
/// with the agreed epoch, or, when our own offer is greater, leaves us
/// negotiating and sends our offer back. The agreed epoch is never below
/// either offer.
pub proof fn law_epoch_agreement(
    queued: Seq<Seq<u8>>,
    ours: Option<u64>,
    cfg: Config,
    id: u64,
    theirs: u64,
    request: bool,
)
    ensures
        ({
            let s = StateView::EpochMismatch { queued, epoch: ours };
            let d = decide(
                s,
                cfg,
                EventView::Link { id, msg: ProtocolView::Reset { epoch: theirs, request } },
            );
            let other = int_epoch(theirs);
            match d.state {
                StateView::Connected { epoch, .. } => {
                    &&& epoch == agreed_epoch(ours, other)
                    &&& (ours matches Some(a) ==> a <= epoch)
                    &&& (other matches Some(b) ==> b <= epoch)
                    &&& epoch != 0 || ours == Some(0u64)
                },
                _ => {
                    &&& d.state == s
                    &&& ours matches Some(a) && (other matches Some(b) ==> b < a)
                    &&& d.step.actions == seq![ActionView::Reset { epoch: ours, request: false }]
                },
            }
        }),
{
}

/// A message bound to an epoch is never taken in outside that epoch: where
/// no epoch is established, or another one is, the decision keeps the state
/// as it was and does nothing.
pub proof fn law_bound_message_stays_in_epoch(s: StateView, cfg: Config, data: Seq<u8>, bound: u64)
    requires
        !s.in_epoch() || s.current_epoch() != bound,
    ensures
        decide(s, cfg, EventView::Command(CommandView::Message(data, Some(bound)))).state == s,
        decide(s, cfg, EventView::Command(CommandView::Message(data, Some(bound)))).step.actions
            == Seq::<ActionView>::empty(),
{
}

/// Whether the actions tell the user of a connection.
pub open spec fn announces_connected(actions: Seq<ActionView>) -> bool {
    exists|i: int| 0 <= i < actions.len() && (#[trigger] actions[i]) is Notify && actions[i]->Notify_0 is Connected
}

/// Whether the actions tell the user of a disconnection.
pub open spec fn announces_disconnected(actions: Seq<ActionView>) -> bool {
    exists|i: int|
        0 <= i < actions.len() && #[trigger] actions[i] == ActionView::Notify(NoticeView::Disconnected)
}

/// A reconnection within the epoch is not seen by the user: when the last
/// link is lost and reconnecting is configured, the epoch and its messages
/// are kept and no disconnection is announced; when a link then comes back,
/// the connection resumes with the same epoch and messages and no connection
/// is announced.
pub proof fn law_reconnection_is_invisible(s: StateView, cfg: Config)
    requires
        s is Connected,
        !skips(cfg.reconnecting_timeout),
    ensures
        ({
            let lost = decide_followup(s, cfg, Followup::DetermineState, true);
            &&& lost.state == (StateView::Reconnecting { mm: s->Connected_mm, epoch: s->Connected_epoch })
            &&& !announces_disconnected(lost.step.actions)
            &&& !announces_connected(lost.step.actions)
        }),
        ({
            let back = decide(
                StateView::Reconnecting { mm: s->Connected_mm, epoch: s->Connected_epoch },
                cfg,
                EventView::Command(CommandView::AddLink { wrapped: true }),
            );
            &&& back.state == s
            &&& !announces_disconnected(back.step.actions)
            &&& !announces_connected(back.step.actions)
        }),
{
    let lost = decide_followup(s, cfg, Followup::DetermineState, true);
    let a = lost.step.actions;
    assert(a == period_timer(cfg.reconnecting_timeout) + seq![
        ActionView::DropLinks,
        ActionView::StartConnectors,
    ]);
    assert forall|i: int| 0 <= i < a.len() implies !((#[trigger] a[i]) is Notify) by {
        match cfg.reconnecting_timeout {
            Some(t) => {
                assert(a =~= seq![ActionView::SetDeadline(t), ActionView::DropLinks, ActionView::StartConnectors]);
            },
            None => {
                assert(a =~= seq![ActionView::ClearTimer, ActionView::DropLinks, ActionView::StartConnectors]);
            },
        }
    }
    let back = decide(
        StateView::Reconnecting { mm: s->Connected_mm, epoch: s->Connected_epoch },
        cfg,
        EventView::Command(CommandView::AddLink { wrapped: true }),
    );
    let b = back.step.actions;
    assert forall|i: int| 0 <= i < b.len() implies (#[trigger] b[i]) != ActionView::Notify(
        NoticeView::Disconnected,
    ) && !(b[i] is Notify && b[i]->Notify_0 is Connected) by {
        assert(b[i] == ActionView::StopConnectors || b[i] == ActionView::AddLink || b[i]
            == ActionView::PingAll || b[i] == ActionView::Notify(NoticeView::Connecting(false))
            || b[i] == ActionView::ClearTimer || b[i] is SetRepeat);
    }
}

/// When a waiting period ends, the link set tries to connect again if auto
/// connect is on, and is disconnected otherwise; either way the epoch moves
/// on.
pub proof fn law_waiting_ends_by_auto_connect(s: StateView, cfg: Config, since: u128)
    requires
        s is Reconnecting || s is GracePeriod,
    ensures
        ({
            let d = decide(s, cfg, EventView::Timer { since_last_ping_nanos: since });
            &&& cfg.auto_connect ==> d.state is Connecting
            &&& !cfg.auto_connect ==> d.state is Disconnected
            &&& d.state.pending_epoch() == Some(spec_increment(s.current_epoch()))
        }),
{
}

} // verus!
