use vstd::prelude::*;

use crate::message_manager::MessageView;
use crate::slice_manager::SliceView;
use crate::state::spec::{decide, decide_followup, mm_fresh, mm_with_queue};
use crate::state::types::{ActionView, CommandView, Config, EventView, Followup, NoticeView, StateView};

verus! {

/// The message `data`, numbered `seq`, held for sending in `epoch` with
/// nothing of it acknowledged yet.
pub open spec fn new_outgoing(epoch: u64, seq: u64, data: Seq<u8>) -> SliceView {
    SliceView { epoch, seq, seq_len: data.len() as u64, data, acked: 0 }
}

/// The message manager of a state that holds an established epoch.
pub open spec fn held_messages(s: StateView) -> MessageView {
    match s {
        StateView::Connected { mm, .. } => mm,
        StateView::Reconnecting { mm, .. } => mm,
        StateView::GracePeriod { mm, .. } => mm,
        _ => MessageView {
            epoch: 0,
            outgoing: Seq::empty(),
            next_seq: 0,
            incoming: Seq::empty(),
            last_ack: (0, 0),
        },
    }
}

/// `after` holds what `before` held and, as its next outgoing message, `data`.
pub open spec fn appended(before: MessageView, after: MessageView, data: Seq<u8>) -> bool {
    &&& after.outgoing.len() == before.outgoing.len() + 1
    &&& after.outgoing.take(before.outgoing.len() as int) == before.outgoing
    &&& after.outgoing.last() == new_outgoing(before.epoch, before.next_seq, data)
    &&& after.next_seq == before.next_seq + 1
    &&& after.epoch == before.epoch
    &&& after.incoming == before.incoming
    &&& after.last_ack == before.last_ack
}

/// The connected timer's resend check sends again the earliest message that
/// the other side has not acknowledged, and only that one, so each message
/// held is resent in turn until it is acknowledged: with links left and
/// messages held, the one message sent is the held message with the
/// smallest sequence number. Without links or without held messages nothing
/// is sent. Either way the links are checked next.
pub proof fn law_timer_resends_earliest(mm: MessageView, epoch: u64, cfg: Config, links_empty: bool)
    requires
        mm.wf(),
    ensures
        ({
            let d = decide_followup(
                StateView::Connected { mm, epoch },
                cfg,
                Followup::ResendFirst,
                links_empty,
            );
            &&& d.state == StateView::Connected { mm, epoch }
            &&& d.step.followup == Some(Followup::DetermineState)
            &&& (links_empty || mm.outgoing.len() == 0) ==> d.step.actions.len() == 0
            &&& (!links_empty && mm.outgoing.len() > 0) ==> exists|s: u64|
                {
                    &&& d.step.actions == seq![ActionView::SendSlices(s)]
                    &&& exists|i: int| 0 <= i < mm.outgoing.len() && mm.outgoing[i].seq == s
                    &&& forall|j: int| 0 <= j < mm.outgoing.len() ==> s <= #[trigger] mm.outgoing[j].seq
                }
        }),
{
    if !links_empty && mm.outgoing.len() > 0 {
        let s = mm.outgoing[0].seq;
        assert forall|j: int| 0 <= j < mm.outgoing.len() implies s <= #[trigger] mm.outgoing[j].seq by {
            if j > 0 {
                assert(mm.outgoing[0].seq < mm.outgoing[j].seq);
            }
        }
        assert(exists|i: int| 0 <= i < mm.outgoing.len() && mm.outgoing[i].seq == s);
    }
}

/// While the links are lost within an epoch (reconnecting or in the grace
/// period), a message the user sends for that epoch is not lost: it is kept
/// as the next outgoing message of the epoch, to be sent once a link is
/// back, and the state stays as it was otherwise.
pub proof fn law_waiting_keeps_user_messages(
    s: StateView,
    cfg: Config,
    data: Seq<u8>,
    bound: Option<u64>,
)
    requires
        s is Reconnecting || s is GracePeriod,
        bound is None || bound == Some(s.current_epoch()),
        held_messages(s).next_seq < u64::MAX,
    ensures
        ({
            let d = decide(s, cfg, EventView::Command(CommandView::Message(data, bound)));
            &&& d.state.current_epoch() == s.current_epoch()
            &&& (s is Reconnecting ==> d.state is Reconnecting)
            &&& (s is GracePeriod ==> d.state is GracePeriod)
            &&& appended(held_messages(s), held_messages(d.state), data)
            &&& d.step.actions.len() == 0
        }),
{
    let mm = held_messages(s);
    let d = decide(s, cfg, EventView::Command(CommandView::Message(data, bound)));
    assert(held_messages(d.state).outgoing.take(mm.outgoing.len() as int) =~= mm.outgoing);
}

/// Disconnecting while connecting gives up the attempt: the connectors are
/// stopped, the user is told that connecting ended, and the link set is
/// disconnected with the epoch it was going to offer.
pub proof fn law_disconnect_stops_connecting(queued: Seq<Seq<u8>>, epoch: Option<u64>, cfg: Config)
    ensures
        ({
            let d = decide(
                StateView::Connecting { queued, epoch },
                cfg,
                EventView::Command(CommandView::Disconnect),
            );
            &&& d.state == StateView::Disconnected { epoch }
            &&& d.step.actions.contains(ActionView::StopConnectors)
            &&& d.step.actions.contains(ActionView::Notify(NoticeView::Connecting(false)))
        }),
{
    let d = decide(
        StateView::Connecting { queued, epoch },
        cfg,
        EventView::Command(CommandView::Disconnect),
    );
    assert(d.step.actions[0] == ActionView::StopConnectors);
    assert(d.step.actions[2] == ActionView::Notify(NoticeView::Connecting(false)));
}

/// The manager after inserting the queued messages in order: each becomes
/// the next outgoing message, numbered on from the next sequence number.
proof fn lemma_with_queue(mm: MessageView, queued: Seq<Seq<u8>>)
    requires
        mm.next_seq + queued.len() <= u64::MAX,
    ensures
        ({
            let r = mm_with_queue(mm, queued);
            &&& r.outgoing.len() == mm.outgoing.len() + queued.len()
            &&& r.outgoing.take(mm.outgoing.len() as int) == mm.outgoing
            &&& forall|i: int|
                0 <= i < queued.len() ==> #[trigger] r.outgoing[mm.outgoing.len() + i] == new_outgoing(
                    mm.epoch,
                    (mm.next_seq + i) as u64,
                    queued[i],
                )
            &&& r.next_seq == mm.next_seq + queued.len()
            &&& r.epoch == mm.epoch
            &&& r.incoming == mm.incoming
            &&& r.last_ack == mm.last_ack
        }),
    decreases queued.len(),
{
    if queued.len() == 0 {
        assert(mm.outgoing.take(mm.outgoing.len() as int) =~= mm.outgoing);
    } else {
        let m1 = crate::message_manager::mm_insert(mm, queued[0]);
        let rest = queued.drop_first();
        lemma_with_queue(m1, rest);
        let r = mm_with_queue(mm, queued);
        assert(r == mm_with_queue(m1, rest));
        assert(r.outgoing.take(mm.outgoing.len() as int) =~= mm.outgoing) by {
            assert(r.outgoing.take(m1.outgoing.len() as int) == m1.outgoing);
            assert forall|k: int| 0 <= k < mm.outgoing.len() implies r.outgoing[k] == mm.outgoing[k] by {
                assert(r.outgoing[k] == r.outgoing.take(m1.outgoing.len() as int)[k]);
            }
        }
        assert forall|i: int| 0 <= i < queued.len() implies #[trigger] r.outgoing[mm.outgoing.len() + i]
            == new_outgoing(mm.epoch, (mm.next_seq + i) as u64, queued[i]) by {
            if i == 0 {
                assert(r.outgoing[mm.outgoing.len() as int] == r.outgoing.take(
                    m1.outgoing.len() as int,
                )[mm.outgoing.len() as int]);
            } else {
                assert(rest[i - 1] == queued[i]);
                assert(r.outgoing[m1.outgoing.len() + (i - 1)] == new_outgoing(
                    m1.epoch,
                    (m1.next_seq + (i - 1)) as u64,
                    rest[i - 1],
                ));
            }
        }
    }
}

/// The epoch negotiation does not lose the messages the user sent while the
/// link set was connecting: whatever frame ends the negotiation, whichever
/// side's offer wins, the link set is connected with a fresh manager of the
/// agreed epoch whose outgoing messages are exactly the queued ones, in the
/// order they were sent and numbered from zero, and each of them is sent.
pub proof fn law_negotiation_keeps_queued(
    queued: Seq<Seq<u8>>,
    epoch: Option<u64>,
    cfg: Config,
    ev: EventView,
)
    requires
        queued.len() <= u64::MAX,
    ensures
        ({
            let d = decide(StateView::EpochMismatch { queued, epoch }, cfg, ev);
            d.state is Connected ==> {
                let mm = d.state->Connected_mm;
                let e = d.state->Connected_epoch;
                &&& mm.epoch == e
                &&& mm.outgoing.len() == queued.len()
                &&& forall|i: int|
                    0 <= i < queued.len() ==> #[trigger] mm.outgoing[i] == new_outgoing(
                        e,
                        i as u64,
                        queued[i],
                    )
                &&& mm.next_seq == queued.len()
                &&& mm.incoming.len() == 0
                &&& mm.last_ack == (0u64, 0u64)
                &&& forall|i: int|
                    0 <= i < queued.len() ==> d.step.actions.contains(
                        ActionView::SendSlices(#[trigger] (i as u64)),
                    )
                &&& d.step.actions.contains(ActionView::Notify(NoticeView::Connected(e)))
            }
        }),
{
    let d = decide(StateView::EpochMismatch { queued, epoch }, cfg, ev);
    if d.state is Connected {
        let e = d.state->Connected_epoch;
        let mm = d.state->Connected_mm;
        assert(mm == mm_with_queue(mm_fresh(e), queued));
        lemma_with_queue(mm_fresh(e), queued);
        assert forall|i: int| 0 <= i < queued.len() implies #[trigger] mm.outgoing[i] == new_outgoing(
            e,
            i as u64,
            queued[i],
        ) by {
            assert(mm.outgoing[mm_fresh(e).outgoing.len() + i] == mm.outgoing[i]);
        }
        let a = d.step.actions;
        let k = a.len() - queued.len() - 2;
        assert forall|i: int| 0 <= i < queued.len() implies a.contains(
            ActionView::SendSlices(#[trigger] (i as u64)),
        ) by {
            assert(a[k + i] == ActionView::SendSlices(i as u64));
        }
        assert(a[k - 1] == ActionView::Notify(NoticeView::Connected(e)));
    }
}

/// A message the user sends while connected, for the current epoch, is kept
/// as the next outgoing message and sent at once.
pub proof fn law_connected_sends_user_messages(
    mm: MessageView,
    epoch: u64,
    cfg: Config,
    data: Seq<u8>,
    bound: Option<u64>,
)
    requires
        bound is None || bound == Some(epoch),
        mm.next_seq < u64::MAX,
    ensures
        ({
            let d = decide(
                StateView::Connected { mm, epoch },
                cfg,
                EventView::Command(CommandView::Message(data, bound)),
            );
            &&& d.state is Connected
            &&& d.state->Connected_epoch == epoch
            &&& appended(mm, d.state->Connected_mm, data)
            &&& d.step.actions == seq![ActionView::SendSlices(mm.next_seq)]
        }),
{
    let d = decide(
        StateView::Connected { mm, epoch },
        cfg,
        EventView::Command(CommandView::Message(data, bound)),
    );
    assert(d.state->Connected_mm.outgoing.take(mm.outgoing.len() as int) =~= mm.outgoing);
}

/// A message the user sends, bound to no epoch, before an epoch is agreed is
/// queued, after the ones queued before it, to be sent once connected: while
/// connecting or negotiating it joins the queue; while disconnected with
/// automatic connection it starts a connection with it as the queue.
pub proof fn law_unconnected_queues_user_messages(s: StateView, cfg: Config, data: Seq<u8>)
    requires
        s is Connecting || s is EpochMismatch || (s is Disconnected && cfg.auto_connect),
    ensures
        ({
            let d = decide(s, cfg, EventView::Command(CommandView::Message(data, None)));
            &&& d.state.pending_epoch() == s.pending_epoch()
            &&& s is Connecting ==> d.state == (StateView::Connecting {
                queued: s->Connecting_queued.push(data),
                epoch: s.pending_epoch(),
            })
            &&& s is EpochMismatch ==> d.state == (StateView::EpochMismatch {
                queued: s->EpochMismatch_queued.push(data),
                epoch: s.pending_epoch(),
            })
            &&& s is Disconnected ==> d.state == (StateView::Connecting {
                queued: seq![data],
                epoch: s.pending_epoch(),
            }) && d.step.actions.contains(ActionView::StartConnectors)
        }),
{
    if s is Disconnected {
        let d = decide(s, cfg, EventView::Command(CommandView::Message(data, None)));
        assert(d.step.actions[0] == ActionView::StartConnectors);
    }
}

/// Disconnecting works from every state: the link set ends up disconnected.
/// Connectors that were running are stopped. An established epoch is left
/// for the next one, and the user is told of the disconnection; an epoch not
/// yet agreed is offered again while connecting, or the next one after a
/// negotiation.
pub proof fn law_disconnect_from_any_state(s: StateView, cfg: Config)
    ensures
        ({
            let d = decide(s, cfg, EventView::Command(CommandView::Disconnect));
            &&& d.state is Disconnected
            &&& s is Disconnected ==> d.state == s
            &&& s is Connecting ==> d.state.pending_epoch() == s.pending_epoch()
            &&& s.in_epoch() ==> d.state.pending_epoch() == Some(
                crate::epoch::spec_increment(s.current_epoch()),
            )
            &&& s.in_epoch() ==> d.step.actions.contains(ActionView::Notify(NoticeView::Disconnected))
            &&& (s is Connecting || s is Reconnecting) ==> d.step.actions.contains(
                ActionView::StopConnectors,
            )
        }),
{
    let d = decide(s, cfg, EventView::Command(CommandView::Disconnect));
    let a = d.step.actions;
    match s {
        StateView::Connecting { .. } => {
            assert(a[0] == ActionView::StopConnectors);
        },
        StateView::Connected { .. } => {
            assert(a[0] == ActionView::Notify(NoticeView::Disconnected));
        },
        StateView::Reconnecting { .. } => {
            assert(a[0] == ActionView::StopConnectors);
            assert(a[2] == ActionView::Notify(NoticeView::Disconnected));
        },
        StateView::GracePeriod { .. } => {
            assert(a[1] == ActionView::Notify(NoticeView::Disconnected));
        },
        _ => {},
    }
}

} // verus!
