use vstd::prelude::*;

use crate::epoch::{Epoch, compare_epochs, opt_epoch_increment};
use crate::message_manager::{MessageManager, MessageView, bytes_views};
use crate::protocol::LinkProtocol;
use crate::slice_manager::{SliceManager, SliceView};
use crate::state::spec::{
    Decision, accepts_message, connect_from_mismatch, connected_timer, connecting_timer,
    decide_connected, decide_connecting, decide_disconnected, decide_followup, decide_grace,
    decide, decide_mismatch, decide_reconnecting, determine_state, disconnect_from_connected,
    disconnect_from_grace, disconnect_from_reconnecting, inc_opt, int_epoch, mm_fresh,
    ping_interval_nanos,
    mm_with_queue, order_opt, period_timer, same_epoch, send_queued, skips, take_in_slice,
};
use crate::message_manager::{mm_ack, mm_insert};
use crate::state::types::{
    Action, ActionView, Command, Config, Disconnected, Event, Followup, LinkSetMessageInner,
    NoticeView, StateView, States, Step, StepView, TimeSpan, action_views, opt_view, queue_view,
};

verus! {

/// The decision that a pair of next state and step stands for.
pub open spec fn decision_of(next: StateView, step: StepView) -> Decision {
    Decision { state: next, step }
}

/// The result of a handler.
pub open spec fn outcome(r: (States, Step)) -> Decision {
    decision_of(r.0@, r.1@)
}

fn done(state: States, actions: Vec<Action>) -> (r: (States, Step))
    ensures
        r.0 == state,
        r.1.actions == actions,
        r.1.followup is None,
{
    (state, Step { actions, followup: None })
}

fn then(state: States, actions: Vec<Action>, f: Followup) -> (r: (States, Step))
    ensures
        r.0 == state,
        r.1.actions == actions,
        r.1.followup == Some(f),
{
    (state, Step { actions, followup: Some(f) })
}

/// Appends the timer actions on entering the connecting state.
fn push_connecting_timer(actions: &mut Vec<Action>, cfg: Config)
    ensures
        action_views(final(actions)@) == action_views(old(actions)@) + connecting_timer(cfg),
{
    let ghost before = action_views(actions@);
    actions.push(Action::ClearTimer);
    match cfg.connecting_timeout {
        Some(t) => {
            actions.push(Action::SetDeadline(t));
        },
        None => {},
    }
    assert(action_views(actions@) =~= before + connecting_timer(cfg));
}

/// Appends the timer actions on entering the connected state.
fn push_connected_timer(actions: &mut Vec<Action>)
    ensures
        action_views(final(actions)@) == action_views(old(actions)@) + connected_timer(),
{
    let ghost before = action_views(actions@);
    actions.push(Action::ClearTimer);
    actions.push(Action::SetRepeat(TimeSpan { secs: 5, nanos: 0 }));
    assert(action_views(actions@) =~= before + connected_timer());
}

/// Appends the timer for a waiting period.
fn push_period_timer(actions: &mut Vec<Action>, timeout: Option<TimeSpan>)
    ensures
        action_views(final(actions)@) == action_views(old(actions)@) + period_timer(timeout),
{
    let ghost before = action_views(actions@);
    match timeout {
        Some(t) => {
            actions.push(Action::SetDeadline(t));
        },
        None => {
            actions.push(Action::ClearTimer);
        },
    }
    assert(action_views(actions@) =~= before + period_timer(timeout));
}

/// Whether a timeout skips its period.
fn timeout_skips(timeout: Option<TimeSpan>) -> (r: bool)
    ensures
        r == skips(timeout),
{
    match timeout {
        Some(t) => t.is_zero(),
        None => false,
    }
}

/// Whether the epoch of a reset frame is the given one.
fn is_epoch(frame_epoch: Option<Epoch>, epoch: Epoch) -> (r: bool)
    ensures
        r == same_epoch(crate::epoch::spec_opt_epoch_to_int(frame_epoch), epoch@),
{
    match frame_epoch {
        Some(e) => e.to_int() == epoch.to_int(),
        None => {
            let v = epoch.to_int();
            false
        },
    }
}

/// Whether a message bound to `bound` is accepted within `epoch`.
fn accepts(mm: &MessageManager, epoch: Epoch, bound: Option<Epoch>) -> (r: bool)
    ensures
        r == accepts_message(mm@, epoch@, opt_view(bound)),
{
    let in_epoch = match bound {
        Some(b) => b.to_int() == epoch.to_int(),
        None => true,
    };
    in_epoch && mm.next_seq() < u64::MAX
}

/// Takes in a slice of the established epoch: the manager receives it and
/// hands out what is complete; the acknowledgement (when `ack`) and the
/// notices are appended.
fn take_in(
    mm: &mut MessageManager,
    epoch: Epoch,
    seq: u64,
    seq_len: u64,
    first_index: u64,
    data: Vec<u8>,
    ack: bool,
    actions: &mut Vec<Action>,
)
    requires
        old(mm)@.wf(),
        old(mm)@.epoch == epoch@,
    ensures
        final(mm)@.wf(),
        final(mm)@.epoch == epoch@,
        ({
            let (m2, acts) = take_in_slice(old(mm)@, epoch@, seq, seq_len, first_index, data@, ack);
            &&& final(mm)@ == m2
            &&& action_views(final(actions)@) == action_views(old(actions)@) + acts
        }),
{
    let ghost before = action_views(actions@);
    let ghost m0 = mm@;
    let stale = !mm.recv_in_range(seq, first_index, seq_len);
    let moved = mm.recv(seq, first_index, seq_len, data);
    let ghost m1 = mm@;
    if ack && (moved || stale) {
        let (s, l) = mm.last_ack();
        actions.push(Action::Ack { epoch, seq: s, last_index: l });
    }
    let ghost mid = action_views(actions@);
    let mut msgs = mm.take_recvd();
    let ghost all = bytes_views(msgs@);
    let mut i: usize = 0;
    let n = msgs.len();
    while i < n
        invariant
            n == all.len(),
            i <= n,
            msgs@.len() == n - i,
            bytes_views(msgs@) =~= all.skip(i as int),
            action_views(actions@) =~= mid + all.take(i as int).map_values(
                |d: Seq<u8>| ActionView::Notify(NoticeView::Message(d, epoch@)),
            ),
        decreases n - i,
    {
        let ghost prev = msgs@;
        let ghost acts_before = actions@;
        let m = msgs.remove(0);
        assert(bytes_views(prev)[0] == m@);
        assert(all[i as int] == bytes_views(prev)[0]);
        assert(bytes_views(msgs@) =~= bytes_views(prev).drop_first());
        let ghost mv = m@;
        actions.push(Action::Notify(LinkSetMessageInner::Message(m, epoch)));
        assert(action_views(actions@) =~= action_views(acts_before).push(
            ActionView::Notify(NoticeView::Message(mv, epoch@)),
        ));
        i = i + 1;
        assert(all.take(i as int) =~= all.take(i - 1).push(all[i - 1]));
        assert(all.take(i as int).map_values(
            |d: Seq<u8>| ActionView::Notify(NoticeView::Message(d, epoch@)),
        ) =~= all.take(i - 1).map_values(
            |d: Seq<u8>| ActionView::Notify(NoticeView::Message(d, epoch@)),
        ).push(ActionView::Notify(NoticeView::Message(mv, epoch@))));
    }
    proof {
        assert(all.take(n as int) =~= all);
        let (m2, acts) = take_in_slice(m0, epoch@, seq, seq_len, first_index, data@, ack);
        assert(action_views(actions@) =~= before + acts);
    }
}

/// The disconnected state's decisions.
fn handle_disconnected(epoch: Option<Epoch>, cfg: Config, ev: Event) -> (r: (States, Step))
    ensures
        outcome(r) == decide_disconnected(opt_view(epoch), cfg, ev@),
        r.0@.wf(),
{
    let mut actions: Vec<Action> = Vec::new();
    let stay = States::Disconnected(Disconnected { epoch });
    match ev {
        Event::Command(c) => match c {
            Command::Connect => {
                actions.push(Action::StartConnectors);
                push_connecting_timer(&mut actions, cfg);
                let q: Vec<Vec<u8>> = Vec::new();
                assert(queue_view(q@) =~= Seq::<Seq<u8>>::empty());
                done(States::Connecting { queued: q, epoch }, actions)
            },
            Command::Disconnect => done(stay, actions),
            Command::AddConnector => {
                actions.push(Action::StoreConnector);
                done(stay, actions)
            },
            Command::AddAddress { reuse } => {
                actions.push(Action::StoreAddress { reuse });
                done(stay, actions)
            },
            Command::AddLink { wrapped } => {
                if wrapped {
                    actions.push(Action::AddLink);
                    actions.push(Action::PingAll);
                    actions.push(Action::Reset { epoch, request: true });
                    let q: Vec<Vec<u8>> = Vec::new();
                    assert(queue_view(q@) =~= Seq::<Seq<u8>>::empty());
                    done(States::EpochMismatch { queued: q, epoch }, actions)
                } else {
                    done(stay, actions)
                }
            },
            Command::Message(data, bound) => {
                if cfg.auto_connect && bound.is_none() {
                    actions.push(Action::StartConnectors);
                    push_connecting_timer(&mut actions, cfg);
                    let mut q: Vec<Vec<u8>> = Vec::new();
                    let ghost d = data@;
                    q.push(data);
                    assert(queue_view(q@) =~= seq![d]);
                    done(States::Connecting { queued: q, epoch }, actions)
                } else {
                    done(stay, actions)
                }
            },
        },
        Event::Link { .. } => {
            actions.push(Action::ClearReaders);
            done(stay, actions)
        },
        Event::Timer { .. } => {
            actions.push(Action::ClearTimer);
            done(stay, actions)
        },
        Event::EvictLink(_) => {
            actions.push(Action::ReplyEvict(false));
            done(stay, actions)
        },
    }
}

/// The connecting state's decisions.
fn handle_connecting(queued: Vec<Vec<u8>>, epoch: Option<Epoch>, cfg: Config, ev: Event) -> (r: (
    States,
    Step,
))
    ensures
        outcome(r) == decide_connecting(queue_view(queued@), opt_view(epoch), cfg, ev@),
        r.0@.wf(),
{
    let mut actions: Vec<Action> = Vec::new();
    match ev {
        Event::Command(c) => match c {
            Command::Connect => done(States::Connecting { queued, epoch }, actions),
            Command::Disconnect => {
                actions.push(Action::StopConnectors);
                actions.push(Action::ClearTimer);
                actions.push(Action::Notify(LinkSetMessageInner::Connecting(false)));
                done(States::Disconnected(Disconnected { epoch }), actions)
            },
            Command::AddConnector => {
                actions.push(Action::GiveConnector);
                done(States::Connecting { queued, epoch }, actions)
            },
            Command::AddAddress { reuse } => {
                actions.push(Action::GiveAddress { reuse });
                done(States::Connecting { queued, epoch }, actions)
            },
            Command::AddLink { wrapped } => {
                if wrapped {
                    actions.push(Action::StopConnectors);
                    actions.push(Action::AddLink);
                    actions.push(Action::PingAll);
                    actions.push(Action::Reset { epoch, request: true });
                    done(States::EpochMismatch { queued, epoch }, actions)
                } else {
                    done(States::Connecting { queued, epoch }, actions)
                }
            },
            Command::Message(data, bound) => {
                if bound.is_none() {
                    let mut queued = queued;
                    let ghost q0 = queue_view(queued@);
                    let ghost d = data@;
                    queued.push(data);
                    assert(queue_view(queued@) =~= q0.push(d));
                    done(States::Connecting { queued, epoch }, actions)
                } else {
                    done(States::Connecting { queued, epoch }, actions)
                }
            },
        },
        Event::Link { .. } => done(States::Connecting { queued, epoch }, actions),
        Event::Timer { .. } => {
            actions.push(Action::StopConnectors);
            actions.push(Action::ClearTimer);
            actions.push(Action::Notify(LinkSetMessageInner::Connecting(false)));
            done(States::Disconnected(Disconnected { epoch }), actions)
        },
        Event::EvictLink(_) => {
            actions.push(Action::ReplyEvict(false));
            done(States::Connecting { queued, epoch }, actions)
        },
    }
}

/// Builds the manager of a newly agreed epoch with the queued messages, and
/// appends the actions that send them.
fn start_epoch(queued: Vec<Vec<u8>>, epoch: Epoch, actions: &mut Vec<Action>) -> (mm: MessageManager)
    ensures
        mm@.wf(),
        mm@.epoch == epoch@,
        mm@ == mm_with_queue(mm_fresh(epoch@), queue_view(queued@)),
        action_views(final(actions)@) == action_views(old(actions)@) + send_queued(
            0,
            queued@.len(),
        ),
{
    let ghost qv = queue_view(queued@);
    let ghost before = action_views(actions@);
    let mut mm = MessageManager::new(epoch);
    assert(mm@ =~= mm_fresh(epoch@));
    let mut queued = queued;
    let n = queued.len();
    let mut i: usize = 0;
    while i < n
        invariant
            n == qv.len(),
            i <= n,
            queued@.len() == n - i,
            queue_view(queued@) =~= qv.skip(i as int),
            mm@.wf(),
            mm@.next_seq == i,
            mm@.epoch == epoch@,
            mm_with_queue(mm@, qv.skip(i as int)) == mm_with_queue(mm_fresh(epoch@), qv),
            action_views(actions@) =~= before + send_queued(0, i as nat),
        decreases n - i,
    {
        let ghost prev = queued@;
        let data = queued.remove(0);
        assert(queue_view(prev)[0] == data@);
        assert(queue_view(queued@) =~= queue_view(prev).drop_first());
        assert(qv.skip(i as int).drop_first() =~= qv.skip(i + 1));
        let ghost m_before = mm@;
        let seq = mm.insert_msg(data);
        let ghost acts_before = actions@;
        actions.push(Action::SendSlices(seq));
        assert(action_views(actions@) =~= action_views(acts_before).push(ActionView::SendSlices(seq)));
        i = i + 1;
        assert(send_queued(0, i as nat) =~= send_queued(0, (i - 1) as nat).push(
            ActionView::SendSlices((i - 1) as u64),
        ));
    }
    assert(qv.skip(n as int) =~= Seq::<Seq<u8>>::empty());
    mm
}

/// Enters the connected state from the epoch negotiation.
fn connect_mismatch(queued: Vec<Vec<u8>>, epoch: Epoch, actions: Vec<Action>) -> (r: (States, Step))
    ensures
        outcome(r) == connect_from_mismatch(queue_view(queued@), epoch@, action_views(actions@)),
        r.0@.wf(),
{
    let ghost first = action_views(actions@);
    let ghost qv = queue_view(queued@);
    let mut actions = actions;
    actions.push(Action::Notify(LinkSetMessageInner::Connected(epoch)));
    let mm = start_epoch(queued, epoch, &mut actions);
    push_connected_timer(&mut actions);
    let r = done(States::Connected { msg_mgr: mm, epoch }, actions);
    assert(outcome(r) =~= connect_from_mismatch(qv, epoch@, first));
    r
}

/// The epoch negotiation's decisions.
fn handle_mismatch(queued: Vec<Vec<u8>>, epoch: Option<Epoch>, cfg: Config, ev: Event) -> (r: (
    States,
    Step,
))
    ensures
        outcome(r) == decide_mismatch(queue_view(queued@), opt_view(epoch), cfg, ev@),
        r.0@.wf(),
{
    let mut actions: Vec<Action> = Vec::new();
    match ev {
        Event::Command(c) => match c {
            Command::Connect => done(States::EpochMismatch { queued, epoch }, actions),
            Command::Disconnect => {
                actions.push(Action::DropLinks);
                actions.push(Action::ClearTimer);
                let next = opt_epoch_increment(epoch);
                assert(opt_view(next) == inc_opt(opt_view(epoch)));
                done(States::Disconnected(Disconnected { epoch: next }), actions)
            },
            Command::AddConnector => {
                actions.push(Action::StoreConnector);
                done(States::EpochMismatch { queued, epoch }, actions)
            },
            Command::AddAddress { reuse } => {
                actions.push(Action::StoreAddress { reuse });
                done(States::EpochMismatch { queued, epoch }, actions)
            },
            Command::AddLink { wrapped } => {
                if wrapped {
                    actions.push(Action::AddLink);
                }
                done(States::EpochMismatch { queued, epoch }, actions)
            },
            Command::Message(data, bound) => {
                if bound.is_none() {
                    let mut queued = queued;
                    let ghost q0 = queue_view(queued@);
                    let ghost d = data@;
                    queued.push(data);
                    assert(queue_view(queued@) =~= q0.push(d));
                    done(States::EpochMismatch { queued, epoch }, actions)
                } else {
                    done(States::EpochMismatch { queued, epoch }, actions)
                }
            },
        },
        Event::Link { id, msg } => match msg {
            LinkProtocol::Reset { epoch: theirs, request } => {
                let ghost other = int_epoch(crate::epoch::spec_opt_epoch_to_int(theirs));
                match theirs {
                    Some(e) => {
                        let _v = e.to_int();
                    },
                    None => {},
                }
                assert(opt_view(theirs) == other);
                let ord = compare_epochs(&epoch, &theirs);
                assert(crate::epoch::epoch_order(epoch, theirs) == order_opt(opt_view(epoch), other));
                match ord {
                    std::cmp::Ordering::Greater => {
                        actions.push(Action::Reset { epoch, request: false });
                        done(States::EpochMismatch { queued, epoch }, actions)
                    },
                    std::cmp::Ordering::Equal => {
                        if request {
                            actions.push(Action::Reset { epoch, request: false });
                        }
                        let agreed = match epoch {
                            Some(e) => e,
                            None => Epoch::one(),
                        };
                        connect_mismatch(queued, agreed, actions)
                    },
                    std::cmp::Ordering::Less => {
                        let adopted = match theirs {
                            Some(e) => e,
                            None => Epoch::one(),
                        };
                        actions.push(Action::Reset { epoch: Some(adopted), request: false });
                        connect_mismatch(queued, adopted, actions)
                    },
                }
            },
            LinkProtocol::Ping => {
                actions.push(Action::Pong(id));
                done(States::EpochMismatch { queued, epoch }, actions)
            },
            LinkProtocol::Pong => {
                actions.push(Action::EndPing(id));
                done(States::EpochMismatch { queued, epoch }, actions)
            },
            _ => done(States::EpochMismatch { queued, epoch }, actions),
        },
        Event::Timer { .. } => {
            actions.push(Action::Upkeep);
            actions.push(Action::PingAll);
            then(States::EpochMismatch { queued, epoch }, actions, Followup::MismatchTimer)
        },
        Event::EvictLink(_) => {
            actions.push(Action::ReplyEvict(false));
            done(States::EpochMismatch { queued, epoch }, actions)
        },
    }
}

/// Leaves an established epoch for the disconnected state.
fn leave_connected(epoch: Epoch) -> (r: (States, Step))
    ensures
        outcome(r) == disconnect_from_connected(epoch@),
        r.0@.wf(),
{
    let mut actions: Vec<Action> = Vec::new();
    actions.push(Action::Notify(LinkSetMessageInner::Disconnected));
    actions.push(Action::ClearTimer);
    actions.push(Action::DropLinks);
    let r = done(States::Disconnected(Disconnected { epoch: Some(epoch.increment()) }), actions);
    assert(outcome(r) =~= disconnect_from_connected(epoch@));
    r
}

fn leave_reconnecting(epoch: Epoch) -> (r: (States, Step))
    ensures
        outcome(r) == disconnect_from_reconnecting(epoch@),
        r.0@.wf(),
{
    let mut actions: Vec<Action> = Vec::new();
    actions.push(Action::StopConnectors);
    actions.push(Action::Notify(LinkSetMessageInner::Connecting(false)));
    actions.push(Action::Notify(LinkSetMessageInner::Disconnected));
    actions.push(Action::ClearTimer);
    let r = done(States::Disconnected(Disconnected { epoch: Some(epoch.increment()) }), actions);
    assert(outcome(r) =~= disconnect_from_reconnecting(epoch@));
    r
}

fn leave_grace(epoch: Epoch) -> (r: (States, Step))
    ensures
        outcome(r) == disconnect_from_grace(epoch@),
        r.0@.wf(),
{
    let mut actions: Vec<Action> = Vec::new();
    actions.push(Action::ClearTimer);
    actions.push(Action::Notify(LinkSetMessageInner::Disconnected));
    let r = done(States::Disconnected(Disconnected { epoch: Some(epoch.increment()) }), actions);
    assert(outcome(r) =~= disconnect_from_grace(epoch@));
    r
}

/// The connected state's decisions.
fn handle_connected(msg_mgr: MessageManager, epoch: Epoch, cfg: Config, ev: Event) -> (r: (
    States,
    Step,
))
    requires
        msg_mgr@.wf(),
        msg_mgr@.epoch == epoch@,
    ensures
        outcome(r) == decide_connected(msg_mgr@, epoch@, cfg, ev@),
        r.0@.wf(),
{
    let mut mm = msg_mgr;
    let mut actions: Vec<Action> = Vec::new();
    match ev {
        Event::Command(c) => match c {
            Command::Disconnect => leave_connected(epoch),
            Command::AddConnector => {
                actions.push(Action::StoreConnector);
                done(States::Connected { msg_mgr: mm, epoch }, actions)
            },
            Command::AddAddress { reuse } => {
                actions.push(Action::StoreAddress { reuse });
                done(States::Connected { msg_mgr: mm, epoch }, actions)
            },
            Command::AddLink { wrapped } => {
                if wrapped {
                    actions.push(Action::AddLink);
                }
                done(States::Connected { msg_mgr: mm, epoch }, actions)
            },
            Command::Message(data, bound) => {
                if accepts(&mm, epoch, bound) {
                    let seq = mm.insert_msg(data);
                    actions.push(Action::SendSlices(seq));
                    then(States::Connected { msg_mgr: mm, epoch }, actions, Followup::DetermineState)
                } else {
                    done(States::Connected { msg_mgr: mm, epoch }, actions)
                }
            },
            Command::Connect => done(States::Connected { msg_mgr: mm, epoch }, actions),
        },
        Event::Link { id, msg } => match msg {
            LinkProtocol::Reset { epoch: theirs, request } => {
                if !request {
                    done(States::Connected { msg_mgr: mm, epoch }, actions)
                } else if is_epoch(theirs, epoch) {
                    actions.push(Action::Reset { epoch: Some(epoch), request: false });
                    then(States::Connected { msg_mgr: mm, epoch }, actions, Followup::DetermineState)
                } else {
                    let next = epoch.increment();
                    actions.push(Action::Reset { epoch: Some(next), request: true });
                    let q: Vec<Vec<u8>> = Vec::new();
                    assert(queue_view(q@) =~= Seq::<Seq<u8>>::empty());
                    done(States::EpochMismatch { queued: q, epoch: Some(next) }, actions)
                }
            },
            LinkProtocol::Ack { epoch: e, seq, last_index } => {
                if e == epoch.to_int() {
                    mm.recv_ack((seq, last_index));
                }
                done(States::Connected { msg_mgr: mm, epoch }, actions)
            },
            LinkProtocol::MsgSlice { epoch: e, seq, seq_len, first_index, data } => {
                if e == epoch.to_int() {
                    take_in(&mut mm, epoch, seq, seq_len, first_index, data, true, &mut actions);
                    then(States::Connected { msg_mgr: mm, epoch }, actions, Followup::DetermineState)
                } else {
                    done(States::Connected { msg_mgr: mm, epoch }, actions)
                }
            },
            LinkProtocol::Ping => {
                actions.push(Action::Pong(id));
                done(States::Connected { msg_mgr: mm, epoch }, actions)
            },
            LinkProtocol::Pong => {
                actions.push(Action::EndPing(id));
                done(States::Connected { msg_mgr: mm, epoch }, actions)
            },
        },
        Event::Timer { since_last_ping_nanos } => {
            if since_last_ping_nanos > 30_000_000_000u128 {
                actions.push(Action::PingAll);
            }
            actions.push(Action::Upkeep);
            then(States::Connected { msg_mgr: mm, epoch }, actions, Followup::ResendFirst)
        },
        Event::EvictLink(id) => {
            actions.push(Action::Evict(id));
            then(States::Connected { msg_mgr: mm, epoch }, actions, Followup::AnswerEviction)
        },
    }
}

/// The connected state's check of its links.
fn determine(msg_mgr: MessageManager, epoch: Epoch, cfg: Config, links_empty: bool) -> (r: (
    States,
    Step,
))
    requires
        msg_mgr@.wf(),
        msg_mgr@.epoch == epoch@,
    ensures
        outcome(r) == determine_state(msg_mgr@, epoch@, cfg, links_empty),
        r.0@.wf(),
{
    let mut actions: Vec<Action> = Vec::new();
    if !links_empty {
        done(States::Connected { msg_mgr, epoch }, actions)
    } else if !timeout_skips(cfg.reconnecting_timeout) {
        push_period_timer(&mut actions, cfg.reconnecting_timeout);
        actions.push(Action::DropLinks);
        actions.push(Action::StartConnectors);
        done(States::Reconnecting { msg_mgr, epoch }, actions)
    } else if !timeout_skips(cfg.grace_period_timeout) {
        push_period_timer(&mut actions, cfg.grace_period_timeout);
        actions.push(Action::DropLinks);
        done(States::GracePeriod { msg_mgr, epoch }, actions)
    } else {
        leave_connected(epoch)
    }
}

/// The decisions of the reconnecting state and the grace period.
fn handle_waiting(msg_mgr: MessageManager, epoch: Epoch, cfg: Config, ev: Event, reconnecting: bool) -> (r: (
    States,
    Step,
))
    requires
        msg_mgr@.wf(),
        msg_mgr@.epoch == epoch@,
    ensures
        reconnecting ==> outcome(r) == decide_reconnecting(msg_mgr@, epoch@, cfg, ev@),
        !reconnecting ==> outcome(r) == decide_grace(msg_mgr@, epoch@, cfg, ev@),
        r.0@.wf(),
{
    let mut mm = msg_mgr;
    let mut actions: Vec<Action> = Vec::new();
    match ev {
        Event::Command(Command::Disconnect) => {
            if reconnecting {
                leave_reconnecting(epoch)
            } else {
                leave_grace(epoch)
            }
        },
        Event::Command(Command::AddConnector) => {
            if reconnecting {
                actions.push(Action::GiveConnector);
            } else {
                actions.push(Action::StoreConnector);
            }
            done(waiting(mm, epoch, reconnecting), actions)
        },
        Event::Command(Command::AddAddress { reuse }) => {
            if reconnecting {
                actions.push(Action::GiveAddress { reuse });
            } else {
                actions.push(Action::StoreAddress { reuse });
            }
            done(waiting(mm, epoch, reconnecting), actions)
        },
        Event::Command(Command::AddLink { wrapped }) => {
            if !wrapped {
                done(waiting(mm, epoch, reconnecting), actions)
            } else if reconnecting {
                actions.push(Action::StopConnectors);
                actions.push(Action::AddLink);
                actions.push(Action::PingAll);
                actions.push(Action::Notify(LinkSetMessageInner::Connecting(false)));
                push_connected_timer(&mut actions);
                done(States::Connected { msg_mgr: mm, epoch }, actions)
            } else {
                actions.push(Action::AddLink);
                actions.push(Action::PingAll);
                push_connected_timer(&mut actions);
                done(States::Connected { msg_mgr: mm, epoch }, actions)
            }
        },
        Event::Command(Command::Message(data, bound)) => {
            if accepts(&mm, epoch, bound) {
                mm.insert_msg(data);
            }
            done(waiting(mm, epoch, reconnecting), actions)
        },
        Event::Command(Command::Connect) => done(waiting(mm, epoch, reconnecting), actions),
        Event::Link { id, msg } => match msg {
            LinkProtocol::Reset { epoch: theirs, request } => {
                if request && is_epoch(theirs, epoch) {
                    if reconnecting {
                        push_connecting_timer(&mut actions, cfg);
                        let q: Vec<Vec<u8>> = Vec::new();
                        assert(queue_view(q@) =~= Seq::<Seq<u8>>::empty());
                        done(States::Connecting { queued: q, epoch: Some(epoch.increment()) }, actions)
                    } else {
                        leave_grace(epoch)
                    }
                } else {
                    done(waiting(mm, epoch, reconnecting), actions)
                }
            },
            LinkProtocol::Ack { epoch: e, seq, last_index } => {
                if e == epoch.to_int() {
                    mm.recv_ack((seq, last_index));
                }
                done(waiting(mm, epoch, reconnecting), actions)
            },
            LinkProtocol::MsgSlice { epoch: e, seq, seq_len, first_index, data } => {
                if e == epoch.to_int() {
                    take_in(&mut mm, epoch, seq, seq_len, first_index, data, false, &mut actions);
                }
                done(waiting(mm, epoch, reconnecting), actions)
            },
            _ => done(waiting(mm, epoch, reconnecting), actions),
        },
        Event::Timer { .. } => {
            if !cfg.auto_connect {
                if reconnecting {
                    leave_reconnecting(epoch)
                } else {
                    leave_grace(epoch)
                }
            } else {
                if !reconnecting {
                    actions.push(Action::Notify(LinkSetMessageInner::Disconnected));
                    actions.push(Action::StartConnectors);
                }
                push_connecting_timer(&mut actions, cfg);
                let q: Vec<Vec<u8>> = Vec::new();
                assert(queue_view(q@) =~= Seq::<Seq<u8>>::empty());
                done(States::Connecting { queued: q, epoch: Some(epoch.increment()) }, actions)
            }
        },
        Event::EvictLink(_) => {
            actions.push(Action::ReplyEvict(false));
            done(waiting(mm, epoch, reconnecting), actions)
        },
    }
}

/// The reconnecting state or the grace period.
fn waiting(msg_mgr: MessageManager, epoch: Epoch, reconnecting: bool) -> (r: States)
    ensures
        reconnecting ==> r@ == (StateView::Reconnecting { mm: msg_mgr@, epoch: epoch@ }),
        !reconnecting ==> r@ == (StateView::GracePeriod { mm: msg_mgr@, epoch: epoch@ }),
        msg_mgr@.wf() && msg_mgr@.epoch == epoch@ ==> r@.wf(),
{
    if reconnecting {
        States::Reconnecting { msg_mgr, epoch }
    } else {
        States::GracePeriod { msg_mgr, epoch }
    }
}

/// The link set's decision core: its state and settings.
pub struct LinkSetCore {
    state: States,
    config: Config,
}

impl LinkSetCore {
    /// The core of a new link set: disconnected, with the default settings.
    pub fn new() -> (r: LinkSetCore)
        ensures
            r.state()@ == (StateView::Disconnected { epoch: None }),
            r.config() == Config::spec_default(),
            r.wf(),
    {
        LinkSetCore { state: States::new(), config: Config::new() }
    }

    /// The core's invariant: its state is well formed.
    pub open spec fn wf(&self) -> bool {
        self.state()@.wf()
    }

    /// The current state.
    pub closed spec fn state(&self) -> &States {
        &self.state
    }

    /// The current settings.
    pub closed spec fn config(&self) -> Config {
        self.config
    }

    /// The current state.
    pub fn get_state(&self) -> (r: &States)
        ensures
            r == self.state(),
    {
        &self.state
    }

    /// The current settings.
    pub fn get_config(&self) -> (r: Config)
        ensures
            r == self.config(),
    {
        self.config
    }

    /// Enables or disables automatic reconnection.
    pub fn set_auto_connect(&mut self, auto_connect: bool)
        ensures
            final(self).config() == (Config { auto_connect, ..old(self).config() }),
            final(self).state() == old(self).state(),
    {
        self.config.auto_connect = auto_connect;
    }

    /// Sets how long a connection attempt lasts.
    pub fn set_connecting_timeout(&mut self, timeout: Option<TimeSpan>)
        ensures
            final(self).config() == (Config { connecting_timeout: timeout, ..old(self).config() }),
            final(self).state() == old(self).state(),
    {
        self.config.connecting_timeout = timeout;
    }

    /// Sets how long a reconnection within the epoch is attempted.
    pub fn set_reconnecting_timeout(&mut self, timeout: Option<TimeSpan>)
        ensures
            final(self).config() == (Config { reconnecting_timeout: timeout, ..old(self).config() }),
            final(self).state() == old(self).state(),
    {
        self.config.reconnecting_timeout = timeout;
    }

    /// Sets how long an incoming reconnection within the epoch is waited for.
    pub fn set_grace_period_timeout(&mut self, timeout: Option<TimeSpan>)
        ensures
            final(self).config() == (Config { grace_period_timeout: timeout, ..old(self).config() }),
            final(self).state() == old(self).state(),
    {
        self.config.grace_period_timeout = timeout;
    }

    /// Decides on an event: moves to the next state and returns the outside
    /// work to perform, and the check of the links to report back, if any.
    pub fn handle(&mut self, ev: Event) -> (step: Step)
        requires
            old(self).wf(),
        ensures
            final(self).wf(),
            final(self).config() == old(self).config(),
            decision_of(final(self).state()@, step@) == decide(old(self).state()@, old(self).config(), ev@),
    {
        let mut state = States::new();
        std::mem::swap(&mut state, &mut self.state);
        let cfg = self.config;
        let (next, step) = match state {
            States::Disconnected(d) => handle_disconnected(d.epoch, cfg, ev),
            States::Connecting { queued, epoch } => handle_connecting(queued, epoch, cfg, ev),
            States::EpochMismatch { queued, epoch } => handle_mismatch(queued, epoch, cfg, ev),
            States::Connected { msg_mgr, epoch } => handle_connected(msg_mgr, epoch, cfg, ev),
            States::Reconnecting { msg_mgr, epoch } => handle_waiting(msg_mgr, epoch, cfg, ev, true),
            States::GracePeriod { msg_mgr, epoch } => handle_waiting(msg_mgr, epoch, cfg, ev, false),
        };
        self.state = next;
        step
    }

    /// Goes on with a decision once the check it asked for is done: `answer`
    /// is what the check found (see [Followup]).
    pub fn resume(&mut self, f: Followup, answer: bool) -> (step: Step)
        requires
            old(self).wf(),
        ensures
            final(self).wf(),
            final(self).config() == old(self).config(),
            decision_of(final(self).state()@, step@) == decide_followup(
                old(self).state()@,
                old(self).config(),
                f,
                answer,
            ),
    {
        let mut state = States::new();
        std::mem::swap(&mut state, &mut self.state);
        let cfg = self.config;
        let mut actions: Vec<Action> = Vec::new();
        let (next, step) = match state {
            States::Connected { msg_mgr, epoch } => match f {
                Followup::DetermineState => determine(msg_mgr, epoch, cfg, answer),
                Followup::ResendFirst => {
                    let slices = msg_mgr.get_outgoing_slices();
                    if !answer && slices.len() > 0 {
                        proof {
                            assert(crate::message_manager::views(slices@)[0] == slices@[0]@);
                        }
                        actions.push(Action::SendSlices(slices[0].seq()));
                    }
                    then(States::Connected { msg_mgr, epoch }, actions, Followup::DetermineState)
                },
                Followup::MismatchTimer => done(States::Connected { msg_mgr, epoch }, actions),
                Followup::AnswerEviction => {
                    actions.push(Action::ReplyEvict(answer));
                    done(States::Connected { msg_mgr, epoch }, actions)
                },
            },
            States::EpochMismatch { queued, epoch } => match f {
                Followup::MismatchTimer => {
                    if !answer {
                        actions.push(Action::Reset { epoch, request: true });
                        done(States::EpochMismatch { queued, epoch }, actions)
                    } else if cfg.auto_connect {
                        actions.push(Action::DropLinks);
                        actions.push(Action::StartConnectors);
                        push_connecting_timer(&mut actions, cfg);
                        let q: Vec<Vec<u8>> = Vec::new();
                        assert(queue_view(q@) =~= Seq::<Seq<u8>>::empty());
                        done(States::Connecting { queued: q, epoch }, actions)
                    } else {
                        actions.push(Action::DropLinks);
                        actions.push(Action::ClearTimer);
                        let next = opt_epoch_increment(epoch);
                        assert(opt_view(next) == inc_opt(opt_view(epoch)));
                        done(States::Disconnected(Disconnected { epoch: next }), actions)
                    }
                },
                _ => done(States::EpochMismatch { queued, epoch }, actions),
            },
            other => done(other, actions),
        };
        self.state = next;
        proof {
            assert(decision_of(self.state()@, step@) =~= decide_followup(
                old(self).state()@,
                cfg,
                f,
                answer,
            ));
        }
        step
    }

    /// The outgoing message with sequence number `seq`, while an epoch is
    /// established and the message is still held.
    pub fn outgoing_slice(&self, seq: u64) -> (r: Option<&SliceManager>)
        requires
            self.wf(),
        ensures
            r matches Some(m) ==> m@.seq == seq && match self.state()@ {
                StateView::Connected { mm, .. } => mm.outgoing.contains(m@),
                StateView::Reconnecting { mm, .. } => mm.outgoing.contains(m@),
                StateView::GracePeriod { mm, .. } => mm.outgoing.contains(m@),
                _ => false,
            },
            r is None ==> match self.state()@ {
                StateView::Connected { mm, .. } => !(exists|i: int|
                    0 <= i < mm.outgoing.len() && #[trigger] mm.outgoing[i].seq == seq),
                StateView::Reconnecting { mm, .. } => !(exists|i: int|
                    0 <= i < mm.outgoing.len() && #[trigger] mm.outgoing[i].seq == seq),
                StateView::GracePeriod { mm, .. } => !(exists|i: int|
                    0 <= i < mm.outgoing.len() && #[trigger] mm.outgoing[i].seq == seq),
                _ => true,
            },
    {
        match &self.state {
            States::Connected { msg_mgr, .. } => msg_mgr.get_outgoing_slice(seq),
            States::Reconnecting { msg_mgr, .. } => msg_mgr.get_outgoing_slice(seq),
            States::GracePeriod { msg_mgr, .. } => msg_mgr.get_outgoing_slice(seq),
            _ => None,
        }
    }

    /// The established epoch, or the one that will be offered.
    pub fn epoch(&self) -> (r: Option<Epoch>)
        ensures
            opt_view(r) == if self.state()@.in_epoch() {
                Some(self.state()@.current_epoch())
            } else {
                self.state()@.pending_epoch()
            },
    {
        match &self.state {
            States::Disconnected(d) => d.epoch,
            States::Connecting { epoch, .. } => *epoch,
            States::EpochMismatch { epoch, .. } => *epoch,
            States::Connected { epoch, .. } => Some(*epoch),
            States::Reconnecting { epoch, .. } => Some(*epoch),
            States::GracePeriod { epoch, .. } => Some(*epoch),
        }
    }
}

} // verus!
