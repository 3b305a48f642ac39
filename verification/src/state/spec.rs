use vstd::prelude::*;

use crate::epoch::spec_increment;
use crate::message_manager::{MessageView, mm_ack, mm_insert, mm_recv, mm_take, spec_in_range};
use crate::protocol::ProtocolView;
use crate::state::types::{
    ActionView, CommandView, Config, EventView, Followup, NoticeView, StateView, StepView, TimeSpan,
};

verus! {

/// How long the links may go without a ping while connected, in nanoseconds.
pub open spec fn ping_interval_nanos() -> u128 {
    30_000_000_000
}

/// The interval of the connected state's timer.
pub open spec fn connected_interval() -> TimeSpan {
    TimeSpan { secs: 5, nanos: 0 }
}

/// A decision: the next state and the step.
#[verifier::ext_equal]
pub struct Decision {
    pub state: StateView,
    pub step: StepView,
}

/// The decision to stay in `s` with the given actions.
pub open spec fn stay(s: StateView, actions: Seq<ActionView>) -> Decision {
    Decision { state: s, step: StepView { actions, followup: None } }
}

/// The decision to go to `s` with the given actions.
pub open spec fn go(s: StateView, actions: Seq<ActionView>) -> Decision {
    Decision { state: s, step: StepView { actions, followup: None } }
}

/// The decision to stay in `s` with the given actions, then check the links.
pub open spec fn stay_then(s: StateView, actions: Seq<ActionView>, f: Followup) -> Decision {
    Decision { state: s, step: StepView { actions, followup: Some(f) } }
}

/// The wire integer of an optional epoch read as the optional epoch.
pub open spec fn int_epoch(v: u64) -> Option<u64> {
    if v == 0 {
        None
    } else {
        Some(v)
    }
}

/// The next epoch of an optional epoch.
pub open spec fn inc_opt(e: Option<u64>) -> Option<u64> {
    match e {
        Some(v) => Some(spec_increment(v)),
        None => None,
    }
}

/// The timer actions on entering the connecting state: the timer is
/// stopped, then set to the connecting timeout if there is one.
pub open spec fn connecting_timer(cfg: Config) -> Seq<ActionView> {
    match cfg.connecting_timeout {
        Some(t) => seq![ActionView::ClearTimer, ActionView::SetDeadline(t)],
        None => seq![ActionView::ClearTimer],
    }
}

/// The timer for a waiting period: set to the timeout, or stopped where
/// there is none.
pub open spec fn period_timer(timeout: Option<TimeSpan>) -> Seq<ActionView> {
    match timeout {
        Some(t) => seq![ActionView::SetDeadline(t)],
        None => seq![ActionView::ClearTimer],
    }
}

/// The timer actions on entering the connected state.
pub open spec fn connected_timer() -> Seq<ActionView> {
    seq![ActionView::ClearTimer, ActionView::SetRepeat(connected_interval())]
}

/// Whether a timeout skips its period: it is set and zero.
pub open spec fn skips(timeout: Option<TimeSpan>) -> bool {
    match timeout {
        Some(t) => t.spec_is_zero(),
        None => false,
    }
}

/// The manager of a new epoch with the queued messages inserted in order.
pub open spec fn mm_with_queue(mm: MessageView, queued: Seq<Seq<u8>>) -> MessageView
    decreases queued.len(),
{
    if queued.len() == 0 {
        mm
    } else {
        mm_with_queue(mm_insert(mm, queued[0]), queued.drop_first())
    }
}

/// The fresh manager of epoch `epoch`.
pub open spec fn mm_fresh(epoch: u64) -> MessageView {
    MessageView {
        epoch,
        outgoing: Seq::empty(),
        next_seq: 0,
        incoming: Seq::empty(),
        last_ack: (0, 0),
    }
}

/// The actions that send the queued messages once they are numbered from
/// `first` on.
pub open spec fn send_queued(first: u64, n: nat) -> Seq<ActionView> {
    Seq::new(n, |i: int| ActionView::SendSlices((first + i) as u64))
}

/// Entering the connected state from the epoch negotiation with epoch
/// `epoch`: the user is told, the queued messages are sent, and the timer
/// repeats.
pub open spec fn connect_from_mismatch(queued: Seq<Seq<u8>>, epoch: u64, first: Seq<ActionView>) -> Decision {
    go(
        StateView::Connected { mm: mm_with_queue(mm_fresh(epoch), queued), epoch },
        first + seq![ActionView::Notify(NoticeView::Connected(epoch))] + send_queued(
            0,
            queued.len(),
        ) + connected_timer(),
    )
}

/// Leaving an established epoch for the disconnected state, whose next
/// epoch is the following one.
pub open spec fn disconnect_from_connected(epoch: u64) -> Decision {
    go(
        StateView::Disconnected { epoch: Some(spec_increment(epoch)) },
        seq![ActionView::Notify(NoticeView::Disconnected), ActionView::ClearTimer, ActionView::DropLinks],
    )
}

pub open spec fn disconnect_from_reconnecting(epoch: u64) -> Decision {
    go(
        StateView::Disconnected { epoch: Some(spec_increment(epoch)) },
        seq![
            ActionView::StopConnectors,
            ActionView::Notify(NoticeView::Connecting(false)),
            ActionView::Notify(NoticeView::Disconnected),
            ActionView::ClearTimer,
        ],
    )
}

pub open spec fn disconnect_from_grace(epoch: u64) -> Decision {
    go(
        StateView::Disconnected { epoch: Some(spec_increment(epoch)) },
        seq![ActionView::ClearTimer, ActionView::Notify(NoticeView::Disconnected)],
    )
}

/// A message from the user within an established epoch: kept for sending
/// unless it is bound to another epoch (or the sequence numbers are used up).
pub open spec fn accepts_message(mm: MessageView, epoch: u64, bound: Option<u64>) -> bool {
    (bound is None || bound == Some(epoch)) && mm.next_seq < u64::MAX
}

/// Taking in the bytes of a slice of the established epoch: the manager after
/// receiving and handing out, the acknowledgement to send (when asked for
/// and `ack` holds), and the messages handed out as notices. The
/// acknowledgement is sent when it moved, and also when the slice was all
/// acknowledged already: the other side sent it again, so it may have missed
/// the earlier acknowledgement.
pub open spec fn take_in_slice(
    mm: MessageView,
    epoch: u64,
    seq: u64,
    seq_len: u64,
    first_index: u64,
    data: Seq<u8>,
    ack: bool,
) -> (MessageView, Seq<ActionView>) {
    let stale = !spec_in_range(mm.last_ack, seq, first_index, seq_len);
    let (m1, moved) = mm_recv(mm, seq, first_index, seq_len, data);
    let (m2, msgs) = mm_take(m1);
    let acks = if ack && (moved || stale) {
        seq![ActionView::Ack { epoch, seq: m1.last_ack.0, last_index: m1.last_ack.1 }]
    } else {
        Seq::empty()
    };
    (m2, acks + msgs.map_values(|d: Seq<u8>| ActionView::Notify(NoticeView::Message(d, epoch))))
}

/// The reset frame's epoch is the given established epoch.
pub open spec fn same_epoch(frame_epoch: u64, epoch: u64) -> bool {
    frame_epoch != 0 && frame_epoch == epoch
}

/// The decisions of the disconnected state.
pub open spec fn decide_disconnected(epoch: Option<u64>, cfg: Config, ev: EventView) -> Decision {
    let s = StateView::Disconnected { epoch };
    match ev {
        EventView::Command(c) => match c {
            CommandView::Connect => go(
                StateView::Connecting { queued: Seq::empty(), epoch },
                seq![ActionView::StartConnectors] + connecting_timer(cfg),
            ),
            CommandView::Disconnect => stay(s, Seq::empty()),
            CommandView::AddConnector => stay(s, seq![ActionView::StoreConnector]),
            CommandView::AddAddress { reuse } => stay(s, seq![ActionView::StoreAddress { reuse }]),
            CommandView::AddLink { wrapped } => if wrapped {
                go(
                    StateView::EpochMismatch { queued: Seq::empty(), epoch },
                    seq![
                        ActionView::AddLink,
                        ActionView::PingAll,
                        ActionView::Reset { epoch, request: true },
                    ],
                )
            } else {
                stay(s, Seq::empty())
            },
            CommandView::Message(data, bound) => if cfg.auto_connect && bound is None {
                go(
                    StateView::Connecting { queued: seq![data], epoch },
                    seq![ActionView::StartConnectors] + connecting_timer(cfg),
                )
            } else {
                stay(s, Seq::empty())
            },
        },
        EventView::Link { .. } => stay(s, seq![ActionView::ClearReaders]),
        EventView::Timer { .. } => stay(s, seq![ActionView::ClearTimer]),
        EventView::EvictLink(_) => stay(s, seq![ActionView::ReplyEvict(false)]),
    }
}

/// The decisions of the connecting state.
pub open spec fn decide_connecting(queued: Seq<Seq<u8>>, epoch: Option<u64>, cfg: Config, ev: EventView) -> Decision {
    let s = StateView::Connecting { queued, epoch };
    let give_up = go(
        StateView::Disconnected { epoch },
        seq![
            ActionView::StopConnectors,
            ActionView::ClearTimer,
            ActionView::Notify(NoticeView::Connecting(false)),
        ],
    );
    match ev {
        EventView::Command(c) => match c {
            CommandView::Connect => stay(s, Seq::empty()),
            CommandView::Disconnect => give_up,
            CommandView::AddConnector => stay(s, seq![ActionView::GiveConnector]),
            CommandView::AddAddress { reuse } => stay(s, seq![ActionView::GiveAddress { reuse }]),
            CommandView::AddLink { wrapped } => if wrapped {
                go(
                    StateView::EpochMismatch { queued, epoch },
                    seq![
                        ActionView::StopConnectors,
                        ActionView::AddLink,
                        ActionView::PingAll,
                        ActionView::Reset { epoch, request: true },
                    ],
                )
            } else {
                stay(s, Seq::empty())
            },
            CommandView::Message(data, bound) => if bound is None {
                stay(StateView::Connecting { queued: queued.push(data), epoch }, Seq::empty())
            } else {
                stay(s, Seq::empty())
            },
        },
        EventView::Link { .. } => stay(s, Seq::empty()),
        EventView::Timer { .. } => give_up,
        EventView::EvictLink(_) => stay(s, seq![ActionView::ReplyEvict(false)]),
    }
}

/// The decisions of the epoch negotiation.
pub open spec fn decide_mismatch(queued: Seq<Seq<u8>>, epoch: Option<u64>, cfg: Config, ev: EventView) -> Decision {
    let s = StateView::EpochMismatch { queued, epoch };
    match ev {
        EventView::Command(c) => match c {
            CommandView::Connect => stay(s, Seq::empty()),
            CommandView::Disconnect => go(
                StateView::Disconnected { epoch: inc_opt(epoch) },
                seq![ActionView::DropLinks, ActionView::ClearTimer],
            ),
            CommandView::AddConnector => stay(s, seq![ActionView::StoreConnector]),
            CommandView::AddAddress { reuse } => stay(s, seq![ActionView::StoreAddress { reuse }]),
            CommandView::AddLink { wrapped } => if wrapped {
                stay(s, seq![ActionView::AddLink])
            } else {
                stay(s, Seq::empty())
            },
            CommandView::Message(data, bound) => if bound is None {
                stay(StateView::EpochMismatch { queued: queued.push(data), epoch }, Seq::empty())
            } else {
                stay(s, Seq::empty())
            },
        },
        EventView::Link { id, msg } => match msg {
            ProtocolView::Reset { epoch: theirs, request } => {
                let other = int_epoch(theirs);
                match order_opt(epoch, other) {
                    std::cmp::Ordering::Greater => stay(
                        s,
                        seq![ActionView::Reset { epoch, request: false }],
                    ),
                    std::cmp::Ordering::Equal => connect_from_mismatch(
                        queued,
                        epoch.unwrap(),
                        if request {
                            seq![ActionView::Reset { epoch, request: false }]
                        } else {
                            Seq::empty()
                        },
                    ),
                    std::cmp::Ordering::Less => {
                        let adopted = match other {
                            Some(v) => v,
                            None => 1,
                        };
                        connect_from_mismatch(
                            queued,
                            adopted,
                            seq![ActionView::Reset { epoch: Some(adopted), request: false }],
                        )
                    },
                }
            },
            ProtocolView::Ping => stay(s, seq![ActionView::Pong(id)]),
            ProtocolView::Pong => stay(s, seq![ActionView::EndPing(id)]),
            _ => stay(s, Seq::empty()),
        },
        EventView::Timer { .. } => stay_then(
            s,
            seq![ActionView::Upkeep, ActionView::PingAll],
            Followup::MismatchTimer,
        ),
        EventView::EvictLink(_) => stay(s, seq![ActionView::ReplyEvict(false)]),
    }
}

/// The order of optional epoch values: none is less than everything, even
/// none.
pub open spec fn order_opt(a: Option<u64>, b: Option<u64>) -> std::cmp::Ordering {
    match a {
        Some(x) => match b {
            Some(y) => if x < y {
                std::cmp::Ordering::Less
            } else if x == y {
                std::cmp::Ordering::Equal
            } else {
                std::cmp::Ordering::Greater
            },
            None => std::cmp::Ordering::Greater,
        },
        None => std::cmp::Ordering::Less,
    }
}

/// The decisions of the connected state.
pub open spec fn decide_connected(mm: MessageView, epoch: u64, cfg: Config, ev: EventView) -> Decision {
    let s = StateView::Connected { mm, epoch };
    match ev {
        EventView::Command(c) => match c {
            CommandView::Connect => stay(s, Seq::empty()),
            CommandView::Disconnect => disconnect_from_connected(epoch),
            CommandView::AddConnector => stay(s, seq![ActionView::StoreConnector]),
            CommandView::AddAddress { reuse } => stay(s, seq![ActionView::StoreAddress { reuse }]),
            CommandView::AddLink { wrapped } => if wrapped {
                stay(s, seq![ActionView::AddLink])
            } else {
                stay(s, Seq::empty())
            },
            CommandView::Message(data, bound) => if accepts_message(mm, epoch, bound) {
                stay_then(
                    StateView::Connected { mm: mm_insert(mm, data), epoch },
                    seq![ActionView::SendSlices(mm.next_seq)],
                    Followup::DetermineState,
                )
            } else {
                stay(s, Seq::empty())
            },
        },
        EventView::Link { id, msg } => match msg {
            ProtocolView::Reset { epoch: theirs, request } => if !request {
                stay(s, Seq::empty())
            } else if same_epoch(theirs, epoch) {
                stay_then(
                    s,
                    seq![ActionView::Reset { epoch: Some(epoch), request: false }],
                    Followup::DetermineState,
                )
            } else {
                go(
                    StateView::EpochMismatch {
                        queued: Seq::empty(),
                        epoch: Some(spec_increment(epoch)),
                    },
                    seq![ActionView::Reset { epoch: Some(spec_increment(epoch)), request: true }],
                )
            },
            ProtocolView::Ack { epoch: e, seq, last_index } => if e == epoch {
                stay(StateView::Connected { mm: mm_ack(mm, (seq, last_index)), epoch }, Seq::empty())
            } else {
                stay(s, Seq::empty())
            },
            ProtocolView::MsgSlice { epoch: e, seq, seq_len, first_index, data } => if e == epoch {
                let (m2, actions) = take_in_slice(mm, epoch, seq, seq_len, first_index, data, true);
                stay_then(StateView::Connected { mm: m2, epoch }, actions, Followup::DetermineState)
            } else {
                stay(s, Seq::empty())
            },
            ProtocolView::Ping => stay(s, seq![ActionView::Pong(id)]),
            ProtocolView::Pong => stay(s, seq![ActionView::EndPing(id)]),
        },
        EventView::Timer { since_last_ping_nanos } => stay_then(
            s,
            if since_last_ping_nanos > ping_interval_nanos() {
                seq![ActionView::PingAll, ActionView::Upkeep]
            } else {
                seq![ActionView::Upkeep]
            },
            Followup::ResendFirst,
        ),
        EventView::EvictLink(id) => stay_then(s, seq![ActionView::Evict(id)], Followup::AnswerEviction),
    }
}

/// The connected state's check of its links: with none left it reconnects,
/// waits for a reconnection, or disconnects, as configured.
pub open spec fn determine_state(mm: MessageView, epoch: u64, cfg: Config, links_empty: bool) -> Decision {
    if !links_empty {
        stay(StateView::Connected { mm, epoch }, Seq::empty())
    } else if !skips(cfg.reconnecting_timeout) {
        go(
            StateView::Reconnecting { mm, epoch },
            period_timer(cfg.reconnecting_timeout) + seq![
                ActionView::DropLinks,
                ActionView::StartConnectors,
            ],
        )
    } else if !skips(cfg.grace_period_timeout) {
        go(
            StateView::GracePeriod { mm, epoch },
            period_timer(cfg.grace_period_timeout) + seq![ActionView::DropLinks],
        )
    } else {
        disconnect_from_connected(epoch)
    }
}

/// The decisions shared by the two states that have lost their links within
/// an epoch, for the events they treat alike.
pub open spec fn decide_waiting_common(s: StateView, mm: MessageView, epoch: u64, ev: EventView, rebuild: spec_fn(MessageView) -> StateView) -> Decision {
    match ev {
        EventView::Command(CommandView::Message(data, bound)) => if accepts_message(mm, epoch, bound) {
            stay(rebuild(mm_insert(mm, data)), Seq::empty())
        } else {
            stay(s, Seq::empty())
        },
        EventView::Link { msg: ProtocolView::Ack { epoch: e, seq, last_index }, .. } => if e
            == epoch {
            stay(rebuild(mm_ack(mm, (seq, last_index))), Seq::empty())
        } else {
            stay(s, Seq::empty())
        },
        EventView::Link {
            msg: ProtocolView::MsgSlice { epoch: e, seq, seq_len, first_index, data },
            ..
        } => if e == epoch {
            let (m2, actions) = take_in_slice(mm, epoch, seq, seq_len, first_index, data, false);
            stay(rebuild(m2), actions)
        } else {
            stay(s, Seq::empty())
        },
        _ => stay(s, Seq::empty()),
    }
}

/// The decisions of the reconnecting state.
pub open spec fn decide_reconnecting(mm: MessageView, epoch: u64, cfg: Config, ev: EventView) -> Decision {
    let s = StateView::Reconnecting { mm, epoch };
    let to_connecting = go(
        StateView::Connecting { queued: Seq::empty(), epoch: Some(spec_increment(epoch)) },
        connecting_timer(cfg),
    );
    match ev {
        EventView::Command(CommandView::Disconnect) => disconnect_from_reconnecting(epoch),
        EventView::Command(CommandView::AddConnector) => stay(s, seq![ActionView::GiveConnector]),
        EventView::Command(CommandView::AddAddress { reuse }) => stay(
            s,
            seq![ActionView::GiveAddress { reuse }],
        ),
        EventView::Command(CommandView::AddLink { wrapped }) => if wrapped {
            go(
                StateView::Connected { mm, epoch },
                seq![
                    ActionView::StopConnectors,
                    ActionView::AddLink,
                    ActionView::PingAll,
                    ActionView::Notify(NoticeView::Connecting(false)),
                ] + connected_timer(),
            )
        } else {
            stay(s, Seq::empty())
        },
        EventView::Link { msg: ProtocolView::Reset { epoch: theirs, request }, .. } => if request
            && same_epoch(theirs, epoch) {
            to_connecting
        } else {
            stay(s, Seq::empty())
        },
        EventView::Timer { .. } => if cfg.auto_connect {
            to_connecting
        } else {
            disconnect_from_reconnecting(epoch)
        },
        EventView::EvictLink(_) => stay(s, seq![ActionView::ReplyEvict(false)]),
        _ => decide_waiting_common(
            s,
            mm,
            epoch,
            ev,
            |m: MessageView| StateView::Reconnecting { mm: m, epoch },
        ),
    }
}

/// The decisions of the grace period.
pub open spec fn decide_grace(mm: MessageView, epoch: u64, cfg: Config, ev: EventView) -> Decision {
    let s = StateView::GracePeriod { mm, epoch };
    match ev {
        EventView::Command(CommandView::Disconnect) => disconnect_from_grace(epoch),
        EventView::Command(CommandView::AddConnector) => stay(s, seq![ActionView::StoreConnector]),
        EventView::Command(CommandView::AddAddress { reuse }) => stay(
            s,
            seq![ActionView::StoreAddress { reuse }],
        ),
        EventView::Command(CommandView::AddLink { wrapped }) => if wrapped {
            go(
                StateView::Connected { mm, epoch },
                seq![ActionView::AddLink, ActionView::PingAll] + connected_timer(),
            )
        } else {
            stay(s, Seq::empty())
        },
        EventView::Link { msg: ProtocolView::Reset { epoch: theirs, request }, .. } => if request
            && same_epoch(theirs, epoch) {
            disconnect_from_grace(epoch)
        } else {
            stay(s, Seq::empty())
        },
        EventView::Timer { .. } => if cfg.auto_connect {
            go(
                StateView::Connecting { queued: Seq::empty(), epoch: Some(spec_increment(epoch)) },
                seq![ActionView::Notify(NoticeView::Disconnected), ActionView::StartConnectors]
                    + connecting_timer(cfg),
            )
        } else {
            disconnect_from_grace(epoch)
        },
        EventView::EvictLink(_) => stay(s, seq![ActionView::ReplyEvict(false)]),
        _ => decide_waiting_common(
            s,
            mm,
            epoch,
            ev,
            |m: MessageView| StateView::GracePeriod { mm: m, epoch },
        ),
    }
}

/// The decision on an event in any state.
pub open spec fn decide(s: StateView, cfg: Config, ev: EventView) -> Decision {
    match s {
        StateView::Disconnected { epoch } => decide_disconnected(epoch, cfg, ev),
        StateView::Connecting { queued, epoch } => decide_connecting(queued, epoch, cfg, ev),
        StateView::EpochMismatch { queued, epoch } => decide_mismatch(queued, epoch, cfg, ev),
        StateView::Connected { mm, epoch } => decide_connected(mm, epoch, cfg, ev),
        StateView::Reconnecting { mm, epoch } => decide_reconnecting(mm, epoch, cfg, ev),
        StateView::GracePeriod { mm, epoch } => decide_grace(mm, epoch, cfg, ev),
    }
}

/// The decision once the check that a step asked for is done, `answer` being
/// what the check found (see [Followup]); a check that the state did not ask
/// for changes nothing.
pub open spec fn decide_followup(s: StateView, cfg: Config, f: Followup, answer: bool) -> Decision {
    match s {
        StateView::Connected { mm, epoch } => match f {
            Followup::DetermineState => determine_state(mm, epoch, cfg, answer),
            Followup::ResendFirst => stay_then(
                s,
                if !answer && mm.outgoing.len() > 0 {
                    seq![ActionView::SendSlices(mm.outgoing[0].seq)]
                } else {
                    Seq::empty()
                },
                Followup::DetermineState,
            ),
            Followup::MismatchTimer => stay(s, Seq::empty()),
            Followup::AnswerEviction => stay(s, seq![ActionView::ReplyEvict(answer)]),
        },
        StateView::EpochMismatch { queued, epoch } => match f {
            Followup::MismatchTimer => if !answer {
                stay(s, seq![ActionView::Reset { epoch, request: true }])
            } else if cfg.auto_connect {
                go(
                    StateView::Connecting { queued: Seq::empty(), epoch },
                    seq![ActionView::DropLinks, ActionView::StartConnectors] + connecting_timer(
                        cfg,
                    ),
                )
            } else {
                go(
                    StateView::Disconnected { epoch: inc_opt(epoch) },
                    seq![ActionView::DropLinks, ActionView::ClearTimer],
                )
            },
            _ => stay(s, Seq::empty()),
        },
        _ => stay(s, Seq::empty()),
    }
}

} // verus!
