use link_set::epoch::Epoch;
use link_set::protocol::LinkProtocol;
use link_set::state::machine::LinkSetCore;
use link_set::state::types::{
    Action, Command, Event, Followup, LinkSetMessageInner, Step, TimeSpan,
};

fn epoch(v: u64) -> Epoch {
    Epoch::from_int(v).unwrap()
}

fn name(core: &LinkSetCore) -> &'static str {
    core.get_state().get_name()
}

fn cmd(c: Command) -> Event {
    Event::Command(c)
}

fn link(id: u64, msg: LinkProtocol) -> Event {
    Event::Link { id, msg }
}

/// A core that negotiated epoch 5 with the other side.
fn connected_core() -> LinkSetCore {
    let mut core = LinkSetCore::new();
    core.handle(cmd(Command::AddLink { wrapped: true }));
    core.handle(link(1, LinkProtocol::Reset { epoch: Some(epoch(5)), request: true }));
    assert_eq!(name(&core), "Connected");
    core
}

#[test]
fn new_core_is_disconnected() {
    let core = LinkSetCore::new();
    assert_eq!(name(&core), "Disconnected");
    assert!(core.epoch().is_none());
    let cfg = core.get_config();
    assert!(cfg.auto_connect);
    assert_eq!(cfg.connecting_timeout, Some(TimeSpan::from_secs(60)));
    assert_eq!(cfg.reconnecting_timeout, Some(TimeSpan::from_secs(0)));
    assert_eq!(cfg.grace_period_timeout, Some(TimeSpan::from_secs(0)));
}

#[test]
fn connect_starts_connectors() {
    let mut core = LinkSetCore::new();
    let step = core.handle(cmd(Command::Connect));
    assert_eq!(name(&core), "Connecting");
    assert_eq!(
        step,
        Step {
            actions: vec![
                Action::StartConnectors,
                Action::ClearTimer,
                Action::SetDeadline(TimeSpan::from_secs(60)),
            ],
            followup: None,
        }
    );
}

#[test]
fn connecting_gives_up_on_timer() {
    let mut core = LinkSetCore::new();
    core.handle(cmd(Command::Connect));
    let step = core.handle(Event::Timer { since_last_ping_nanos: 0 });
    assert_eq!(name(&core), "Disconnected");
    assert_eq!(
        step.actions,
        vec![
            Action::StopConnectors,
            Action::ClearTimer,
            Action::Notify(LinkSetMessageInner::Connecting(false)),
        ]
    );
}

#[test]
fn a_link_starts_the_epoch_negotiation() {
    let mut core = LinkSetCore::new();
    let step = core.handle(cmd(Command::AddLink { wrapped: true }));
    assert_eq!(name(&core), "EpochMismatch");
    assert_eq!(
        step.actions,
        vec![
            Action::AddLink,
            Action::PingAll,
            Action::Reset { epoch: None, request: true },
        ]
    );
}

#[test]
fn the_greater_epoch_is_adopted() {
    let mut core = LinkSetCore::new();
    core.handle(cmd(Command::AddLink { wrapped: true }));
    let step = core.handle(link(1, LinkProtocol::Reset { epoch: Some(epoch(5)), request: true }));
    assert_eq!(name(&core), "Connected");
    assert_eq!(core.epoch().map(|e| e.to_int()), Some(5));
    assert_eq!(
        step.actions,
        vec![
            Action::Reset { epoch: Some(epoch(5)), request: false },
            Action::Notify(LinkSetMessageInner::Connected(epoch(5))),
            Action::ClearTimer,
            Action::SetRepeat(TimeSpan::from_secs(5)),
        ]
    );
}

#[test]
fn a_lower_offer_is_answered_with_ours() {
    let mut core = LinkSetCore::new();
    core.handle(cmd(Command::Connect));
    core.handle(cmd(Command::Disconnect));
    // reach an own epoch offer through a finished connection
    let mut core = connected_core();
    core.handle(cmd(Command::Disconnect));
    assert_eq!(core.epoch().map(|e| e.to_int()), Some(6));
    core.handle(cmd(Command::AddLink { wrapped: true }));
    let step = core.handle(link(1, LinkProtocol::Reset { epoch: Some(epoch(2)), request: true }));
    assert_eq!(name(&core), "EpochMismatch");
    assert_eq!(step.actions, vec![Action::Reset { epoch: Some(epoch(6)), request: false }]);
    // the other side accepts our offer
    let step = core.handle(link(1, LinkProtocol::Reset { epoch: Some(epoch(6)), request: false }));
    assert_eq!(name(&core), "Connected");
    assert_eq!(
        step.actions,
        vec![
            Action::Notify(LinkSetMessageInner::Connected(epoch(6))),
            Action::ClearTimer,
            Action::SetRepeat(TimeSpan::from_secs(5)),
        ]
    );
}

#[test]
fn queued_messages_are_sent_once_connected() {
    let mut core = LinkSetCore::new();
    core.handle(cmd(Command::Connect));
    core.handle(cmd(Command::Message(b"one".to_vec(), None)));
    core.handle(cmd(Command::Message(b"two".to_vec(), None)));
    // a message bound to an epoch is not queued
    core.handle(cmd(Command::Message(b"bound".to_vec(), Some(epoch(3)))));
    core.handle(cmd(Command::AddLink { wrapped: true }));
    let step = core.handle(link(1, LinkProtocol::Reset { epoch: Some(epoch(4)), request: false }));
    assert_eq!(
        step.actions,
        vec![
            Action::Reset { epoch: Some(epoch(4)), request: false },
            Action::Notify(LinkSetMessageInner::Connected(epoch(4))),
            Action::SendSlices(0),
            Action::SendSlices(1),
            Action::ClearTimer,
            Action::SetRepeat(TimeSpan::from_secs(5)),
        ]
    );
    let first = core.outgoing_slice(0).expect("message 0 is outgoing");
    match &first.get_slices(100)[0] {
        LinkProtocol::MsgSlice { data, .. } => assert_eq!(data, &b"one".to_vec()),
        other => panic!("unexpected {:?}", other),
    }
    assert!(core.outgoing_slice(2).is_none());
}

#[test]
fn connected_sends_and_receives() {
    let mut core = connected_core();
    let step = core.handle(cmd(Command::Message(b"hi".to_vec(), None)));
    assert_eq!(step.actions, vec![Action::SendSlices(0)]);
    assert_eq!(step.followup, Some(Followup::DetermineState));
    let after = core.resume(Followup::DetermineState, false);
    assert!(after.actions.is_empty());
    assert_eq!(name(&core), "Connected");

    let step = core.handle(link(
        1,
        LinkProtocol::MsgSlice { epoch: 5, seq: 0, seq_len: 2, first_index: 0, data: b"yo".to_vec() },
    ));
    assert_eq!(
        step.actions,
        vec![
            Action::Ack { epoch: epoch(5), seq: 1, last_index: 0 },
            Action::Notify(LinkSetMessageInner::Message(b"yo".to_vec(), epoch(5))),
        ]
    );

    // a slice of another epoch is ignored
    let step = core.handle(link(
        1,
        LinkProtocol::MsgSlice { epoch: 4, seq: 1, seq_len: 1, first_index: 0, data: b"x".to_vec() },
    ));
    assert!(step.actions.is_empty());

    // the acknowledgement clears the outgoing message
    core.handle(link(1, LinkProtocol::Ack { epoch: 5, seq: 1, last_index: 0 }));
    assert!(core.outgoing_slice(0).is_none());
}

#[test]
fn duplicate_slice_is_acknowledged_again() {
    let mut core = connected_core();
    let slice = LinkProtocol::MsgSlice { epoch: 5, seq: 0, seq_len: 2, first_index: 0, data: b"yo".to_vec() };
    let step = core.handle(link(1, slice.clone()));
    assert_eq!(step.actions.len(), 2);
    // the same slice again: nothing new is handed out, the acknowledgement is repeated
    let step = core.handle(link(1, slice));
    assert_eq!(step.actions, vec![Action::Ack { epoch: epoch(5), seq: 1, last_index: 0 }]);
}

#[test]
fn message_bound_to_another_epoch_is_dropped() {
    let mut core = connected_core();
    let step = core.handle(cmd(Command::Message(b"old".to_vec(), Some(epoch(4)))));
    assert!(step.actions.is_empty());
    assert!(core.outgoing_slice(0).is_none());
    let step = core.handle(cmd(Command::Message(b"now".to_vec(), Some(epoch(5)))));
    assert_eq!(step.actions, vec![Action::SendSlices(0)]);
}

#[test]
fn pings_are_answered() {
    let mut core = connected_core();
    assert_eq!(core.handle(link(7, LinkProtocol::Ping)).actions, vec![Action::Pong(7)]);
    assert_eq!(core.handle(link(7, LinkProtocol::Pong)).actions, vec![Action::EndPing(7)]);
}

#[test]
fn connected_timer_pings_when_due() {
    let mut core = connected_core();
    let step = core.handle(Event::Timer { since_last_ping_nanos: 31_000_000_000 });
    assert_eq!(step.actions, vec![Action::PingAll, Action::Upkeep]);
    assert_eq!(step.followup, Some(Followup::ResendFirst));
    let step = core.handle(Event::Timer { since_last_ping_nanos: 1_000 });
    assert_eq!(step.actions, vec![Action::Upkeep]);
}

#[test]
fn losing_all_links_disconnects_by_default() {
    let mut core = connected_core();
    let step = core.resume(Followup::DetermineState, true);
    assert_eq!(name(&core), "Disconnected");
    assert_eq!(core.epoch().map(|e| e.to_int()), Some(6));
    assert_eq!(
        step.actions,
        vec![
            Action::Notify(LinkSetMessageInner::Disconnected),
            Action::ClearTimer,
            Action::DropLinks,
        ]
    );
}

#[test]
fn reconnection_within_the_epoch_is_invisible() {
    let mut core = connected_core();
    core.set_reconnecting_timeout(Some(TimeSpan::from_secs(10)));
    core.handle(cmd(Command::Message(b"kept".to_vec(), None)));
    let step = core.resume(Followup::DetermineState, true);
    assert_eq!(name(&core), "Reconnecting");
    assert_eq!(
        step.actions,
        vec![
            Action::SetDeadline(TimeSpan::from_secs(10)),
            Action::DropLinks,
            Action::StartConnectors,
        ]
    );
    let step = core.handle(cmd(Command::AddLink { wrapped: true }));
    assert_eq!(name(&core), "Connected");
    assert_eq!(core.epoch().map(|e| e.to_int()), Some(5));
    assert!(!step.actions.iter().any(|a| matches!(a, Action::Notify(LinkSetMessageInner::Connected(_)))));
    assert!(core.outgoing_slice(0).is_some());
}

#[test]
fn grace_period_waits_for_the_other_side() {
    let mut core = connected_core();
    core.set_grace_period_timeout(Some(TimeSpan::from_secs(3)));
    let step = core.resume(Followup::DetermineState, true);
    assert_eq!(name(&core), "GracePeriod");
    assert_eq!(step.actions, vec![Action::SetDeadline(TimeSpan::from_secs(3)), Action::DropLinks]);
    // the period ends: with auto connect a new epoch is sought
    let step = core.handle(Event::Timer { since_last_ping_nanos: 0 });
    assert_eq!(name(&core), "Connecting");
    assert_eq!(core.epoch().map(|e| e.to_int()), Some(6));
    assert_eq!(step.actions[0], Action::Notify(LinkSetMessageInner::Disconnected));
}

#[test]
fn waiting_ends_in_disconnection_without_auto_connect() {
    let mut core = connected_core();
    core.set_auto_connect(false);
    core.set_reconnecting_timeout(None);
    core.resume(Followup::DetermineState, true);
    assert_eq!(name(&core), "Reconnecting");
    let step = core.handle(Event::Timer { since_last_ping_nanos: 0 });
    assert_eq!(name(&core), "Disconnected");
    assert!(step.actions.contains(&Action::Notify(LinkSetMessageInner::Disconnected)));
}

#[test]
fn eviction_is_answered_by_state() {
    let mut core = LinkSetCore::new();
    assert_eq!(core.handle(Event::EvictLink(3)).actions, vec![Action::ReplyEvict(false)]);
    let mut core = connected_core();
    let step = core.handle(Event::EvictLink(3));
    assert_eq!(step.actions, vec![Action::Evict(3)]);
    assert_eq!(step.followup, Some(Followup::AnswerEviction));
    // the answer is whether a link with that id was there
    let step = core.resume(Followup::AnswerEviction, true);
    assert_eq!(step.actions, vec![Action::ReplyEvict(true)]);
    assert_eq!(step.followup, None);
    core.handle(Event::EvictLink(4));
    let step = core.resume(Followup::AnswerEviction, false);
    assert_eq!(step.actions, vec![Action::ReplyEvict(false)]);
    assert_eq!(name(&core), "Connected");
}

#[test]
fn auto_connect_on_message() {
    let mut core = LinkSetCore::new();
    let step = core.handle(cmd(Command::Message(b"m".to_vec(), None)));
    assert_eq!(name(&core), "Connecting");
    assert_eq!(step.actions[0], Action::StartConnectors);
    let mut core = LinkSetCore::new();
    core.set_auto_connect(false);
    let step = core.handle(cmd(Command::Message(b"m".to_vec(), None)));
    assert_eq!(name(&core), "Disconnected");
    assert!(step.actions.is_empty());
}

#[test]
fn reset_request_with_another_epoch_renegotiates() {
    let mut core = connected_core();
    let step = core.handle(link(1, LinkProtocol::Reset { epoch: Some(epoch(9)), request: true }));
    assert_eq!(name(&core), "EpochMismatch");
    assert_eq!(step.actions, vec![Action::Reset { epoch: Some(epoch(6)), request: true }]);
}

#[test]
fn resend_first_after_timer() {
    let mut core = connected_core();
    core.handle(cmd(Command::Message(b"a".to_vec(), None)));
    core.resume(Followup::DetermineState, false);
    let step = core.resume(Followup::ResendFirst, false);
    assert_eq!(step.actions, vec![Action::SendSlices(0)]);
    assert_eq!(step.followup, Some(Followup::DetermineState));
}

#[test]
fn messages_reach_the_user_in_order() {
    let mut core = connected_core();
    let second = LinkProtocol::MsgSlice { epoch: 5, seq: 1, seq_len: 3, first_index: 0, data: b"two".to_vec() };
    let first = LinkProtocol::MsgSlice { epoch: 5, seq: 0, seq_len: 3, first_index: 0, data: b"one".to_vec() };
    // the later message first: held back, not acknowledged past message 0
    let step = core.handle(link(1, second.clone()));
    assert!(step.actions.is_empty());
    core.resume(Followup::DetermineState, false);
    // the earlier one: both are handed out, in order
    let step = core.handle(link(2, first));
    assert_eq!(
        step.actions,
        vec![
            Action::Ack { epoch: epoch(5), seq: 2, last_index: 0 },
            Action::Notify(LinkSetMessageInner::Message(b"one".to_vec(), epoch(5))),
            Action::Notify(LinkSetMessageInner::Message(b"two".to_vec(), epoch(5))),
        ]
    );
    core.resume(Followup::DetermineState, false);
    // a repeat hands out nothing again
    let step = core.handle(link(1, second));
    assert_eq!(step.actions, vec![Action::Ack { epoch: epoch(5), seq: 2, last_index: 0 }]);
}

#[test]
fn a_slice_of_the_last_message_number_is_taken_in() {
    let mut core = connected_core();
    let step = core.handle(link(
        1,
        LinkProtocol::MsgSlice { epoch: 5, seq: u64::MAX, seq_len: 2, first_index: 0, data: b"zz".to_vec() },
    ));
    assert!(step.actions.is_empty());
    assert_eq!(step.followup, Some(Followup::DetermineState));
}
