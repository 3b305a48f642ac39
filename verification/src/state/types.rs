use vstd::prelude::*;

use crate::epoch::Epoch;
use crate::message_manager::{MessageManager, MessageView};
use crate::protocol::{LinkProtocol, ProtocolView};

verus! {

/// A span of time, held as `std::time::Duration` holds it: whole seconds and
/// the nanoseconds beyond them.
#[derive(Debug, Clone, Copy, PartialEq, Eq)]
pub struct TimeSpan {
    pub secs: u64,
    pub nanos: u32,
}

impl TimeSpan {
    /// The span of `secs` seconds.
    pub fn from_secs(secs: u64) -> (r: TimeSpan)
        ensures
            r == (TimeSpan { secs, nanos: 0 }),
    {
        TimeSpan { secs, nanos: 0 }
    }

    /// The span holds no time.
    pub open spec fn spec_is_zero(self) -> bool {
        self.secs == 0 && self.nanos == 0
    }

    /// Whether the span holds no time.
    pub fn is_zero(&self) -> (r: bool)
        ensures
            r == self.spec_is_zero(),
    {
        self.secs == 0 && self.nanos == 0
    }
}

/// The settings that the link set's decisions depend on.
#[derive(Debug, Clone, Copy, PartialEq, Eq)]
pub struct Config {
    /// Automatically attempt to reconnect when the link set disconnects
    pub auto_connect: bool,
    /// Timeout for the Connecting state (Some(zero) = give up at once, None =
    /// try forever)
    pub connecting_timeout: Option<TimeSpan>,
    /// How long a reconnection attempt with the same epoch lasts (Some(zero) =
    /// skip it, None = try forever)
    pub reconnecting_timeout: Option<TimeSpan>,
    /// How long incoming reconnections with the same epoch are waited for
    /// (Some(zero) = skip, None = wait forever)
    pub grace_period_timeout: Option<TimeSpan>,
}

impl Config {
    /// The settings of a new link set.
    pub open spec fn spec_default() -> Config {
        Config {
            auto_connect: true,
            connecting_timeout: Some(TimeSpan { secs: 60, nanos: 0 }),
            reconnecting_timeout: Some(TimeSpan { secs: 0, nanos: 0 }),
            grace_period_timeout: Some(TimeSpan { secs: 0, nanos: 0 }),
        }
    }

    /// The settings of a new link set: auto connect on, a minute to connect,
    /// no reconnecting and no grace period.
    pub fn new() -> (r: Config)
        ensures
            r == Config::spec_default(),
    {
        Config {
            auto_connect: true,
            connecting_timeout: Some(TimeSpan::from_secs(60)),
            reconnecting_timeout: Some(TimeSpan::from_secs(0)),
            grace_period_timeout: Some(TimeSpan::from_secs(0)),
        }
    }
}

/// Indicates changes to the status of the link set, and messages received.
#[derive(Debug, PartialEq, Eq)]
pub enum LinkSetMessageInner {
    /// The link set has disconnected
    Disconnected,
    /// The link set established a connection with the given epoch
    Connected(Epoch),
    /// The link set has started or stopped reconnecting.
    Connecting(bool),
    /// A message was received with the given epoch
    Message(Vec<u8>, Epoch),
}

/// The content of a [LinkSetMessageInner].
pub enum NoticeView {
    Disconnected,
    Connected(u64),
    Connecting(bool),
    Message(Seq<u8>, u64),
}

impl View for LinkSetMessageInner {
    type V = NoticeView;

    open spec fn view(&self) -> NoticeView {
        match self {
            LinkSetMessageInner::Disconnected => NoticeView::Disconnected,
            LinkSetMessageInner::Connected(e) => NoticeView::Connected(e@),
            LinkSetMessageInner::Connecting(b) => NoticeView::Connecting(*b),
            LinkSetMessageInner::Message(d, e) => NoticeView::Message(d@, e@),
        }
    }
}

/// What the user of the link set asks of it.
pub enum Command {
    /// Attempt to connect using stored addresses, if any
    Connect,
    /// Disconnect, clearing all active links
    Disconnect,
    /// A connector was added (it is held by the caller, which the step tells
    /// where to put it)
    AddConnector,
    /// An address was added; `reuse` tells whether to use it more than once
    AddAddress { reuse: bool },
    /// A link was added; `wrapped` tells whether it could be set up to carry
    /// frames
    AddLink { wrapped: bool },
    /// Send a message, optionally only within the given epoch
    Message(Vec<u8>, Option<Epoch>),
}

/// What happened that the link set must decide on.
pub enum Event {
    /// A command from the user
    Command(Command),
    /// A frame arrived on the link with the given id
    Link { id: u64, msg: LinkProtocol },
    /// The state's timer fired; the last ping of the links was sent the given
    /// number of nanoseconds ago
    Timer { since_last_ping_nanos: u128 },
    /// A request to drop the link with the given id
    EvictLink(u64),
}

/// The content of a [Command].
pub enum CommandView {
    Connect,
    Disconnect,
    AddConnector,
    AddAddress { reuse: bool },
    AddLink { wrapped: bool },
    Message(Seq<u8>, Option<u64>),
}

/// The view of an optional epoch.
pub open spec fn opt_view(e: Option<Epoch>) -> Option<u64> {
    match e {
        Some(x) => Some(x@),
        None => None,
    }
}

impl View for Command {
    type V = CommandView;

    open spec fn view(&self) -> CommandView {
        match self {
            Command::Connect => CommandView::Connect,
            Command::Disconnect => CommandView::Disconnect,
            Command::AddConnector => CommandView::AddConnector,
            Command::AddAddress { reuse } => CommandView::AddAddress { reuse: *reuse },
            Command::AddLink { wrapped } => CommandView::AddLink { wrapped: *wrapped },
            Command::Message(d, e) => CommandView::Message(d@, opt_view(*e)),
        }
    }
}

/// The content of an [Event].
pub enum EventView {
    Command(CommandView),
    Link { id: u64, msg: ProtocolView },
    Timer { since_last_ping_nanos: u128 },
    EvictLink(u64),
}

impl View for Event {
    type V = EventView;

    open spec fn view(&self) -> EventView {
        match self {
            Event::Command(c) => EventView::Command(c@),
            Event::Link { id, msg } => EventView::Link { id: *id, msg: msg@ },
            Event::Timer { since_last_ping_nanos } => EventView::Timer {
                since_last_ping_nanos: *since_last_ping_nanos,
            },
            Event::EvictLink(id) => EventView::EvictLink(*id),
        }
    }
}

/// The outside work that a decision asks for, in the order given.
#[derive(Debug, PartialEq, Eq)]
pub enum Action {
    /// Hand the notice to the user
    Notify(LinkSetMessageInner),
    /// Start the connectors on the stored addresses
    StartConnectors,
    /// Stop the connectors and take back their connectors and addresses
    StopConnectors,
    /// Keep the added connector with the stored ones
    StoreConnector,
    /// Give the added connector to the running connectors
    GiveConnector,
    /// Keep the added address with the stored ones
    StoreAddress { reuse: bool },
    /// Give the added address to the running connectors
    GiveAddress { reuse: bool },
    /// Put the added link in front of the active links
    AddLink,
    /// Close and drop every active link
    DropLinks,
    /// Stop reading from the links
    ClearReaders,
    /// Drop the links that are closed or too slow
    Upkeep,
    /// Ping every link
    PingAll,
    /// Answer a ping on the link with the given id
    Pong(u64),
    /// Record the answer to a ping on the link with the given id
    EndPing(u64),
    /// Drop the links with the given id
    /// ([crate::links::link_manager::LinkManager::evict_link], which tells
    /// whether there was one)
    Evict(u64),
    /// Answer the eviction request: whether a link was evicted
    ReplyEvict(bool),
    /// Send a reset frame over the links
    Reset { epoch: Option<Epoch>, request: bool },
    /// Send an acknowledgement over the links
    Ack { epoch: Epoch, seq: u64, last_index: u64 },
    /// Send the unacknowledged slices of the outgoing message `seq`
    SendSlices(u64),
    /// Stop the timer
    ClearTimer,
    /// Fire the timer once after the span
    SetDeadline(TimeSpan),
    /// Fire the timer every span
    SetRepeat(TimeSpan),
}

/// The content of an [Action].
pub enum ActionView {
    Notify(NoticeView),
    StartConnectors,
    StopConnectors,
    StoreConnector,
    GiveConnector,
    StoreAddress { reuse: bool },
    GiveAddress { reuse: bool },
    AddLink,
    DropLinks,
    ClearReaders,
    Upkeep,
    PingAll,
    Pong(u64),
    EndPing(u64),
    Evict(u64),
    ReplyEvict(bool),
    Reset { epoch: Option<u64>, request: bool },
    Ack { epoch: u64, seq: u64, last_index: u64 },
    SendSlices(u64),
    ClearTimer,
    SetDeadline(TimeSpan),
    SetRepeat(TimeSpan),
}

impl View for Action {
    type V = ActionView;

    open spec fn view(&self) -> ActionView {
        match self {
            Action::Notify(n) => ActionView::Notify(n@),
            Action::StartConnectors => ActionView::StartConnectors,
            Action::StopConnectors => ActionView::StopConnectors,
            Action::StoreConnector => ActionView::StoreConnector,
            Action::GiveConnector => ActionView::GiveConnector,
            Action::StoreAddress { reuse } => ActionView::StoreAddress { reuse: *reuse },
            Action::GiveAddress { reuse } => ActionView::GiveAddress { reuse: *reuse },
            Action::AddLink => ActionView::AddLink,
            Action::DropLinks => ActionView::DropLinks,
            Action::ClearReaders => ActionView::ClearReaders,
            Action::Upkeep => ActionView::Upkeep,
            Action::PingAll => ActionView::PingAll,
            Action::Pong(id) => ActionView::Pong(*id),
            Action::EndPing(id) => ActionView::EndPing(*id),
            Action::Evict(id) => ActionView::Evict(*id),
            Action::ReplyEvict(b) => ActionView::ReplyEvict(*b),
            Action::Reset { epoch, request } => ActionView::Reset {
                epoch: opt_view(*epoch),
                request: *request,
            },
            Action::Ack { epoch, seq, last_index } => ActionView::Ack {
                epoch: epoch@,
                seq: *seq,
                last_index: *last_index,
            },
            Action::SendSlices(seq) => ActionView::SendSlices(*seq),
            Action::ClearTimer => ActionView::ClearTimer,
            Action::SetDeadline(t) => ActionView::SetDeadline(*t),
            Action::SetRepeat(t) => ActionView::SetRepeat(*t),
        }
    }
}

/// A check that a decision needs once its actions are done: the caller
/// reports what it found, and the decision goes on. For the checks on the
/// links that is whether no link is left; after an eviction, whether a link
/// with the id was there.
#[derive(Debug, Clone, Copy, PartialEq, Eq)]
pub enum Followup {
    /// Decide whether the connection is lost
    DetermineState,
    /// Resend the earliest outgoing message if a link is left, then decide
    /// whether the connection is lost
    ResendFirst,
    /// Finish the epoch negotiation's timer: give up without links, else ask
    /// for the epoch again
    MismatchTimer,
    /// Answer the eviction request with whether a link was evicted
    AnswerEviction,
}

/// The result of a decision: the actions to perform, in order, and the check
/// to report back, if any.
#[derive(Debug, PartialEq, Eq)]
pub struct Step {
    pub actions: Vec<Action>,
    pub followup: Option<Followup>,
}

/// The content of a [Step].
#[verifier::ext_equal]
pub struct StepView {
    pub actions: Seq<ActionView>,
    pub followup: Option<Followup>,
}

/// The views of a sequence of actions.
pub open spec fn action_views(s: Seq<Action>) -> Seq<ActionView> {
    s.map_values(|a: Action| a@)
}

impl View for Step {
    type V = StepView;

    open spec fn view(&self) -> StepView {
        StepView { actions: action_views(self.actions@), followup: self.followup }
    }
}

/// The disconnected state: no links and no connectors running.
pub struct Disconnected {
    /// The next allowable epoch (None means any would be ok)
    pub epoch: Option<Epoch>,
}

impl Disconnected {
    /// The state of a new link set.
    pub fn new() -> (r: Disconnected)
        ensures
            r.epoch is None,
    {
        Disconnected { epoch: None }
    }
}

/// The states of the link set, with what each keeps.
pub enum States {
    /// No links, no connectors running
    Disconnected(Disconnected),
    /// The connectors are looking for a link; messages without an epoch wait
    Connecting { queued: Vec<Vec<u8>>, epoch: Option<Epoch> },
    /// Links are up; the two sides agree on an epoch
    EpochMismatch { queued: Vec<Vec<u8>>, epoch: Option<Epoch> },
    /// Links are up and carry the messages of the epoch
    Connected { msg_mgr: MessageManager, epoch: Epoch },
    /// The links were lost; the connectors look for one within the epoch
    Reconnecting { msg_mgr: MessageManager, epoch: Epoch },
    /// The links were lost; a link from the other side is waited for within
    /// the epoch
    GracePeriod { msg_mgr: MessageManager, epoch: Epoch },
}

/// The content of a state. Epochs are held by value.
#[verifier::ext_equal]
pub enum StateView {
    Disconnected { epoch: Option<u64> },
    Connecting { queued: Seq<Seq<u8>>, epoch: Option<u64> },
    EpochMismatch { queued: Seq<Seq<u8>>, epoch: Option<u64> },
    Connected { mm: MessageView, epoch: u64 },
    Reconnecting { mm: MessageView, epoch: u64 },
    GracePeriod { mm: MessageView, epoch: u64 },
}

/// The views of queued messages.
pub open spec fn queue_view(q: Seq<Vec<u8>>) -> Seq<Seq<u8>> {
    q.map_values(|v: Vec<u8>| v@)
}

impl View for States {
    type V = StateView;

    open spec fn view(&self) -> StateView {
        match self {
            States::Disconnected(d) => StateView::Disconnected { epoch: opt_view(d.epoch) },
            States::Connecting { queued, epoch } => StateView::Connecting {
                queued: queue_view(queued@),
                epoch: opt_view(*epoch),
            },
            States::EpochMismatch { queued, epoch } => StateView::EpochMismatch {
                queued: queue_view(queued@),
                epoch: opt_view(*epoch),
            },
            States::Connected { msg_mgr, epoch } => StateView::Connected {
                mm: msg_mgr@,
                epoch: epoch@,
            },
            States::Reconnecting { msg_mgr, epoch } => StateView::Reconnecting {
                mm: msg_mgr@,
                epoch: epoch@,
            },
            States::GracePeriod { msg_mgr, epoch } => StateView::GracePeriod {
                mm: msg_mgr@,
                epoch: epoch@,
            },
        }
    }
}

impl StateView {
    /// A state that carries messages within an epoch: its message manager is
    /// well formed and belongs to that epoch.
    pub open spec fn wf(self) -> bool {
        match self {
            StateView::Connected { mm, epoch } => mm.wf() && mm.epoch == epoch,
            StateView::Reconnecting { mm, epoch } => mm.wf() && mm.epoch == epoch,
            StateView::GracePeriod { mm, epoch } => mm.wf() && mm.epoch == epoch,
            _ => true,
        }
    }

    /// The states that hold an established epoch.
    pub open spec fn in_epoch(self) -> bool {
        self is Connected || self is Reconnecting || self is GracePeriod
    }

    /// The established epoch, for the states that hold one.
    pub open spec fn current_epoch(self) -> u64 {
        match self {
            StateView::Connected { epoch, .. } => epoch,
            StateView::Reconnecting { epoch, .. } => epoch,
            StateView::GracePeriod { epoch, .. } => epoch,
            _ => 0,
        }
    }

    /// The epoch that a state without an established epoch will offer.
    pub open spec fn pending_epoch(self) -> Option<u64> {
        match self {
            StateView::Disconnected { epoch } => epoch,
            StateView::Connecting { epoch, .. } => epoch,
            StateView::EpochMismatch { epoch, .. } => epoch,
            _ => None,
        }
    }
}

impl States {
    /// The state of a new link set.
    pub fn new() -> (r: States)
        ensures
            r@ == (StateView::Disconnected { epoch: None }),
    {
        States::Disconnected(Disconnected::new())
    }

    /// The name of the state.
    pub fn get_name(&self) -> (r: &'static str)
        ensures
            r@ == state_name(self@),
    {
        match self {
            States::Disconnected(_) => "Disconnected",
            States::Connecting { .. } => "Connecting",
            States::EpochMismatch { .. } => "EpochMismatch",
            States::Connected { .. } => "Connected",
            States::Reconnecting { .. } => "Reconnecting",
            States::GracePeriod { .. } => "GracePeriod",
        }
    }
}

/// The name of a state.
pub open spec fn state_name(s: StateView) -> Seq<char> {
    match s {
        StateView::Disconnected { .. } => "Disconnected"@,
        StateView::Connecting { .. } => "Connecting"@,
        StateView::EpochMismatch { .. } => "EpochMismatch"@,
        StateView::Connected { .. } => "Connected"@,
        StateView::Reconnecting { .. } => "Reconnecting"@,
        StateView::GracePeriod { .. } => "GracePeriod"@,
    }
}

} // verus!
