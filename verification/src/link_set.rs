use vstd::prelude::*;

use crate::epoch::Epoch;
use crate::state::types::LinkSetMessageInner;

verus! {

/// A message type that a link set can carry: it turns into bytes and back.
pub trait LinkSetSendable: Sized {
    /// The error of a conversion.
    type E;

    /// The bytes of the message.
    fn to_bytes(self) -> Result<Vec<u8>, Self::E>;

    /// The message that the bytes hold.
    fn from_bytes(bytes: Vec<u8>) -> Result<Self, Self::E>;
}

/// What a link set tells its user: a change of its status, or a message.
#[derive(Debug)]
pub enum LinkSetMessage<M> {
    /// The link set has disconnected
    Disconnected,
    /// The link set established a connection with the given epoch
    Connected(Epoch),
    /// The link set has started or stopped reconnecting.
    ///
    /// A reconnection lets the connection be reestablished within a time
    /// without a disconnection and connection being seen; it may still help
    /// to know of it, to give the link set new addresses.
    Connecting(bool),
    /// A message was received with the given epoch
    Message(M, Epoch),
}

/// A received message within `epoch`, once its bytes were converted: the
/// conversion's error is passed on.
pub fn message_from_decoded<M, E>(decoded: Result<M, E>, epoch: Epoch) -> (r: Result<
    LinkSetMessage<M>,
    E,
>)
    ensures
        decoded matches Ok(m) ==> r matches Ok(LinkSetMessage::Message(n, f)) && n == m && f
            == epoch,
        decoded matches Err(e) ==> r matches Err(g) && g == e,
{
    match decoded {
        Ok(m) => Ok(LinkSetMessage::Message(m, epoch)),
        Err(e) => Err(e),
    }
}

impl<M: LinkSetSendable> LinkSetMessage<M> {
    /// The notice of the link set as its user sees it: a status change
    /// carries over as it is, and a message's bytes are converted to the
    /// message type.
    pub fn try_from_inner(value: LinkSetMessageInner) -> (r: Result<Self, M::E>)
        ensures
            value matches LinkSetMessageInner::Disconnected ==> r matches Ok(
                LinkSetMessage::Disconnected,
            ),
            value matches LinkSetMessageInner::Connected(e) ==> r matches Ok(
                LinkSetMessage::Connected(f),
            ) && f == e,
            value matches LinkSetMessageInner::Connecting(b) ==> r matches Ok(
                LinkSetMessage::Connecting(c),
            ) && c == b,
            value matches LinkSetMessageInner::Message(_, e) ==> (r matches Ok(
                LinkSetMessage::Message(_, f),
            ) && f == e) || r is Err,
    {
        match value {
            LinkSetMessageInner::Disconnected => Ok(LinkSetMessage::Disconnected),
            LinkSetMessageInner::Connected(epoch) => Ok(LinkSetMessage::Connected(epoch)),
            LinkSetMessageInner::Connecting(b) => Ok(LinkSetMessage::Connecting(b)),
            LinkSetMessageInner::Message(bytes, epoch) => message_from_decoded(
                M::from_bytes(bytes),
                epoch,
            ),
        }
    }
}

/// The epoch a receiver reports after handing out `msg`: a connection sets
/// it, a disconnection clears it, and anything else keeps it.
pub fn epoch_after<M>(msg: &LinkSetMessage<M>, current: Option<Epoch>) -> (r: Option<Epoch>)
    ensures
        msg matches LinkSetMessage::Connected(e) ==> r == Some(*e),
        msg matches LinkSetMessage::Disconnected ==> r is None,
        msg matches LinkSetMessage::Connecting(_) ==> r == current,
        msg matches LinkSetMessage::Message(_, _) ==> r == current,
{
    match msg {
        LinkSetMessage::Connected(e) => Some(*e),
        LinkSetMessage::Disconnected => None,
        _ => current,
    }
}

/// The epoch a receiver reports: none once its channel is closed and
/// drained, else the one it stored.
pub fn reported_epoch(channel_done: bool, stored: Option<Epoch>) -> (r: Option<Epoch>)
    ensures
        channel_done ==> r is None,
        !channel_done ==> r == stored,
{
    if channel_done {
        None
    } else {
        stored
    }
}

} // verus!
