use vstd::prelude::*;

use crate::epoch::Epoch;
use crate::protocol::{LinkProtocol, ProtocolView};

verus! {

/// The bytes of one message in flight: the whole message on the sending
/// side, or the part received so far on the receiving side.
///
/// A receiving manager keeps the contiguous prefix of the message that has
/// arrived; a slice that starts beyond that prefix is dropped and arrives
/// again when the sender resends from the acknowledged position. A sending
/// manager remembers how many leading bytes the other side has acknowledged.
pub struct SliceManager {
    epoch: Epoch,
    seq: u64,
    seq_len: u64,
    data: Vec<u8>,
    acked: u64,
}

/// The content of a [SliceManager].
#[verifier::ext_equal]
pub struct SliceView {
    pub epoch: u64,
    pub seq: u64,
    pub seq_len: u64,
    pub data: Seq<u8>,
    pub acked: u64,
}

impl View for SliceManager {
    type V = SliceView;

    closed spec fn view(&self) -> SliceView {
        SliceView {
            epoch: self.epoch@,
            seq: self.seq,
            seq_len: self.seq_len,
            data: self.data@,
            acked: self.acked,
        }
    }
}

impl SliceView {
    /// The held bytes never exceed the message, and what is acknowledged was
    /// held.
    pub open spec fn wf(self) -> bool {
        &&& self.data.len() <= self.seq_len
        &&& self.acked <= self.data.len()
    }

    /// The whole message is held.
    pub open spec fn full(self) -> bool {
        self.data.len() == self.seq_len
    }

    /// Every held byte has been acknowledged.
    pub open spec fn all_acked(self) -> bool {
        self.acked == self.data.len()
    }
}

/// The manager after receiving `bytes` at `first` for (`epoch`, `seq`): the
/// part of the bytes that extends the held prefix is appended, up to the
/// length of the message; anything else leaves it as it was.
pub open spec fn spec_recv_slice(v: SliceView, epoch: u64, seq: u64, first: u64, bytes: Seq<u8>) -> SliceView {
    let d = v.data.len();
    let end = if v.seq_len < first + bytes.len() {
        v.seq_len as int
    } else {
        first + bytes.len()
    };
    if epoch != v.epoch || seq != v.seq || first > d || end <= d {
        v
    } else {
        SliceView { data: v.data + bytes.subrange(d - first, end - first), ..v }
    }
}

/// The manager after an acknowledgement of `last_index` leading bytes of
/// (`epoch`, `seq`): the acknowledged count grows to it, bounded by what is
/// held; it never shrinks.
pub open spec fn spec_ack(v: SliceView, epoch: u64, seq: u64, last_index: u64) -> SliceView {
    let bound = if last_index < v.data.len() {
        last_index
    } else {
        v.data.len() as u64
    };
    if epoch != v.epoch || seq != v.seq || bound <= v.acked {
        v
    } else {
        SliceView { acked: bound, ..v }
    }
}

/// The frames that carry the held bytes from `first` on, in chunks of at most
/// `size` bytes, in order.
pub open spec fn chunks_from(v: SliceView, size: nat, first: nat) -> Seq<ProtocolView>
    decreases v.data.len() - first,
{
    if size == 0 || first >= v.data.len() {
        Seq::empty()
    } else {
        let end = if first + size < v.data.len() {
            first + size
        } else {
            v.data.len()
        };
        seq![
            ProtocolView::MsgSlice {
                epoch: v.epoch,
                seq: v.seq,
                seq_len: v.seq_len,
                first_index: first as u64,
                data: v.data.subrange(first as int, end as int),
            },
        ] + chunks_from(v, size, end)
    }
}

/// The frames that still need to be sent: the unacknowledged bytes in chunks
/// of at most `size` bytes.
pub open spec fn spec_slices(v: SliceView, size: nat) -> Seq<ProtocolView> {
    chunks_from(v, size, v.acked as nat)
}

/// Receiving the frames in order, each as [SliceManager::recv_slice] does.
pub open spec fn recv_all(v: SliceView, frames: Seq<ProtocolView>) -> SliceView
    decreases frames.len(),
{
    if frames.len() == 0 {
        v
    } else {
        let next = match frames[0] {
            ProtocolView::MsgSlice { epoch, seq, first_index, data, .. } => spec_recv_slice(
                v,
                epoch,
                seq,
                first_index,
                data,
            ),
            _ => v,
        };
        recv_all(next, frames.drop_first())
    }
}

impl SliceManager {
    /// The manager that sends `data` as message `seq` of `epoch`.
    pub fn from_vec(epoch: Epoch, seq: u64, data: Vec<u8>) -> (r: SliceManager)
        ensures
            r@ == (SliceView { epoch: epoch@, seq, seq_len: data@.len() as u64, data: data@, acked: 0 }),
            r@.wf(),
            r@.full(),
    {
        let seq_len = data.len() as u64;
        SliceManager { epoch, seq, seq_len, data, acked: 0 }
    }

    /// The manager that receives message `seq` of `epoch`, `seq_len` bytes
    /// long.
    pub fn new(epoch: Epoch, seq: u64, seq_len: u64) -> (r: SliceManager)
        ensures
            r@ == (SliceView { epoch: epoch@, seq, seq_len, data: Seq::empty(), acked: 0 }),
            r@.wf(),
    {
        SliceManager { epoch, seq, seq_len, data: Vec::new(), acked: 0 }
    }

    /// The sequence number of the message.
    pub fn seq(&self) -> (r: u64)
        ensures
            r == self@.seq,
    {
        self.seq
    }

    /// Takes in the bytes of a received slice.
    pub fn recv_slice(&mut self, epoch: Epoch, seq: u64, first_index: u64, bytes: Vec<u8>)
        requires
            old(self)@.wf(),
        ensures
            final(self)@ == spec_recv_slice(old(self)@, epoch@, seq, first_index, bytes@),
            final(self)@.wf(),
    {
        let d = self.data.len() as u64;
        if epoch.to_int() != self.epoch.to_int() || seq != self.seq || first_index > d {
            return;
        }
        let skip = d - first_index;
        let bytes_len = bytes.len() as u64;
        if bytes_len <= skip || self.seq_len <= d {
            return;
        }
        let room = self.seq_len - d;
        let avail = bytes_len - skip;
        let take = if avail < room {
            avail
        } else {
            room
        };
        let ghost old_data = self.data@;
        let mut i: u64 = 0;
        while i < take
            invariant
                0 <= i <= take,
                skip + take <= bytes@.len(),
                bytes@.len() <= usize::MAX,
                self.data@ =~= old_data + bytes@.subrange(skip as int, skip + i),
                self.seq_len == old(self).seq_len,
                self.epoch == old(self).epoch,
                self.seq == old(self).seq,
                self.acked == old(self).acked,
                old_data == old(self).data@,
            decreases take - i,
        {
            assert(skip + i < bytes@.len());
            let idx = (skip + i) as usize;
            self.data.push(bytes[idx]);
            i = i + 1;
        }
        assert(self@ == spec_recv_slice(old(self)@, epoch@, seq, first_index, bytes@));
    }

    /// Takes in an acknowledgement of the first `last_index` bytes.
    pub fn ack(&mut self, epoch: Epoch, seq: u64, last_index: u64)
        requires
            old(self)@.wf(),
        ensures
            final(self)@ == spec_ack(old(self)@, epoch@, seq, last_index),
            final(self)@.wf(),
    {
        let d = self.data.len() as u64;
        let bound = if last_index < d {
            last_index
        } else {
            d
        };
        if epoch.to_int() != self.epoch.to_int() || seq != self.seq || bound <= self.acked {
            return;
        }
        self.acked = bound;
    }

    /// Every held byte has been acknowledged: nothing is left to send.
    pub fn is_empty(&self) -> (r: bool)
        ensures
            r == self@.all_acked(),
    {
        self.acked == self.data.len() as u64
    }

    /// The held bytes, giving up the manager.
    pub fn into_data(self) -> (r: Vec<u8>)
        ensures
            r@ == self@.data,
    {
        self.data
    }

    /// The whole message has arrived.
    pub fn is_full(&self) -> (r: bool)
        ensures
            r == self@.full(),
    {
        self.data.len() as u64 == self.seq_len
    }

    /// The position just past the received prefix, if any byte has arrived.
    pub fn last_head_index(&self) -> (r: Option<u64>)
        ensures
            r == (if self@.data.len() == 0 {
                None
            } else {
                Some(self@.data.len() as u64)
            }),
    {
        if self.data.len() == 0 {
            None
        } else {
            Some(self.data.len() as u64)
        }
    }

    /// The message, once it has fully arrived.
    pub fn data(&self) -> (r: Option<&[u8]>)
        ensures
            r is Some <==> self@.full(),
            r matches Some(d) ==> d@ == self@.data,
    {
        if self.data.len() as u64 == self.seq_len {
            Some(self.data.as_slice())
        } else {
            None
        }
    }

    /// The frames that carry the unacknowledged bytes, in chunks of at most
    /// `size` bytes, in order.
    pub fn get_slices(&self, size: u32) -> (r: Vec<LinkProtocol>)
        requires
            self@.wf(),
        ensures
            r@.map_values(|p: LinkProtocol| p@) == spec_slices(self@, size as nat),
    {
        let mut ret: Vec<LinkProtocol> = Vec::new();
        if size == 0 {
            assert(ret@.map_values(|p: LinkProtocol| p@) =~= spec_slices(self@, size as nat));
            return ret;
        }
        let d = self.data.len();
        let mut first: usize = self.acked as usize;
        while first < d
            invariant
                self@.wf(),
                d == self@.data.len(),
                self.acked <= first <= d,
                size > 0,
                ret@.map_values(|p: LinkProtocol| p@) + chunks_from(self@, size as nat, first as nat)
                    =~= spec_slices(self@, size as nat),
            decreases d - first,
        {
            let end = if (d - first) as u64 > size as u64 {
                first + size as usize
            } else {
                d
            };
            let mut chunk: Vec<u8> = Vec::new();
            let mut i = first;
            while i < end
                invariant
                    first <= i <= end <= d,
                    d == self.data@.len(),
                    chunk@ =~= self.data@.subrange(first as int, i as int),
                decreases end - i,
            {
                chunk.push(self.data[i]);
                i = i + 1;
            }
            let frame = LinkProtocol::MsgSlice {
                epoch: self.epoch.to_int(),
                seq: self.seq,
                seq_len: self.seq_len,
                first_index: first as u64,
                data: chunk,
            };
            let ghost before = ret@.map_values(|p: LinkProtocol| p@);
            ret.push(frame);
            assert(ret@.map_values(|p: LinkProtocol| p@) =~= before.push(frame@));
            assert(chunks_from(self@, size as nat, first as nat) =~= seq![frame@] + chunks_from(
                self@,
                size as nat,
                end as nat,
            ));
            first = end;
        }
        ret
    }
}

/// Sending a message in slices and receiving them in order rebuilds it: a
/// receiver that holds the first `k` bytes of `data`, given the frames that
/// carry the bytes from any `first <= k` on, ends holding the whole message.
pub proof fn lemma_slices_rebuild_message(
    sender: SliceView,
    receiver: SliceView,
    size: nat,
    first: nat,
)
    requires
        sender.wf(),
        sender.full(),
        size > 0,
        receiver.wf(),
        receiver.epoch == sender.epoch,
        receiver.seq == sender.seq,
        receiver.seq_len == sender.seq_len,
        receiver.data.len() <= sender.data.len(),
        receiver.data == sender.data.subrange(0, receiver.data.len() as int),
        first <= receiver.data.len(),
    ensures
        recv_all(receiver, chunks_from(sender, size, first)).data == sender.data,
        recv_all(receiver, chunks_from(sender, size, first)).full(),
    decreases sender.data.len() - first,
{
    let frames = chunks_from(sender, size, first);
    if first >= sender.data.len() {
        assert(receiver.data =~= sender.data);
    } else {
        let end = if first + size < sender.data.len() {
            first + size
        } else {
            sender.data.len()
        };
        let bytes = sender.data.subrange(first as int, end as int);
        let next = spec_recv_slice(receiver, sender.epoch, sender.seq, first as u64, bytes);
        assert(frames.drop_first() =~= chunks_from(sender, size, end));
        let k = receiver.data.len();
        if end > k {
            assert(next.data =~= sender.data.subrange(0, end as int));
        } else {
            assert(next == receiver);
        }
        if end <= k {
            if k < sender.data.len() {
                lemma_slices_rebuild_message(sender, next, size, end);
            } else {
                lemma_slices_rebuild_message(sender, next, size, end);
            }
        } else {
            lemma_slices_rebuild_message(sender, next, size, end);
        }
    }
}

} // verus!
