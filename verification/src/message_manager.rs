use vstd::prelude::*;

use crate::epoch::Epoch;
use crate::slice_manager::{SliceManager, SliceView, spec_ack, spec_recv_slice};

verus! {

/// Manages the messages sent to and received from the other side in one
/// epoch.
///
/// Outgoing messages are kept, in sequence order, until the other side has
/// acknowledged them. Incoming messages are reassembled, in sequence order,
/// and handed out in that order once every earlier one is complete.
pub struct MessageManager {
    /// The epoch this is managing
    epoch: Epoch,
    /// Messages that we have sliced to send to the other side, by sequence
    /// number
    outgoing_slices: Vec<SliceManager>,
    /// The next sequence number to use when assigning a new slice
    next_seq: u64,
    /// Messages that we are receiving from the other side, by sequence number
    incoming_slices: Vec<SliceManager>,
    /// The last (seq_num, offset) that we have acknowledged
    last_ack: (u64, u64),
}

/// The content of a [MessageManager].
#[verifier::ext_equal]
pub struct MessageView {
    pub epoch: u64,
    pub outgoing: Seq<SliceView>,
    pub next_seq: u64,
    pub incoming: Seq<SliceView>,
    pub last_ack: (u64, u64),
}

/// The views of a sequence of slice managers.
pub open spec fn views(s: Seq<SliceManager>) -> Seq<SliceView> {
    s.map_values(|m: SliceManager| m@)
}

impl View for MessageManager {
    type V = MessageView;

    closed spec fn view(&self) -> MessageView {
        MessageView {
            epoch: self.epoch@,
            outgoing: views(self.outgoing_slices@),
            next_seq: self.next_seq,
            incoming: views(self.incoming_slices@),
            last_ack: self.last_ack,
        }
    }
}

/// The manager after queueing `data` as the next outgoing message.
pub open spec fn mm_insert(m: MessageView, data: Seq<u8>) -> MessageView {
    MessageView {
        outgoing: m.outgoing.push(
            SliceView { epoch: m.epoch, seq: m.next_seq, seq_len: data.len() as u64, data, acked: 0 },
        ),
        next_seq: (m.next_seq + 1) as u64,
        ..m
    }
}

/// The manager after an acknowledgement.
pub open spec fn mm_ack(m: MessageView, ack: (u64, u64)) -> MessageView {
    MessageView { outgoing: spec_recv_ack(m.outgoing, m.epoch, ack.0, ack.1), ..m }
}

/// The manager after receiving bytes of an incoming message, and whether the
/// acknowledgement moved.
pub open spec fn mm_recv(m: MessageView, seq: u64, first_index: u64, seq_len: u64, data: Seq<u8>) -> (
    MessageView,
    bool,
) {
    if !spec_in_range(m.last_ack, seq, first_index, seq_len) {
        (m, false)
    } else {
        let u = spec_upsert(m.incoming, m.epoch, seq, first_index, seq_len, data);
        if seq > m.last_ack.0 {
            (MessageView { incoming: u, ..m }, false)
        } else {
            let a = advance_from(u, prefix_below(u, seq) as int, m.last_ack);
            (MessageView { incoming: u, last_ack: a, ..m }, a != m.last_ack)
        }
    }
}

/// The manager after handing out the complete acknowledged messages, and
/// those messages in order.
pub open spec fn mm_take(m: MessageView) -> (MessageView, Seq<Seq<u8>>) {
    let k = prefix_below(m.incoming, m.last_ack.0) as int;
    (
        MessageView { incoming: m.incoming.skip(k), ..m },
        m.incoming.take(k).map_values(|v: SliceView| v.data),
    )
}

/// The views of byte vectors.
pub open spec fn bytes_views(s: Seq<Vec<u8>>) -> Seq<Seq<u8>> {
    s.map_values(|v: Vec<u8>| v@)
}

/// The sequence numbers strictly increase along `s`.
pub open spec fn sorted_seqs(s: Seq<SliceView>) -> bool {
    forall|i: int, j: int| 0 <= i < j < s.len() ==> s[i].seq < s[j].seq
}

/// The number of leading entries of `s` whose sequence number is below
/// `bound`.
pub open spec fn prefix_below(s: Seq<SliceView>, bound: u64) -> nat
    decreases s.len(),
{
    if s.len() > 0 && s[0].seq < bound {
        1 + prefix_below(s.drop_first(), bound)
    } else {
        0
    }
}

/// The position just past the received prefix of a message, zero where none
/// has arrived.
pub open spec fn head_offset(v: SliceView) -> u64 {
    v.data.len() as u64
}

/// The acknowledgement reached by walking the entries from position `i` on:
/// each complete entry that holds the awaited sequence number moves the
/// acknowledgement to the start of the next message; the first incomplete one
/// fixes it at its received prefix. Message `u64::MAX` has no next one: the
/// acknowledgement stops at its received prefix, complete or not.
pub open spec fn advance_from(s: Seq<SliceView>, i: int, ack: (u64, u64)) -> (u64, u64)
    decreases s.len() - i,
{
    if i < 0 || i >= s.len() || s[i].seq != ack.0 {
        ack
    } else if s[i].full() && s[i].seq < u64::MAX {
        advance_from(s, i + 1, ((s[i].seq + 1) as u64, 0))
    } else {
        (s[i].seq, head_offset(s[i]))
    }
}

/// Whether received data can still add to what has been acknowledged.
pub open spec fn spec_in_range(ack: (u64, u64), seq: u64, first_index: u64, seq_len: u64) -> bool {
    if seq < ack.0 {
        false
    } else if seq > ack.0 {
        true
    } else {
        first_index + seq_len > ack.1
    }
}

/// The outgoing messages after an acknowledgement of (`seq`, `last_index`):
/// the messages before `seq` are dropped, message `seq` records the
/// acknowledgement and is dropped too once all of it is acknowledged.
pub open spec fn spec_recv_ack(out: Seq<SliceView>, epoch: u64, seq: u64, last_index: u64) -> Seq<
    SliceView,
> {
    let kept = out.skip(prefix_below(out, seq) as int);
    if kept.len() > 0 && kept[0].seq == seq {
        let a = spec_ack(kept[0], epoch, seq, last_index);
        if a.all_acked() {
            kept.drop_first()
        } else {
            kept.update(0, a)
        }
    } else {
        kept
    }
}

/// The incoming messages after `data` arrived at `first_index` of message
/// `seq` (of `seq_len` bytes): the message's manager takes in the bytes, a new
/// manager being placed in sequence order where there was none.
pub open spec fn spec_upsert(
    inc: Seq<SliceView>,
    epoch: u64,
    seq: u64,
    first_index: u64,
    seq_len: u64,
    data: Seq<u8>,
) -> Seq<SliceView> {
    let p = prefix_below(inc, seq) as int;
    if p < inc.len() && inc[p].seq == seq {
        inc.update(p, spec_recv_slice(inc[p], epoch, seq, first_index, data))
    } else {
        inc.insert(
            p,
            spec_recv_slice(
                SliceView { epoch, seq, seq_len, data: Seq::empty(), acked: 0 },
                epoch,
                seq,
                first_index,
                data,
            ),
        )
    }
}

/// Incoming managers in strictly increasing sequence order, each well formed,
/// of epoch `epoch`.
pub open spec fn incoming_ok(s: Seq<SliceView>, epoch: u64) -> bool {
    &&& sorted_seqs(s)
    &&& forall|i: int|
        0 <= i < s.len() ==> {
            &&& (#[trigger] s[i]).wf()
            &&& s[i].epoch == epoch
        }
}

/// The managers numbered below `bound` are complete and consecutive, the last
/// of them numbered just before `bound`.
pub open spec fn chain_below(s: Seq<SliceView>, bound: u64) -> bool {
    forall|i: int|
        0 <= i < s.len() && (#[trigger] s[i]).seq < bound ==> {
            &&& s[i].full()
            &&& (s[i].seq + 1 == bound || (i + 1 < s.len() && s[i + 1].seq == s[i].seq + 1))
        }
}

impl MessageView {
    /// The manager's invariant.
    ///
    /// Outgoing: complete messages of this epoch, in strictly increasing
    /// sequence order, all numbered below the next sequence number.
    /// Incoming: messages of this epoch in strictly increasing sequence
    /// order, none numbered `u64::MAX`; those below the acknowledged sequence
    /// are complete and consecutive, the last of them just before it.
    pub open spec fn wf(self) -> bool {
        &&& sorted_seqs(self.outgoing)
        &&& forall|i: int|
            0 <= i < self.outgoing.len() ==> {
                &&& (#[trigger] self.outgoing[i]).wf()
                &&& self.outgoing[i].full()
                &&& self.outgoing[i].epoch == self.epoch
                &&& self.outgoing[i].seq < self.next_seq
            }
        &&& incoming_ok(self.incoming, self.epoch)
        &&& chain_below(self.incoming, self.last_ack.0)
    }
}

/// In a sorted sequence the entries below a bound are exactly the leading
/// `prefix_below` ones.
pub proof fn lemma_prefix_below(s: Seq<SliceView>, bound: u64)
    requires
        sorted_seqs(s),
    ensures
        prefix_below(s, bound) <= s.len(),
        forall|i: int| 0 <= i < prefix_below(s, bound) ==> #[trigger] s[i].seq < bound,
        forall|i: int| prefix_below(s, bound) <= i < s.len() ==> #[trigger] s[i].seq >= bound,
    decreases s.len(),
{
    if s.len() > 0 && s[0].seq < bound {
        let t = s.drop_first();
        assert(sorted_seqs(t));
        lemma_prefix_below(t, bound);
        assert forall|i: int| 0 <= i < prefix_below(s, bound) implies #[trigger] s[i].seq < bound by {
            if i > 0 {
                assert(s[i] == t[i - 1]);
            }
        }
        assert forall|i: int| prefix_below(s, bound) <= i < s.len() implies #[trigger] s[i].seq
            >= bound by {
            assert(s[i] == t[i - 1]);
        }
    } else if s.len() > 0 {
        assert forall|i: int| prefix_below(s, bound) <= i < s.len() implies #[trigger] s[i].seq
            >= bound by {
            if i > 0 {
                assert(s[0].seq < s[i].seq);
            }
        }
    }
}

/// The number of leading entries below `bound`: the first position holding
/// `bound` or more.
fn find_prefix_below(v: &Vec<SliceManager>, bound: u64) -> (r: usize)
    requires
        sorted_seqs(views(v@)),
    ensures
        r == prefix_below(views(v@), bound),
        r <= v@.len(),
{
    proof {
        lemma_prefix_below(views(v@), bound);
    }
    let mut i: usize = 0;
    while i < v.len()
        invariant
            0 <= i <= v@.len(),
            sorted_seqs(views(v@)),
            forall|j: int| 0 <= j < i ==> #[trigger] views(v@)[j].seq < bound,
            prefix_below(views(v@), bound) <= v@.len(),
            forall|j: int| 0 <= j < prefix_below(views(v@), bound) ==> #[trigger] views(v@)[j].seq < bound,
            forall|j: int| prefix_below(views(v@), bound) <= j < v@.len() ==> #[trigger] views(
                v@,
            )[j].seq >= bound,
        decreases v@.len() - i,
    {
        if v[i].seq() >= bound {
            assert(views(v@)[i as int] == v@[i as int]@);
            proof {
                let k = prefix_below(views(v@), bound);
                if k < i {
                    assert(views(v@)[k as int].seq < bound);
                }
                if k > i {
                    assert(views(v@)[i as int].seq < bound);
                }
            }
            return i;
        }
        assert(views(v@)[i as int] == v@[i as int]@);
        i = i + 1;
    }
    proof {
        let k = prefix_below(views(v@), bound);
        if k < i {
            assert(views(v@)[k as int].seq < bound);
        }
    }
    i
}

/// Taking in an acknowledgement keeps the manager's invariant.
proof fn lemma_recv_ack_wf(m: MessageView, seq: u64, last_index: u64)
    requires
        m.wf(),
    ensures
        (MessageView { outgoing: spec_recv_ack(m.outgoing, m.epoch, seq, last_index), ..m }).wf(),
{
    let out = m.outgoing;
    lemma_prefix_below(out, seq);
    let k = prefix_below(out, seq) as int;
    let kept_v = out.skip(k);
    let o = spec_recv_ack(out, m.epoch, seq, last_index);
    assert forall|i: int, j: int| 0 <= i < j < o.len() implies o[i].seq < o[j].seq by {
        if kept_v.len() > 0 && kept_v[0].seq == seq {
            let a = spec_ack(kept_v[0], m.epoch, seq, last_index);
            if a.all_acked() {
                assert(o[i] == out[k + i + 1] && o[j] == out[k + j + 1]);
            } else {
                assert(o[j] == out[k + j]);
                if i > 0 {
                    assert(o[i] == out[k + i]);
                }
            }
        } else {
            assert(o[i] == out[k + i] && o[j] == out[k + j]);
        }
    }
    assert forall|i: int| 0 <= i < o.len() implies {
        &&& (#[trigger] o[i]).wf()
        &&& o[i].full()
        &&& o[i].epoch == m.epoch
        &&& o[i].seq < m.next_seq
    } by {
        if kept_v.len() > 0 && kept_v[0].seq == seq {
            let a = spec_ack(kept_v[0], m.epoch, seq, last_index);
            if a.all_acked() {
                assert(o[i] == out[k + i + 1]);
            } else if i > 0 {
                assert(o[i] == out[k + i]);
            } else {
                assert(out[k] == kept_v[0]);
            }
        } else {
            assert(o[i] == out[k + i]);
        }
    }
}

/// Placing received bytes keeps the incoming managers in order and keeps the
/// chain below any bound that the message's number does not fall under.
pub(crate) proof fn lemma_upsert_ok(
    inc: Seq<SliceView>,
    epoch: u64,
    bound: u64,
    seq: u64,
    first_index: u64,
    seq_len: u64,
    data: Seq<u8>,
)
    requires
        incoming_ok(inc, epoch),
        chain_below(inc, bound),
        bound <= seq,
    ensures
        incoming_ok(spec_upsert(inc, epoch, seq, first_index, seq_len, data), epoch),
        chain_below(spec_upsert(inc, epoch, seq, first_index, seq_len, data), bound),
        prefix_below(spec_upsert(inc, epoch, seq, first_index, seq_len, data), seq) == prefix_below(
            inc,
            seq,
        ),
        ({
            let u = spec_upsert(inc, epoch, seq, first_index, seq_len, data);
            let p = prefix_below(inc, seq) as int;
            p < u.len() && u[p].seq == seq
        }),
{
    lemma_prefix_below(inc, seq);
    lemma_prefix_below(inc, bound);
    let p = prefix_below(inc, seq) as int;
    let u = spec_upsert(inc, epoch, seq, first_index, seq_len, data);
    if p < inc.len() && inc[p].seq == seq {
        assert(u.len() == inc.len());
        assert forall|i: int| 0 <= i < u.len() implies #[trigger] u[i].seq == inc[i].seq by {}
        assert(sorted_seqs(u));
        assert(chain_below(u, bound));
        assert(incoming_ok(u, epoch));
    } else {
        assert(u.len() == inc.len() + 1);
        assert forall|i: int| 0 <= i < u.len() implies (#[trigger] u[i]).seq == if i < p {
            inc[i].seq
        } else if i == p {
            seq
        } else {
            inc[i - 1].seq
        } by {}
        assert forall|i: int, j: int| 0 <= i < j < u.len() implies u[i].seq < u[j].seq by {
            if j < p {
            } else if j == p {
            } else if i == p {
                assert(inc[j - 1].seq >= seq);
            } else if i < p {
                assert(inc[j - 1].seq >= seq);
            } else {
            }
        }
        assert forall|i: int| 0 <= i < u.len() implies {
            &&& (#[trigger] u[i]).wf()
            &&& u[i].epoch == epoch
        } by {
            if i < p {
                assert(u[i] == inc[i]);
            } else if i > p {
                assert(u[i] == inc[i - 1]);
            }
        }
        assert forall|i: int| 0 <= i < u.len() && (#[trigger] u[i]).seq < bound implies {
            &&& u[i].full()
            &&& (u[i].seq + 1 == bound || (i + 1 < u.len() && u[i + 1].seq == u[i].seq + 1))
        } by {
            assert(i < p);
            assert(u[i] == inc[i]);
            if i + 1 < p {
                assert(u[i + 1] == inc[i + 1]);
            } else {
                if i + 1 < inc.len() && inc[i + 1].seq == inc[i].seq + 1 {
                    assert(inc[i + 1].seq >= seq);
                }
            }
        }
    }
    lemma_prefix_below(u, seq);
    if prefix_below(u, seq) < p {
        assert(u[prefix_below(u, seq) as int].seq >= seq);
    }
    if prefix_below(u, seq) > p {
        assert(u[p].seq < seq);
    }
}

/// Walking the complete messages from the awaited one moves the acknowledgement
/// forward and keeps the chain below it.
pub(crate) proof fn lemma_advance(s: Seq<SliceView>, epoch: u64, i: int, ack: (u64, u64))
    requires
        incoming_ok(s, epoch),
        chain_below(s, ack.0),
        0 <= i <= s.len(),
        i == prefix_below(s, ack.0),
    ensures
        chain_below(s, advance_from(s, i, ack).0),
        advance_from(s, i, ack).0 >= ack.0,
    decreases s.len() - i,
{
    lemma_prefix_below(s, ack.0);
    if i < s.len() && s[i].seq == ack.0 && s[i].full() && s[i].seq < u64::MAX {
        let next: (u64, u64) = ((s[i].seq + 1) as u64, 0);
        assert forall|j: int| 0 <= j < s.len() && (#[trigger] s[j]).seq < next.0 implies {
            &&& s[j].full()
            &&& (s[j].seq + 1 == next.0 || (j + 1 < s.len() && s[j + 1].seq == s[j].seq + 1))
        } by {
            if j < i {
                assert(s[j].seq < ack.0);
                if s[j].seq + 1 == ack.0 {
                    assert(s[j + 1].seq <= s[i].seq);
                    assert(s[j + 1].seq > s[j].seq);
                }
            } else if j > i {
                assert(s[j].seq > s[i].seq);
            }
        }
        lemma_prefix_below(s, next.0);
        if prefix_below(s, next.0) < i + 1 {
            assert(s[prefix_below(s, next.0) as int].seq >= next.0);
        }
        if prefix_below(s, next.0) > i + 1 {
            assert(s[i + 1].seq < next.0);
        }
        lemma_advance(s, epoch, i + 1, next);
    }
}

/// The managers below the bound of the chain are numbered consecutively up to
/// just before it.
pub(crate) proof fn lemma_chain_numbers(s: Seq<SliceView>, bound: u64)
    requires
        sorted_seqs(s),
        chain_below(s, bound),
    ensures
        forall|i: int|
            0 <= i < prefix_below(s, bound) ==> #[trigger] s[i].seq == bound - prefix_below(s, bound)
                + i,
{
    lemma_prefix_below(s, bound);
    let k = prefix_below(s, bound) as int;
    assert forall|i: int| 0 <= i < k implies #[trigger] s[i].seq == bound - k + i by {
        lemma_chain_numbers_from(s, bound, i);
    }
}

proof fn lemma_chain_numbers_from(s: Seq<SliceView>, bound: u64, i: int)
    requires
        sorted_seqs(s),
        chain_below(s, bound),
        0 <= i < prefix_below(s, bound),
    ensures
        s[i].seq == bound - prefix_below(s, bound) + i,
    decreases prefix_below(s, bound) - i,
{
    lemma_prefix_below(s, bound);
    let k = prefix_below(s, bound) as int;
    if i + 1 < k {
        lemma_chain_numbers_from(s, bound, i + 1);
        assert(s[i + 1].seq < bound);
        assert(s[i].seq < s[i + 1].seq);
    } else {
        if i + 1 < s.len() && s[i + 1].seq == s[i].seq + 1 {
            assert(s[i + 1].seq >= bound);
        }
    }
}

impl MessageManager {
    /// A manager for `epoch` with nothing sent or received.
    pub fn new(epoch: Epoch) -> (r: MessageManager)
        ensures
            r@.wf(),
            r@.epoch == epoch@,
            r@.outgoing == Seq::<SliceView>::empty(),
            r@.incoming == Seq::<SliceView>::empty(),
            r@.next_seq == 0,
            r@.last_ack == (0u64, 0u64),
    {
        let r = MessageManager {
            epoch,
            outgoing_slices: Vec::new(),
            next_seq: 0,
            incoming_slices: Vec::new(),
            last_ack: (0, 0),
        };
        assert(r@.outgoing =~= Seq::<SliceView>::empty());
        assert(r@.incoming =~= Seq::<SliceView>::empty());
        r
    }

    /// The next sequence number to be assigned.
    pub fn next_seq(&self) -> (r: u64)
        ensures
            r == self@.next_seq,
    {
        self.next_seq
    }

    /// The epoch of this manager.
    pub fn epoch(&self) -> (r: Epoch)
        ensures
            r@ == self@.epoch,
    {
        self.epoch
    }

    /// Queues `data` to be sent as the next message; returns its sequence
    /// number.
    pub fn insert_msg(&mut self, data: Vec<u8>) -> (seq: u64)
        requires
            old(self)@.wf(),
            old(self)@.next_seq < u64::MAX,
        ensures
            final(self)@.wf(),
            seq == old(self)@.next_seq,
            final(self)@.next_seq == seq + 1,
            final(self)@.outgoing == old(self)@.outgoing.push(
                SliceView { epoch: old(self)@.epoch, seq, seq_len: data@.len() as u64, data: data@, acked: 0 },
            ),
            final(self)@.incoming == old(self)@.incoming,
            final(self)@.last_ack == old(self)@.last_ack,
            final(self)@.epoch == old(self)@.epoch,
            final(self)@ == mm_insert(old(self)@, data@),
    {
        let seq = self.next_seq;
        self.next_seq = self.next_seq + 1;
        let slice_mgr = SliceManager::from_vec(self.epoch, seq, data);
        self.outgoing_slices.push(slice_mgr);
        assert(views(self.outgoing_slices@) =~= views(old(self).outgoing_slices@).push(slice_mgr@));
        seq
    }

    /// The outgoing message with sequence number `seq`, if it is still held.
    pub fn get_outgoing_slice(&self, seq: u64) -> (r: Option<&SliceManager>)
        requires
            self@.wf(),
        ensures
            r is Some <==> exists|i: int| 0 <= i < self@.outgoing.len() && #[trigger] self@.outgoing[i].seq == seq,
            r matches Some(m) ==> m@.seq == seq && self@.outgoing.contains(m@),
    {
        let mut i: usize = 0;
        while i < self.outgoing_slices.len()
            invariant
                0 <= i <= self.outgoing_slices@.len(),
                forall|j: int| 0 <= j < i ==> #[trigger] self@.outgoing[j].seq != seq,
            decreases self.outgoing_slices@.len() - i,
        {
            assert(self@.outgoing[i as int] == self.outgoing_slices@[i as int]@);
            if self.outgoing_slices[i].seq() == seq {
                return Some(&self.outgoing_slices[i]);
            }
            i = i + 1;
        }
        None
    }

    /// The outgoing messages still held, in sequence order.
    pub fn get_outgoing_slices(&self) -> (r: &[SliceManager])
        ensures
            views(r@) == self@.outgoing,
    {
        self.outgoing_slices.as_slice()
    }

    /// Takes in an acknowledgement (sequence number, acknowledged position):
    /// every earlier message is dropped, and the acknowledged message records
    /// the position, being dropped once it is all acknowledged.
    pub fn recv_ack(&mut self, ack: (u64, u64))
        requires
            old(self)@.wf(),
        ensures
            final(self)@.wf(),
            final(self)@.outgoing == spec_recv_ack(old(self)@.outgoing, old(self)@.epoch, ack.0, ack.1),
            final(self)@.incoming == old(self)@.incoming,
            final(self)@.last_ack == old(self)@.last_ack,
            final(self)@.next_seq == old(self)@.next_seq,
            final(self)@.epoch == old(self)@.epoch,
            final(self)@ == mm_ack(old(self)@, ack),
    {
        let (seq, last_index) = ack;
        let ghost out = self@.outgoing;
        let k = find_prefix_below(&self.outgoing_slices, seq);
        proof {
            lemma_prefix_below(out, seq);
        }
        let mut kept = self.outgoing_slices.split_off(k);
        self.outgoing_slices = kept;
        let ghost kept_v = out.skip(k as int);
        assert(views(self.outgoing_slices@) =~= kept_v);
        if self.outgoing_slices.len() > 0 && self.outgoing_slices[0].seq() == seq {
            assert(kept_v[0] == self.outgoing_slices@[0]@);
            let mut first = self.outgoing_slices.remove(0);
            first.ack(self.epoch, seq, last_index);
            if !first.is_empty() {
                self.outgoing_slices.insert(0, first);
                assert(views(self.outgoing_slices@) =~= kept_v.update(0, first@));
            } else {
                assert(views(self.outgoing_slices@) =~= kept_v.drop_first());
            }
        }
        proof {
            lemma_recv_ack_wf(old(self)@, seq, last_index);
        }
    }

    /// Whether incoming data can still add to what has been acknowledged.
    pub fn recv_in_range(&self, seq: u64, first_index: u64, seq_len: u64) -> (r: bool)
        ensures
            r == spec_in_range(self@.last_ack, seq, first_index, seq_len),
    {
        if seq < self.last_ack.0 {
            return false;
        }
        if seq > self.last_ack.0 {
            return true;
        }
        if first_index > u64::MAX - seq_len {
            return true;
        }
        first_index + seq_len > self.last_ack.1
    }

    /// Takes in the bytes `data` received at `first_index` of message `seq`
    /// (`seq_len` bytes long) and moves the acknowledgement over every message
    /// that is now complete.
    ///
    /// Returns whether the acknowledgement moved because of these bytes.
    /// Bytes that were all acknowledged already change nothing.
    pub fn recv(&mut self, seq: u64, first_index: u64, seq_len: u64, data: Vec<u8>) -> (r: bool)
        requires
            old(self)@.wf(),
        ensures
            final(self)@.wf(),
            final(self)@.outgoing == old(self)@.outgoing,
            final(self)@.next_seq == old(self)@.next_seq,
            final(self)@.epoch == old(self)@.epoch,
            final(self)@.last_ack.0 >= old(self)@.last_ack.0,
            (final(self)@, r) == mm_recv(old(self)@, seq, first_index, seq_len, data@),
            !spec_in_range(old(self)@.last_ack, seq, first_index, seq_len) ==> !r && final(self)@
                == old(self)@,
            spec_in_range(old(self)@.last_ack, seq, first_index, seq_len) ==> {
                let u = spec_upsert(old(self)@.incoming, old(self)@.epoch, seq, first_index, seq_len, data@);
                &&& final(self)@.incoming == u
                &&& seq > old(self)@.last_ack.0 ==> !r && final(self)@.last_ack == old(self)@.last_ack
                &&& seq <= old(self)@.last_ack.0 ==> {
                    &&& final(self)@.last_ack == advance_from(u, prefix_below(u, seq) as int, old(self)@.last_ack)
                    &&& r == (final(self)@.last_ack != old(self)@.last_ack)
                }
            },
    {
        if !self.recv_in_range(seq, first_index, seq_len) {
            return false;
        }
        let ghost m = self@;
        let ghost u = spec_upsert(m.incoming, m.epoch, seq, first_index, seq_len, data@);
        proof {
            lemma_upsert_ok(m.incoming, m.epoch, m.last_ack.0, seq, first_index, seq_len, data@);
        }
        let p = find_prefix_below(&self.incoming_slices, seq);
        if p < self.incoming_slices.len() && self.incoming_slices[p].seq() == seq {
            assert(m.incoming[p as int] == self.incoming_slices@[p as int]@);
            let mut entry = self.incoming_slices.remove(p);
            entry.recv_slice(self.epoch, seq, first_index, data);
            self.incoming_slices.insert(p, entry);
            assert(views(self.incoming_slices@) =~= u);
        } else {
            if p < self.incoming_slices.len() {
                assert(m.incoming[p as int] == self.incoming_slices@[p as int]@);
            }
            let mut entry = SliceManager::new(self.epoch, seq, seq_len);
            entry.recv_slice(self.epoch, seq, first_index, data);
            self.incoming_slices.insert(p, entry);
            assert(views(self.incoming_slices@) =~= u);
        }
        if seq > self.last_ack.0 {
            return false;
        }
        let old_ack = self.last_ack;
        let ghost target = advance_from(u, p as int, old_ack);
        proof {
            lemma_prefix_below(m.incoming, seq);
            lemma_prefix_below(m.incoming, m.last_ack.0);
            assert(prefix_below(u, old_ack.0) == p);
            lemma_advance(u, m.epoch, p as int, old_ack);
        }
        let mut i = p;
        let mut done = false;
        while !done && i < self.incoming_slices.len()
            invariant
                views(self.incoming_slices@) == u,
                incoming_ok(u, m.epoch),
                p <= i <= u.len(),
                done ==> self.last_ack == target,
                !done ==> advance_from(u, i as int, self.last_ack) == target,
                self.epoch@ == m.epoch,
                views(self.outgoing_slices@) == m.outgoing,
                self.next_seq == m.next_seq,
            decreases u.len() - i + if done {
                0int
            } else {
                1int
            },
        {
            let entry = &self.incoming_slices[i];
            assert(u[i as int] == entry@);
            if entry.seq() != self.last_ack.0 {
                done = true;
            } else if entry.is_full() && entry.seq() < u64::MAX {
                self.last_ack = (entry.seq() + 1, 0);
                i = i + 1;
            } else {
                let offset = match entry.last_head_index() {
                    Some(o) => o,
                    None => 0,
                };
                self.last_ack = (entry.seq(), offset);
                done = true;
            }
        }
        assert(self.last_ack == target);
        self.last_ack.0 != old_ack.0 || self.last_ack.1 != old_ack.1
    }

    /// Removes and returns the messages that are complete and acknowledged:
    /// those numbered below the acknowledged sequence number, which are
    /// consecutive and end just before it. None is returned twice.
    pub fn take_recvd(&mut self) -> (r: Vec<Vec<u8>>)
        requires
            old(self)@.wf(),
        ensures
            final(self)@.wf(),
            ({
                let k = prefix_below(old(self)@.incoming, old(self)@.last_ack.0);
                &&& r@.len() == k
                &&& forall|i: int| 0 <= i < k ==> (#[trigger] r@[i])@ == old(self)@.incoming[i].data
                &&& forall|i: int|
                    0 <= i < k ==> #[trigger] old(self)@.incoming[i].seq == old(self)@.last_ack.0 - k + i
                &&& final(self)@.incoming == old(self)@.incoming.skip(k as int)
            }),
            forall|i: int|
                0 <= i < final(self)@.incoming.len() ==> #[trigger] final(self)@.incoming[i].seq
                    >= final(self)@.last_ack.0,
            final(self)@.outgoing == old(self)@.outgoing,
            final(self)@.next_seq == old(self)@.next_seq,
            final(self)@.last_ack == old(self)@.last_ack,
            final(self)@.epoch == old(self)@.epoch,
            final(self)@ == mm_take(old(self)@).0,
            bytes_views(r@) == mm_take(old(self)@).1,
    {
        let ghost m = self@;
        let k = find_prefix_below(&self.incoming_slices, self.last_ack.0);
        proof {
            lemma_prefix_below(m.incoming, m.last_ack.0);
            lemma_chain_numbers(m.incoming, m.last_ack.0);
        }
        let mut taken = self.incoming_slices.split_off(k);
        std::mem::swap(&mut taken, &mut self.incoming_slices);
        assert(views(self.incoming_slices@) =~= m.incoming.skip(k as int));
        assert(views(taken@) =~= m.incoming.take(k as int));
        let mut ret: Vec<Vec<u8>> = Vec::new();
        while taken.len() > 0
            invariant
                ret@.len() + taken@.len() == k,
                k <= m.incoming.len(),
                views(taken@) =~= m.incoming.subrange(ret@.len() as int, k as int),
                forall|i: int| 0 <= i < ret@.len() ==> (#[trigger] ret@[i])@ == m.incoming[i].data,
                forall|i: int| 0 <= i < k ==> (#[trigger] m.incoming[i]).full(),
            decreases taken@.len(),
        {
            let ghost n: int = ret@.len() as int;
            assert(views(taken@)[0] == taken@[0]@);
            let ghost before = taken@;
            let entry = taken.remove(0);
            assert(views(taken@) =~= views(before).drop_first());
            let bytes = entry.into_data();
            ret.push(bytes);
            assert(views(taken@) =~= m.incoming.subrange(n + 1, k as int));
        }
        proof {
            let s = self@.incoming;
            assert forall|i: int, j: int| 0 <= i < j < s.len() implies s[i].seq < s[j].seq by {
                assert(s[i] == m.incoming[k + i] && s[j] == m.incoming[k + j]);
            }
            assert forall|i: int| 0 <= i < s.len() implies #[trigger] s[i].seq >= m.last_ack.0 by {
                assert(s[i] == m.incoming[k + i]);
            }
            assert forall|i: int| 0 <= i < s.len() implies {
                &&& (#[trigger] s[i]).wf()
                &&& s[i].epoch == m.epoch
            } by {
                assert(s[i] == m.incoming[k + i]);
            }
            assert(bytes_views(ret@) =~= mm_take(m).1);
        }
        ret
    }

    /// The last (sequence number, position) acknowledged.
    pub fn last_ack(&self) -> (r: (u64, u64))
        ensures
            r == self@.last_ack,
    {
        self.last_ack
    }
}

} // verus!
