use vstd::prelude::*;

use crate::message_manager::{
    advance_from, chain_below, incoming_ok, lemma_advance, lemma_chain_numbers,
    lemma_prefix_below, lemma_upsert_ok, mm_ack, mm_recv, mm_take, prefix_below, sorted_seqs,
    spec_in_range, spec_upsert, MessageView,
};
use crate::protocol::ProtocolView;
use crate::slice_manager::{chunks_from, spec_ack, spec_recv_slice, spec_slices, SliceView};

verus! {

/// An acknowledgement never drops a message that it does not cover: every
/// outgoing message numbered after the acknowledged one is kept unchanged,
/// to be sent again, and no message numbered before it is kept.
pub proof fn law_ack_keeps_unacknowledged(m: MessageView, ack: (u64, u64))
    requires
        m.wf(),
    ensures
        forall|i: int|
            0 <= i < m.outgoing.len() && #[trigger] m.outgoing[i].seq > ack.0 ==> mm_ack(
                m,
                ack,
            ).outgoing.contains(m.outgoing[i]),
        forall|j: int|
            0 <= j < mm_ack(m, ack).outgoing.len() ==> #[trigger] mm_ack(m, ack).outgoing[j].seq
                >= ack.0,
{
    let out = m.outgoing;
    let p = prefix_below(out, ack.0) as int;
    lemma_prefix_below(out, ack.0);
    let kept = out.skip(p);
    let after = mm_ack(m, ack).outgoing;
    assert forall|i: int| 0 <= i < out.len() && #[trigger] out[i].seq > ack.0 implies after.contains(
        out[i],
    ) by {
        assert(i >= p);
        assert(kept[i - p] == out[i]);
        if kept.len() > 0 && kept[0].seq == ack.0 {
            assert(i - p >= 1);
            let a = spec_ack(kept[0], m.epoch, ack.0, ack.1);
            if a.all_acked() {
                assert(after[i - p - 1] == out[i]);
            } else {
                assert(after[i - p] == out[i]);
            }
        } else {
            assert(after[i - p] == out[i]);
        }
    }
    assert forall|j: int| 0 <= j < after.len() implies #[trigger] after[j].seq >= ack.0 by {
        if kept.len() > 0 && kept[0].seq == ack.0 {
            let a = spec_ack(kept[0], m.epoch, ack.0, ack.1);
            if a.all_acked() {
                assert(after[j] == out[p + j + 1]);
            } else if j > 0 {
                assert(after[j] == out[p + j]);
            }
        } else {
            assert(after[j] == out[p + j]);
        }
    }
}

/// Messages are handed out once: taking again right after a take hands out
/// nothing and changes nothing.
pub proof fn law_take_once(m: MessageView)
    requires
        m.wf(),
    ensures
        mm_take(mm_take(m).0).1 == Seq::<Seq<u8>>::empty(),
        mm_take(mm_take(m).0).0 == mm_take(m).0,
{
    let k = prefix_below(m.incoming, m.last_ack.0) as int;
    lemma_prefix_below(m.incoming, m.last_ack.0);
    let rest = m.incoming.skip(k);
    assert(sorted_seqs(rest)) by {
        assert forall|i: int, j: int| 0 <= i < j < rest.len() implies rest[i].seq < rest[j].seq by {
            assert(rest[i] == m.incoming[k + i] && rest[j] == m.incoming[k + j]);
        }
    }
    if rest.len() > 0 {
        assert(rest[0] == m.incoming[k]);
    }
    assert(prefix_below(rest, m.last_ack.0) == 0);
    assert(rest.take(0).map_values(|v: crate::slice_manager::SliceView| v.data) =~= Seq::<
        Seq<u8>,
    >::empty());
    assert(rest.skip(0) =~= rest);
}

/// A receiver that waits for the start of a message and holds nothing else
/// hands the message out whole once one frame brings all of it: the frame is
/// acknowledged, and the message is what the next take hands out.
pub proof fn law_whole_message_delivered(m: MessageView, data: Seq<u8>)
    requires
        m.wf(),
        m.incoming.len() == 0,
        m.last_ack.1 == 0,
        m.last_ack.0 < u64::MAX,
        0 < data.len() <= u64::MAX,
    ensures
        mm_recv(m, m.last_ack.0, 0, data.len() as u64, data).1,
        mm_recv(m, m.last_ack.0, 0, data.len() as u64, data).0.last_ack == (
            (m.last_ack.0 + 1) as u64,
            0u64,
        ),
        mm_take(mm_recv(m, m.last_ack.0, 0, data.len() as u64, data).0).1 == seq![data],
{
    let s = m.last_ack.0;
    let len = data.len() as u64;
    let r = mm_recv(m, s, 0, len, data);
    let fresh = crate::slice_manager::SliceView {
        epoch: m.epoch,
        seq: s,
        seq_len: len,
        data: Seq::empty(),
        acked: 0,
    };
    let v = crate::slice_manager::spec_recv_slice(fresh, m.epoch, s, 0, data);
    assert(v.data =~= data);
    assert(prefix_below(m.incoming, s) == 0);
    let u = crate::message_manager::spec_upsert(m.incoming, m.epoch, s, 0, len, data);
    assert(u =~= seq![v]);
    assert(prefix_below(u, s) == 0);
    assert(crate::message_manager::advance_from(u, 1, ((s + 1) as u64, 0u64)) == ((s + 1) as u64, 0u64));
    assert(crate::message_manager::advance_from(u, 0, m.last_ack) == ((s + 1) as u64, 0u64));
    assert(r.0.incoming == u);
    assert(prefix_below(u.drop_first(), (s + 1) as u64) == 0);
    assert(prefix_below(u, (s + 1) as u64) == 1);
    assert(u.take(1).map_values(|w: crate::slice_manager::SliceView| w.data) =~= seq![data]);
}

/// Receiving frames in order, each slice as [crate::message_manager::MessageManager::recv]
/// takes it in; other frames leave the manager as it is.
pub open spec fn mm_recv_all(m: MessageView, frames: Seq<ProtocolView>) -> MessageView
    decreases frames.len(),
{
    if frames.len() == 0 {
        m
    } else {
        let next = match frames[0] {
            ProtocolView::MsgSlice { seq, seq_len, first_index, data, .. } => mm_recv(
                m,
                seq,
                first_index,
                seq_len,
                data,
            ).0,
            _ => m,
        };
        mm_recv_all(next, frames.drop_first())
    }
}

/// The receiver partway through message `sender.seq`: it holds the first
/// `first` bytes and has acknowledged them.
pub open spec fn receiving(m: MessageView, sender: SliceView, first: nat) -> MessageView {
    MessageView {
        incoming: if first == 0 {
            Seq::empty()
        } else {
            seq![
                SliceView {
                    epoch: m.epoch,
                    seq: sender.seq,
                    seq_len: sender.seq_len,
                    data: sender.data.take(first as int),
                    acked: 0,
                },
            ]
        },
        last_ack: (sender.seq, first as u64),
        ..m
    }
}

/// The receiver once message `sender.seq` arrived whole.
pub open spec fn received(m: MessageView, sender: SliceView) -> MessageView {
    MessageView {
        incoming: seq![
            SliceView {
                epoch: m.epoch,
                seq: sender.seq,
                seq_len: sender.seq_len,
                data: sender.data,
                acked: 0,
            },
        ],
        last_ack: ((sender.seq + 1) as u64, 0u64),
        ..m
    }
}

proof fn lemma_receive_rest(m: MessageView, sender: SliceView, size: nat, first: nat)
    requires
        sender.wf(),
        sender.full(),
        0 < sender.data.len(),
        sender.seq < u64::MAX,
        size > 0,
        first < sender.data.len(),
    ensures
        mm_recv_all(receiving(m, sender, first), chunks_from(sender, size, first)) == received(
            m,
            sender,
        ),
    decreases sender.data.len() - first,
{
    let n = sender.data.len();
    let s = sender.seq;
    let end: nat = if first + size < n {
        first + size
    } else {
        n
    };
    let chunk = sender.data.subrange(first as int, end as int);
    let frames = chunks_from(sender, size, first);
    assert(frames[0] == ProtocolView::MsgSlice {
        epoch: sender.epoch,
        seq: s,
        seq_len: sender.seq_len,
        first_index: first as u64,
        data: chunk,
    });
    assert(frames.drop_first() =~= chunks_from(sender, size, end));
    let r = receiving(m, sender, first);
    let fresh = SliceView {
        epoch: m.epoch,
        seq: s,
        seq_len: sender.seq_len,
        data: Seq::empty(),
        acked: 0,
    };
    let old_entry = if first == 0 {
        fresh
    } else {
        r.incoming[0]
    };
    let new_entry = spec_recv_slice(old_entry, m.epoch, s, first as u64, chunk);
    assert(new_entry.data =~= sender.data.take(end as int));
    let u = spec_upsert(r.incoming, m.epoch, s, first as u64, sender.seq_len, chunk);
    assert(prefix_below(r.incoming, s) == 0);
    assert(u =~= seq![new_entry]);
    assert(prefix_below(u, s) == 0);
    let next = mm_recv(r, s, first as u64, sender.seq_len, chunk).0;
    assert(frames.len() > 0);
    assert(mm_recv_all(r, frames) == mm_recv_all(next, frames.drop_first()));
    if end < n {
        assert(advance_from(u, 0, r.last_ack) == (s, end as u64));
        assert(next =~= receiving(m, sender, end));
        lemma_receive_rest(m, sender, size, end);
    } else {
        assert(advance_from(u, 1, ((s + 1) as u64, 0u64)) == ((s + 1) as u64, 0u64));
        assert(advance_from(u, 0, r.last_ack) == ((s + 1) as u64, 0u64));
        assert(sender.data.take(n as int) =~= sender.data);
        assert(next =~= received(m, sender));
        assert(chunks_from(sender, size, end) =~= Seq::<ProtocolView>::empty());
        assert(mm_recv_all(next, frames.drop_first()) == next);
    }
}

/// Messages arrive whole whatever the slicing: a receiver that waits for
/// the start of a message and holds nothing else, given in order the frames
/// that carry the message in chunks of any size, acknowledges all of it and
/// hands out exactly the message.
pub proof fn law_message_delivered(m: MessageView, sender: SliceView, size: nat)
    requires
        m.incoming.len() == 0,
        m.last_ack == (sender.seq, 0u64),
        sender.seq < u64::MAX,
        sender.wf(),
        sender.full(),
        sender.acked == 0,
        0 < sender.data.len(),
        size > 0,
    ensures
        mm_recv_all(m, spec_slices(sender, size)).last_ack == ((sender.seq + 1) as u64, 0u64),
        mm_take(mm_recv_all(m, spec_slices(sender, size))).1 == seq![sender.data],
{
    assert(receiving(m, sender, 0) =~= m);
    lemma_receive_rest(m, sender, size, 0);
    let f = received(m, sender);
    let s = sender.seq;
    assert(prefix_below(f.incoming.drop_first(), (s + 1) as u64) == 0);
    assert(prefix_below(f.incoming, (s + 1) as u64) == 1);
    assert(f.incoming.take(1).map_values(|w: SliceView| w.data) =~= seq![sender.data]);
}

/// A frame that carries bytes of one of the messages `msgs` as the sender
/// slices them: message `seq`'s bytes from `first_index` on, with the
/// message's length.
pub open spec fn frame_of(msgs: Seq<Seq<u8>>, f: ProtocolView) -> bool {
    match f {
        ProtocolView::MsgSlice { seq, seq_len, first_index, data, .. } => {
            &&& seq < msgs.len()
            &&& seq_len == msgs[seq as int].len()
            &&& first_index + data.len() <= msgs[seq as int].len()
            &&& data == msgs[seq as int].subrange(
                first_index as int,
                first_index + data.len(),
            )
        },
        _ => false,
    }
}

/// A slice frame of the given epoch.
pub open spec fn slice_in_epoch(f: ProtocolView, epoch: u64) -> bool {
    match f {
        ProtocolView::MsgSlice { epoch: e, .. } => e == epoch,
        _ => false,
    }
}

/// Receiving frames one by one as the link set does, each slice taken in and
/// then the complete messages handed out: the manager afterwards, and all
/// that was handed out, in order. Other frames change nothing.
pub open spec fn deliver(m: MessageView, frames: Seq<ProtocolView>) -> (MessageView, Seq<Seq<u8>>)
    decreases frames.len(),
{
    if frames.len() == 0 {
        (m, Seq::empty())
    } else {
        let (m2, out) = match frames[0] {
            ProtocolView::MsgSlice { seq, seq_len, first_index, data, .. } => mm_take(
                mm_recv(m, seq, first_index, seq_len, data).0,
            ),
            _ => (m, Seq::empty()),
        };
        let (m3, rest) = deliver(m2, frames.drop_first());
        (m3, out + rest)
    }
}

/// The fields of a slice frame: its message number, the message's length,
/// its first position and its bytes.
pub open spec fn slice_fields(f: ProtocolView) -> (u64, u64, u64, Seq<u8>) {
    match f {
        ProtocolView::MsgSlice { seq, seq_len, first_index, data, .. } => (
            seq,
            seq_len,
            first_index,
            data,
        ),
        _ => (0, 0, 0, Seq::empty()),
    }
}

/// The held bytes of every incoming message are a prefix of the message of
/// `msgs` with its number, whose length it records.
pub open spec fn content_ok(inc: Seq<SliceView>, msgs: Seq<Seq<u8>>) -> bool {
    forall|i: int|
        0 <= i < inc.len() ==> {
            &&& (#[trigger] inc[i]).seq < msgs.len()
            &&& inc[i].seq_len == msgs[inc[i].seq as int].len()
            &&& inc[i].data == msgs[inc[i].seq as int].take(inc[i].data.len() as int)
        }
}

/// The receiver between frames: well formed, holding only parts of `msgs`
/// from the acknowledged one on, having handed out exactly the messages
/// before it.
#[verifier::opaque]
pub open spec fn delivery_inv(m: MessageView, msgs: Seq<Seq<u8>>, handed: Seq<Seq<u8>>) -> bool {
    &&& m.wf()
    &&& forall|i: int| 0 <= i < m.incoming.len() ==> #[trigger] m.incoming[i].seq >= m.last_ack.0
    &&& content_ok(m.incoming, msgs)
    &&& m.last_ack.0 <= msgs.len()
    &&& handed == msgs.take(m.last_ack.0 as int)
}

/// Walking from the awaited message moves the acknowledgement over exactly
/// as many consecutive messages as it passes.
proof fn lemma_advance_count(s: Seq<SliceView>, i: int, ack: (u64, u64))
    requires
        sorted_seqs(s),
        0 <= i <= s.len(),
        i == prefix_below(s, ack.0),
    ensures
        advance_from(s, i, ack).0 >= ack.0,
        prefix_below(s, advance_from(s, i, ack).0) == i + (advance_from(s, i, ack).0 - ack.0),
    decreases s.len() - i,
{
    lemma_prefix_below(s, ack.0);
    if i < s.len() && s[i].seq == ack.0 && s[i].full() && s[i].seq < u64::MAX {
        let next: (u64, u64) = ((s[i].seq + 1) as u64, 0);
        lemma_prefix_below(s, next.0);
        let q = prefix_below(s, next.0) as int;
        if q < i + 1 {
            assert(s[q].seq >= next.0);
            if q < i {
                assert(s[q].seq < ack.0);
            }
        }
        if q > i + 1 {
            assert(s[i + 1].seq < next.0);
            assert(s[i + 1].seq > s[i].seq);
        }
        lemma_advance_count(s, i + 1, next);
    }
}

/// Taking in a frame of the messages keeps every held part a prefix of its
/// message.
proof fn lemma_upsert_content(m: MessageView, msgs: Seq<Seq<u8>>, f: ProtocolView)
    requires
        m.wf(),
        content_ok(m.incoming, msgs),
        frame_of(msgs, f),
    ensures
        ({
            let (seq, seq_len, first_index, data) = slice_fields(f);
            content_ok(spec_upsert(m.incoming, m.epoch, seq, first_index, seq_len, data), msgs)
        }),
{
    let (seq, seq_len, first_index, data) = slice_fields(f);
    let inc = m.incoming;
    let msg = msgs[seq as int];
    let u = spec_upsert(inc, m.epoch, seq, first_index, seq_len, data);
    lemma_prefix_below(inc, seq);
    let p = prefix_below(inc, seq) as int;
    let fresh = SliceView { epoch: m.epoch, seq, seq_len, data: Seq::empty(), acked: 0 };
    let old_v = if p < inc.len() && inc[p].seq == seq {
        inc[p]
    } else {
        fresh
    };
    let v = spec_recv_slice(old_v, m.epoch, seq, first_index, data);
    assert(old_v.seq == seq && old_v.seq_len == msg.len());
    assert(old_v.data == msg.take(old_v.data.len() as int));
    assert(v.data == msg.take(v.data.len() as int)) by {
        let d = old_v.data.len();
        let end = if old_v.seq_len < first_index + data.len() {
            old_v.seq_len as int
        } else {
            first_index + data.len()
        };
        if !(m.epoch != old_v.epoch || seq != old_v.seq || first_index > d || end <= d) {
            assert(v.data =~= msg.take(end));
        }
    }
    assert forall|i: int| 0 <= i < u.len() implies {
        &&& (#[trigger] u[i]).seq < msgs.len()
        &&& u[i].seq_len == msgs[u[i].seq as int].len()
        &&& u[i].data == msgs[u[i].seq as int].take(u[i].data.len() as int)
    } by {
        if p < inc.len() && inc[p].seq == seq {
            if i != p {
                assert(u[i] == inc[i]);
            } else {
                assert(u[i] == v);
            }
        } else {
            if i < p {
                assert(u[i] == inc[i]);
            } else if i == p {
                assert(u[i] == v);
            } else {
                assert(u[i] == inc[i - 1]);
            }
        }
    }
}

/// What taking in one frame does to a receiver in the delivery invariant:
/// it stays well formed, its parts stay prefixes of their messages, none
/// falls below the old acknowledgement, and the messages below the new one
/// are exactly the ones it moved over.
#[verifier::opaque]
pub open spec fn recv_step_ok(m: MessageView, m1: MessageView, msgs: Seq<Seq<u8>>) -> bool {
    &&& m1.wf()
    &&& m1.epoch == m.epoch
    &&& m1.outgoing == m.outgoing
    &&& m1.next_seq == m.next_seq
    &&& content_ok(m1.incoming, msgs)
    &&& m1.last_ack.0 >= m.last_ack.0
    &&& forall|i: int| 0 <= i < m1.incoming.len() ==> #[trigger] m1.incoming[i].seq >= m.last_ack.0
    &&& prefix_below(m1.incoming, m1.last_ack.0) == m1.last_ack.0 - m.last_ack.0
}

proof fn lemma_recv_step(m: MessageView, msgs: Seq<Seq<u8>>, handed: Seq<Seq<u8>>, f: ProtocolView)
    requires
        delivery_inv(m, msgs, handed),
        msgs.len() < u64::MAX,
        frame_of(msgs, f),
    ensures
        ({
            let (seq, seq_len, first_index, data) = slice_fields(f);
            recv_step_ok(m, mm_recv(m, seq, first_index, seq_len, data).0, msgs)
        }),
{
    reveal(delivery_inv);
    reveal(recv_step_ok);
    let (seq, seq_len, first_index, data) = slice_fields(f);
    let a0 = m.last_ack.0;
    let m1 = mm_recv(m, seq, first_index, seq_len, data).0;
    lemma_prefix_below(m.incoming, a0);
    if m.incoming.len() > 0 && prefix_below(m.incoming, a0) > 0 {
        assert(m.incoming[0].seq >= a0);
    }
    if !spec_in_range(m.last_ack, seq, first_index, seq_len) {
        assert(m1 == m);
    } else {
        lemma_upsert_ok(m.incoming, m.epoch, a0, seq, first_index, seq_len, data);
        lemma_upsert_content(m, msgs, f);
        let u = spec_upsert(m.incoming, m.epoch, seq, first_index, seq_len, data);
        lemma_prefix_below(m.incoming, seq);
        assert forall|i: int| 0 <= i < u.len() implies #[trigger] u[i].seq >= a0 by {
            let p = prefix_below(m.incoming, seq) as int;
            if p < m.incoming.len() && m.incoming[p].seq == seq {
                assert(u[i].seq == m.incoming[i].seq);
            } else if i < p {
                assert(u[i] == m.incoming[i]);
            } else if i > p {
                assert(u[i] == m.incoming[i - 1]);
            }
        }
        lemma_prefix_below(u, a0);
        if u.len() > 0 && prefix_below(u, a0) > 0 {
            assert(u[0].seq < a0);
        }
        if seq > a0 {
            assert(m1.incoming == u && m1.last_ack == m.last_ack);
        } else {
            assert(prefix_below(u, seq) == 0);
            lemma_advance(u, m.epoch, 0, m.last_ack);
            lemma_advance_count(u, 0, m.last_ack);
            assert(m1.incoming == u);
            assert(m1.last_ack == advance_from(u, 0, m.last_ack));
        }
    }
}

#[verifier::spinoff_prover]
#[verifier::rlimit(60)]
proof fn lemma_take_step(m: MessageView, m1: MessageView, msgs: Seq<Seq<u8>>, handed: Seq<Seq<u8>>)
    requires
        delivery_inv(m, msgs, handed),
        recv_step_ok(m, m1, msgs),
    ensures
        delivery_inv(mm_take(m1).0, msgs, handed + mm_take(m1).1),
{
    reveal(delivery_inv);
    reveal(recv_step_ok);
    let a0 = m.last_ack.0;
    let (m2, out) = mm_take(m1);
    let a1 = m1.last_ack.0;
    let inc = m1.incoming;
    let k = prefix_below(inc, a1) as int;
    lemma_prefix_below(inc, a1);
    lemma_chain_numbers(inc, a1);
    assert forall|j: int| 0 <= j < k implies #[trigger] inc[j].data == msgs[a0 + j] by {
        assert(inc[j].seq == a1 - k + j);
        assert(inc[j].full());
        let msg = msgs[inc[j].seq as int];
        assert(msg.take(msg.len() as int) =~= msg);
    }
    if k > 0 {
        assert(inc[k - 1].seq < msgs.len());
    }
    assert(out =~= msgs.subrange(a0 as int, a1 as int));
    assert(handed + out =~= msgs.take(a1 as int));
    let rest = inc.skip(k);
    assert forall|i: int| 0 <= i < rest.len() implies #[trigger] rest[i].seq >= a1 by {
        assert(rest[i] == inc[k + i]);
    }
    assert(content_ok(rest, msgs)) by {
        assert forall|i: int| 0 <= i < rest.len() implies {
            &&& (#[trigger] rest[i]).seq < msgs.len()
            &&& rest[i].seq_len == msgs[rest[i].seq as int].len()
            &&& rest[i].data == msgs[rest[i].seq as int].take(rest[i].data.len() as int)
        } by {
            assert(rest[i] == inc[k + i]);
        }
    }
    assert(m2.wf()) by {
        assert forall|i: int, j: int| 0 <= i < j < rest.len() implies rest[i].seq < rest[j].seq by {
            assert(rest[i] == inc[k + i] && rest[j] == inc[k + j]);
        }
        assert forall|i: int| 0 <= i < rest.len() implies {
            &&& (#[trigger] rest[i]).wf()
            &&& rest[i].epoch == m1.epoch
        } by {
            assert(rest[i] == inc[k + i]);
        }
    }
}

proof fn lemma_deliver(m: MessageView, msgs: Seq<Seq<u8>>, handed: Seq<Seq<u8>>, frames: Seq<ProtocolView>)
    requires
        delivery_inv(m, msgs, handed),
        msgs.len() < u64::MAX,
        forall|i: int| 0 <= i < frames.len() ==> #[trigger] frame_of(msgs, frames[i]),
    ensures
        delivery_inv(deliver(m, frames).0, msgs, handed + deliver(m, frames).1),
    decreases frames.len(),
{
    if frames.len() > 0 {
        let f = frames[0];
        assert(frame_of(msgs, f));
        let (seq, seq_len, first_index, data) = slice_fields(f);
        let m1 = mm_recv(m, seq, first_index, seq_len, data).0;
        let (m2, out) = mm_take(m1);
        lemma_recv_step(m, msgs, handed, f);
        lemma_take_step(m, m1, msgs, handed);
        let rest = frames.drop_first();
        assert forall|i: int| 0 <= i < rest.len() implies #[trigger] frame_of(msgs, rest[i]) by {
            assert(rest[i] == frames[i + 1]);
        }
        lemma_deliver(m2, msgs, handed + out, rest);
        assert(handed + out + deliver(m2, rest).1 =~= handed + (out + deliver(m2, rest).1));
    } else {
        assert(handed + Seq::<Seq<u8>>::empty() =~= handed);
    }
}

/// Messages are handed out in order, each once, none skipped: whatever slices
/// of the sent messages arrive, in whatever order, repeated or not, a fresh
/// receiver hands out, over all its takes, exactly the messages before its
/// acknowledgement, in sequence order.
pub proof fn law_in_order_delivery(m: MessageView, msgs: Seq<Seq<u8>>, frames: Seq<ProtocolView>)
    requires
        m.wf(),
        m.incoming.len() == 0,
        m.last_ack.0 == 0,
        msgs.len() < u64::MAX,
        forall|i: int| 0 <= i < frames.len() ==> #[trigger] frame_of(msgs, frames[i]),
    ensures
        deliver(m, frames).0.last_ack.0 <= msgs.len(),
        deliver(m, frames).1 == msgs.take(deliver(m, frames).0.last_ack.0 as int),
{
    reveal(delivery_inv);
    assert(Seq::<Seq<u8>>::empty() =~= msgs.take(0));
    lemma_deliver(m, msgs, Seq::empty(), frames);
    assert(Seq::<Seq<u8>>::empty() + deliver(m, frames).1 =~= deliver(m, frames).1);
    reveal(delivery_inv);
}

/// The bytes held of message `i`: those of the incoming entry numbered `i`,
/// none where there is no such entry.
pub open spec fn held(inc: Seq<SliceView>, i: int) -> int {
    if exists|j: int| 0 <= j < inc.len() && inc[j].seq == i {
        inc[choose|j: int| 0 <= j < inc.len() && inc[j].seq == i].data.len() as int
    } else {
        0
    }
}

/// How much of message `i` the receiver has: all of it once it is below
/// the acknowledgement, else what it holds.
pub open spec fn progress(m: MessageView, msgs: Seq<Seq<u8>>, i: int) -> int {
    if i < m.last_ack.0 {
        msgs[i].len() as int
    } else {
        held(m.incoming, i)
    }
}

/// The acknowledgement points at the first message not held whole: the entry
/// it names, if any, is incomplete, and the acknowledged position lies
/// inside that message.
pub open spec fn awaits_incomplete(m: MessageView, msgs: Seq<Seq<u8>>) -> bool {
    &&& forall|j: int|
        0 <= j < m.incoming.len() && #[trigger] m.incoming[j].seq == m.last_ack.0
            ==> !m.incoming[j].full()
    &&& m.last_ack.0 < msgs.len() ==> m.last_ack.1 < msgs[m.last_ack.0 as int].len()
}

/// Every message is non-empty and its length fits a `u64`.
pub open spec fn all_nonempty(msgs: Seq<Seq<u8>>) -> bool {
    forall|i: int| 0 <= i < msgs.len() ==> 0 < (#[trigger] msgs[i]).len() <= u64::MAX
}

proof fn lemma_held_at(inc: Seq<SliceView>, j: int)
    requires
        sorted_seqs(inc),
        0 <= j < inc.len(),
    ensures
        held(inc, inc[j].seq as int) == inc[j].data.len(),
{
    let i = inc[j].seq as int;
    assert(exists|k: int| 0 <= k < inc.len() && inc[k].seq == i);
    let c = choose|k: int| 0 <= k < inc.len() && inc[k].seq == i;
    if c < j {
        assert(inc[c].seq < inc[j].seq);
    }
    if c > j {
        assert(inc[j].seq < inc[c].seq);
    }
}

proof fn lemma_held_absent(inc: Seq<SliceView>, i: int)
    requires
        forall|j: int| 0 <= j < inc.len() ==> #[trigger] inc[j].seq != i,
    ensures
        held(inc, i) == 0,
{
}

/// Where the walk from the awaited message stops: the entry numbered as the
/// result, if any, is incomplete (but for message `u64::MAX`, which has no
/// next one); a walk that moved stops at position zero of the next message or
/// at the received prefix of the entry it names.
proof fn lemma_advance_stop(s: Seq<SliceView>, i: int, ack: (u64, u64))
    requires
        sorted_seqs(s),
        forall|j: int| 0 <= j < s.len() ==> (#[trigger] s[j]).wf(),
        0 <= i <= s.len(),
        i == prefix_below(s, ack.0),
    ensures
        ({
            let a = advance_from(s, i, ack);
            &&& forall|j: int|
                0 <= j < s.len() && #[trigger] s[j].seq == a.0 && a != ack && a.0 < u64::MAX
                    ==> !s[j].full()
            &&& a != ack ==> (a.1 == 0 || exists|j: int|
                0 <= j < s.len() && s[j].seq == a.0 && a.1 == s[j].data.len() && (a.0 < u64::MAX
                    ==> !s[j].full()))
            &&& a == ack || a.0 > ack.0 || (i < s.len() && s[i].seq == ack.0 && a == (
                s[i].seq,
                s[i].data.len() as u64,
            ) && (!s[i].full() || s[i].seq == u64::MAX))
            &&& a == ack ==> (i >= s.len() || s[i].seq != ack.0 || !s[i].full() || s[i].seq
                == u64::MAX)
        }),
    decreases s.len() - i,
{
    lemma_prefix_below(s, ack.0);
    let a = advance_from(s, i, ack);
    if i < s.len() && s[i].seq == ack.0 {
        if s[i].full() && s[i].seq < u64::MAX {
            let next: (u64, u64) = ((s[i].seq + 1) as u64, 0);
            lemma_prefix_below(s, next.0);
            let q = prefix_below(s, next.0) as int;
            if q < i + 1 {
                assert(s[q].seq >= next.0);
                if q < i {
                    assert(s[q].seq < ack.0);
                }
            }
            if q > i + 1 {
                assert(s[i + 1].seq < next.0);
                assert(s[i + 1].seq > s[i].seq);
            }
            lemma_advance_stop(s, i + 1, next);
            lemma_advance_count(s, i + 1, next);
            assert(a == advance_from(s, i + 1, next));
            assert(a.0 >= next.0);
            assert forall|j: int| 0 <= j < s.len() && #[trigger] s[j].seq == a.0 && a != ack
                && a.0 < u64::MAX implies !s[j].full() by {
                if a == next {
                    // the walk stopped right after s[i]: nothing numbered next is complete
                    if s[j].full() {
                        assert(j > i);
                        if j > i + 1 {
                            assert(s[i + 1].seq < s[j].seq);
                            assert(s[i + 1].seq > s[i].seq);
                        }
                        assert(j == i + 1);
                    }
                }
            }
        } else {
            assert(a == (s[i].seq, s[i].data.len() as u64));
        }
    }
}

/// Placing a frame's bytes never loses held bytes; the frame's message then
/// holds at least up to the frame's end where its held bytes reached the
/// frame's start; every other entry is one that was there before.
proof fn lemma_upsert_held(m: MessageView, msgs: Seq<Seq<u8>>, f: ProtocolView)
    requires
        m.wf(),
        content_ok(m.incoming, msgs),
        frame_of(msgs, f),
        msgs.len() < u64::MAX,
        slice_fields(f).0 >= m.last_ack.0,
    ensures
        ({
            let (seq, seq_len, first_index, data) = slice_fields(f);
            let inc = m.incoming;
            let u = spec_upsert(inc, m.epoch, seq, first_index, seq_len, data);
            &&& forall|i: int| held(u, i) >= held(inc, i)
            &&& first_index <= held(inc, seq as int) ==> held(u, seq as int) >= first_index + data.len()
            &&& forall|j: int|
                0 <= j < u.len() && #[trigger] u[j].seq != seq ==> exists|k: int|
                    0 <= k < inc.len() && inc[k] == u[j]
        }),
{
    let (seq, seq_len, first_index, data) = slice_fields(f);
    let inc = m.incoming;
    let msg = msgs[seq as int];
    lemma_upsert_ok(inc, m.epoch, m.last_ack.0, seq, first_index, seq_len, data);
    lemma_upsert_grows(inc, m.epoch, m.last_ack.0, seq, first_index, seq_len, data);
    let u = spec_upsert(inc, m.epoch, seq, first_index, seq_len, data);
    lemma_prefix_below(inc, seq);
    let p = prefix_below(inc, seq) as int;
    let present = p < inc.len() && inc[p].seq == seq;
    let fresh = SliceView { epoch: m.epoch, seq, seq_len, data: Seq::empty(), acked: 0 };
    let old_v = if present {
        inc[p]
    } else {
        fresh
    };
    let v = spec_recv_slice(old_v, m.epoch, seq, first_index, data);
    assert(u[p] == v);
    if present {
        lemma_held_at(inc, p);
    } else {
        assert forall|j: int| 0 <= j < inc.len() implies #[trigger] inc[j].seq != seq by {
            if j < p {
                assert(inc[j].seq < seq);
            } else if j > p {
                assert(inc[j].seq > inc[p].seq);
            }
        }
        lemma_held_absent(inc, seq as int);
    }
    lemma_held_at(u, p);
    assert(first_index <= held(inc, seq as int) ==> v.data.len() >= first_index + data.len()) by {
        assert(old_v.seq_len == msg.len());
    }
}

/// Taking in one frame keeps the receiver awaiting an incomplete message,
/// loses nothing of any message, and brings the frame's message up to the
/// frame's end where it held bytes up to the frame's start.
proof fn lemma_recv_live(m: MessageView, msgs: Seq<Seq<u8>>, handed: Seq<Seq<u8>>, f: ProtocolView)
    requires
        delivery_inv(m, msgs, handed),
        awaits_incomplete(m, msgs),
        all_nonempty(msgs),
        msgs.len() < u64::MAX,
        frame_of(msgs, f),
    ensures
        ({
            let (seq, seq_len, first_index, data) = slice_fields(f);
            let m1 = mm_recv(m, seq, first_index, seq_len, data).0;
            &&& awaits_incomplete(m1, msgs)
            &&& forall|i: int| 0 <= i < msgs.len() ==> progress(m1, msgs, i) >= progress(m, msgs, i)
            &&& first_index <= progress(m, msgs, seq as int) ==> progress(m1, msgs, seq as int)
                >= first_index + data.len()
        }),
{
    reveal(delivery_inv);
    lemma_recv_step(m, msgs, handed, f);
    reveal(recv_step_ok);
    let (seq, seq_len, first_index, data) = slice_fields(f);
    let a0 = m.last_ack.0;
    let inc = m.incoming;
    let m1 = mm_recv(m, seq, first_index, seq_len, data).0;
    assert forall|i: int| 0 <= i < msgs.len() implies held(inc, i) <= msgs[i].len() by {
        if exists|j: int| 0 <= j < inc.len() && inc[j].seq == i {
            let j = choose|j: int| 0 <= j < inc.len() && inc[j].seq == i;
            lemma_held_at(inc, j);
            assert(inc[j].wf());
        }
    }
    if !spec_in_range(m.last_ack, seq, first_index, seq_len) {
        assert(m1 == m);
        assert(msgs[seq as int].len() > 0);
    } else {
        lemma_upsert_held(m, msgs, f);
        let u = spec_upsert(inc, m.epoch, seq, first_index, seq_len, data);
        lemma_upsert_ok(inc, m.epoch, a0, seq, first_index, seq_len, data);
        if seq > a0 {
            assert(m1.incoming == u && m1.last_ack == m.last_ack);
            assert forall|j: int|
                0 <= j < u.len() && #[trigger] u[j].seq == m1.last_ack.0 implies !u[j].full() by {
                let k = choose|k: int| 0 <= k < inc.len() && inc[k] == u[j];
                assert(inc[k].seq == a0);
            }
        } else {
            lemma_prefix_below(inc, seq);
            lemma_prefix_below(u, a0);
            if u.len() > 0 && prefix_below(u, a0) > 0 {
                assert(u[0].seq < a0);
            }
            assert(prefix_below(u, seq) == 0);
            lemma_advance_stop(u, 0, m.last_ack);
            lemma_advance_count(u, 0, m.last_ack);
            let a1 = advance_from(u, 0, m.last_ack);
            assert(m1.incoming == u && m1.last_ack == a1);
            assert(u[0].seq == seq);
            if a1 == m.last_ack {
                assert(!u[0].full());
                assert forall|j: int|
                    0 <= j < u.len() && #[trigger] u[j].seq == a1.0 implies !u[j].full() by {
                    if j > 0 {
                        assert(u[0].seq < u[j].seq);
                    }
                }
            } else {
                if a1.1 != 0 {
                    let j = choose|j: int|
                        0 <= j < u.len() && u[j].seq == a1.0 && a1.1 == u[j].data.len() && !u[j].full();
                    assert(u[j].seq_len == msgs[u[j].seq as int].len());
                }
            }
        }
    }
}

/// Handing out the complete messages changes no message's progress and
/// keeps the receiver awaiting an incomplete message.
proof fn lemma_take_live(m1: MessageView, msgs: Seq<Seq<u8>>)
    requires
        m1.wf(),
        awaits_incomplete(m1, msgs),
    ensures
        awaits_incomplete(mm_take(m1).0, msgs),
        forall|i: int| progress(mm_take(m1).0, msgs, i) == progress(m1, msgs, i),
{
    let a1 = m1.last_ack.0;
    let inc = m1.incoming;
    let k = prefix_below(inc, a1) as int;
    lemma_prefix_below(inc, a1);
    let rest = inc.skip(k);
    let m2 = mm_take(m1).0;
    assert(m2.incoming == rest && m2.last_ack == m1.last_ack);
    assert(sorted_seqs(rest)) by {
        assert forall|i: int, j: int| 0 <= i < j < rest.len() implies rest[i].seq < rest[j].seq by {
            assert(rest[i] == inc[k + i] && rest[j] == inc[k + j]);
        }
    }
    assert forall|j: int| 0 <= j < rest.len() && #[trigger] rest[j].seq == a1 implies !rest[j].full() by {
        assert(rest[j] == inc[k + j]);
    }
    assert forall|i: int| progress(m2, msgs, i) == progress(m1, msgs, i) by {
        if i >= a1 {
            if exists|j: int| 0 <= j < inc.len() && inc[j].seq == i {
                let j = choose|j: int| 0 <= j < inc.len() && inc[j].seq == i;
                lemma_held_at(inc, j);
                assert(j >= k);
                assert(rest[j - k] == inc[j]);
                lemma_held_at(rest, j - k);
            } else {
                assert forall|j: int| 0 <= j < rest.len() implies #[trigger] rest[j].seq != i by {
                    assert(rest[j] == inc[k + j]);
                }
                lemma_held_absent(rest, i);
            }
        }
    }
}

proof fn lemma_deliver_live(m: MessageView, msgs: Seq<Seq<u8>>, handed: Seq<Seq<u8>>, frames: Seq<ProtocolView>)
    requires
        delivery_inv(m, msgs, handed),
        awaits_incomplete(m, msgs),
        all_nonempty(msgs),
        msgs.len() < u64::MAX,
        forall|i: int| 0 <= i < frames.len() ==> #[trigger] frame_of(msgs, frames[i]),
    ensures
        awaits_incomplete(deliver(m, frames).0, msgs),
        forall|i: int|
            0 <= i < msgs.len() ==> progress(deliver(m, frames).0, msgs, i) >= progress(m, msgs, i),
    decreases frames.len(),
{
    if frames.len() > 0 {
        let f = frames[0];
        assert(frame_of(msgs, f));
        let (seq, seq_len, first_index, data) = slice_fields(f);
        let m1 = mm_recv(m, seq, first_index, seq_len, data).0;
        let (m2, out) = mm_take(m1);
        lemma_recv_step(m, msgs, handed, f);
        lemma_take_step(m, m1, msgs, handed);
        lemma_recv_live(m, msgs, handed, f);
        reveal(recv_step_ok);
        lemma_take_live(m1, msgs);
        let rest = frames.drop_first();
        assert forall|i: int| 0 <= i < rest.len() implies #[trigger] frame_of(msgs, rest[i]) by {
            assert(rest[i] == frames[i + 1]);
        }
        lemma_deliver_live(m2, msgs, handed + out, rest);
        assert(deliver(m, frames).0 == deliver(m2, rest).0);
    }
}

/// Receiving frames `a` and then frames `b` is receiving `a + b`.
proof fn lemma_deliver_concat(m: MessageView, a: Seq<ProtocolView>, b: Seq<ProtocolView>)
    ensures
        deliver(m, a + b).0 == deliver(deliver(m, a).0, b).0,
        deliver(m, a + b).1 == deliver(m, a).1 + deliver(deliver(m, a).0, b).1,
    decreases a.len(),
{
    if a.len() == 0 {
        assert(a + b =~= b);
        assert(Seq::<Seq<u8>>::empty() + deliver(m, b).1 =~= deliver(m, b).1);
    } else {
        assert((a + b).drop_first() =~= a.drop_first() + b);
        assert((a + b)[0] == a[0]);
        let (m2, out) = match a[0] {
            ProtocolView::MsgSlice { seq, seq_len, first_index, data, .. } => mm_take(
                mm_recv(m, seq, first_index, seq_len, data).0,
            ),
            _ => (m, Seq::empty()),
        };
        lemma_deliver_concat(m2, a.drop_first(), b);
        let d = deliver(deliver(m2, a.drop_first()).0, b).1;
        assert(out + (deliver(m2, a.drop_first()).1 + d) =~= (out + deliver(m2, a.drop_first()).1) + d);
    }
}

/// Message `i` of `msgs` as its sender holds it in `epoch`, nothing of it
/// acknowledged.
pub open spec fn sent_view(msgs: Seq<Seq<u8>>, epoch: u64, i: int) -> SliceView {
    SliceView { epoch, seq: i as u64, seq_len: msgs[i].len() as u64, data: msgs[i], acked: 0 }
}

/// The frames that send messages `0..n` again, whole and in order, in chunks
/// of at most `size` bytes, as the sender does for what was not acknowledged.
pub open spec fn resend(msgs: Seq<Seq<u8>>, epoch: u64, size: nat, n: nat) -> Seq<ProtocolView>
    decreases n,
{
    if n == 0 {
        Seq::empty()
    } else {
        resend(msgs, epoch, size, (n - 1) as nat) + spec_slices(sent_view(msgs, epoch, n - 1), size)
    }
}

proof fn lemma_chunks_are_frames(msgs: Seq<Seq<u8>>, epoch: u64, i: int, size: nat, first: nat)
    requires
        0 <= i < msgs.len(),
        msgs.len() < u64::MAX,
        all_nonempty(msgs),
    ensures
        forall|k: int|
            0 <= k < chunks_from(sent_view(msgs, epoch, i), size, first).len() ==> #[trigger] frame_of(
                msgs,
                chunks_from(sent_view(msgs, epoch, i), size, first)[k],
            ),
        forall|k: int|
            0 <= k < chunks_from(sent_view(msgs, epoch, i), size, first).len() ==> slice_in_epoch(
                #[trigger] chunks_from(sent_view(msgs, epoch, i), size, first)[k],
                epoch,
            ),
    decreases msgs[i].len() - first,
{
    let v = sent_view(msgs, epoch, i);
    let c = chunks_from(v, size, first);
    assert(msgs[i].len() <= u64::MAX);
    if !(size == 0 || first >= v.data.len()) {
        let end = if first + size < v.data.len() {
            first + size
        } else {
            v.data.len()
        };
        lemma_chunks_are_frames(msgs, epoch, i, size, end);
        assert forall|k: int| 0 <= k < c.len() implies #[trigger] frame_of(msgs, c[k]) by {
            if k > 0 {
                assert(c[k] == chunks_from(v, size, end)[k - 1]);
            } else {
                assert(v.data.subrange(first as int, end as int).len() == end - first);
            }
        }
        assert forall|k: int| 0 <= k < c.len() implies slice_in_epoch(#[trigger] c[k], epoch) by {
            if k > 0 {
                assert(c[k] == chunks_from(v, size, end)[k - 1]);
            }
        }
    }
}

/// The frames of a resend are slices of the messages, of the epoch they are
/// sent in.
pub proof fn lemma_resend_frames(msgs: Seq<Seq<u8>>, epoch: u64, size: nat, n: nat)
    requires
        n <= msgs.len(),
        msgs.len() < u64::MAX,
        all_nonempty(msgs),
    ensures
        forall|k: int|
            0 <= k < resend(msgs, epoch, size, n).len() ==> #[trigger] frame_of(
                msgs,
                resend(msgs, epoch, size, n)[k],
            ),
        forall|k: int|
            0 <= k < resend(msgs, epoch, size, n).len() ==> slice_in_epoch(
                #[trigger] resend(msgs, epoch, size, n)[k],
                epoch,
            ),
    decreases n,
{
    if n > 0 {
        let a = resend(msgs, epoch, size, (n - 1) as nat);
        let v = sent_view(msgs, epoch, n - 1);
        let b = spec_slices(v, size);
        assert(b == chunks_from(v, size, 0));
        let r = resend(msgs, epoch, size, n);
        assert(r == a + b);
        lemma_resend_frames(msgs, epoch, size, (n - 1) as nat);
        lemma_chunks_are_frames(msgs, epoch, n - 1, size, 0);
        assert forall|k: int| 0 <= k < r.len() implies #[trigger] frame_of(msgs, r[k]) && slice_in_epoch(
            r[k],
            epoch,
        ) by {
            if k < a.len() {
                assert(r[k] == a[k]);
            } else {
                assert(r[k] == b[k - a.len()]);
            }
        }
    }
}

/// Receiving a message's chunks from `first` on, where the receiver has the
/// message up to `first`, leaves it with all of the message and loses
/// nothing of the others.
proof fn lemma_chunks_complete(
    m: MessageView,
    msgs: Seq<Seq<u8>>,
    handed: Seq<Seq<u8>>,
    epoch: u64,
    i: int,
    size: nat,
    first: nat,
)
    requires
        delivery_inv(m, msgs, handed),
        awaits_incomplete(m, msgs),
        all_nonempty(msgs),
        msgs.len() < u64::MAX,
        0 <= i < msgs.len(),
        size > 0,
        first <= progress(m, msgs, i),
        first <= msgs[i].len(),
    ensures
        ({
            let d = deliver(m, chunks_from(sent_view(msgs, epoch, i), size, first));
            &&& delivery_inv(d.0, msgs, handed + d.1)
            &&& awaits_incomplete(d.0, msgs)
            &&& progress(d.0, msgs, i) >= msgs[i].len()
            &&& forall|j: int| 0 <= j < msgs.len() ==> progress(d.0, msgs, j) >= progress(m, msgs, j)
        }),
    decreases msgs[i].len() - first,
{
    let v = sent_view(msgs, epoch, i);
    let c = chunks_from(v, size, first);
    lemma_chunks_are_frames(msgs, epoch, i, size, first);
    lemma_deliver(m, msgs, handed, c);
    lemma_deliver_live(m, msgs, handed, c);
    if first < v.data.len() {
        let end = if first + size < v.data.len() {
            first + size
        } else {
            v.data.len()
        };
        let f = c[0];
        assert(frame_of(msgs, f));
        let (seq, seq_len, first_index, data) = slice_fields(f);
        assert(seq == i && first_index == first && data.len() == end - first);
        let m1 = mm_recv(m, seq, first_index, seq_len, data).0;
        let (m2, out) = mm_take(m1);
        lemma_recv_step(m, msgs, handed, f);
        lemma_take_step(m, m1, msgs, handed);
        lemma_recv_live(m, msgs, handed, f);
        reveal(recv_step_ok);
        lemma_take_live(m1, msgs);
        assert(c.drop_first() =~= chunks_from(v, size, end));
        lemma_chunks_complete(m2, msgs, handed + out, epoch, i, size, end);
        assert(deliver(m, c).0 == deliver(m2, c.drop_first()).0);
        assert(deliver(m, c).1 == out + deliver(m2, c.drop_first()).1);
        assert(handed + out + deliver(m2, c.drop_first()).1 =~= handed + deliver(m, c).1);
    }
}

proof fn lemma_resend(
    m: MessageView,
    msgs: Seq<Seq<u8>>,
    handed: Seq<Seq<u8>>,
    epoch: u64,
    size: nat,
    n: nat,
)
    requires
        delivery_inv(m, msgs, handed),
        awaits_incomplete(m, msgs),
        all_nonempty(msgs),
        msgs.len() < u64::MAX,
        n <= msgs.len(),
        size > 0,
    ensures
        ({
            let d = deliver(m, resend(msgs, epoch, size, n));
            &&& delivery_inv(d.0, msgs, handed + d.1)
            &&& awaits_incomplete(d.0, msgs)
            &&& forall|j: int| 0 <= j < n ==> progress(d.0, msgs, j) >= msgs[j].len()
        }),
    decreases n,
{
    if n == 0 {
        assert(deliver(m, Seq::empty()).1 =~= Seq::<Seq<u8>>::empty());
        assert(handed + Seq::<Seq<u8>>::empty() =~= handed);
    } else {
        let a = resend(msgs, epoch, size, (n - 1) as nat);
        let v = sent_view(msgs, epoch, n - 1);
        let b = spec_slices(v, size);
        assert(b == chunks_from(v, size, 0));
        assert(resend(msgs, epoch, size, n) == a + b);
        lemma_resend(m, msgs, handed, epoch, size, (n - 1) as nat);
        let d1 = deliver(m, a);
        lemma_deliver_concat(m, a, b);
        let i = n - 1;
        lemma_chunks_complete(d1.0, msgs, handed + d1.1, epoch, i, size, 0);
        let d2 = deliver(d1.0, b);
        let d = deliver(m, a + b);
        assert(d.0 == d2.0);
        assert(d.1 == d1.1 + d2.1);
        assert(handed + d1.1 + d2.1 =~= handed + d.1);
        assert forall|j: int| 0 <= j < n implies progress(d.0, msgs, j) >= msgs[j].len() by {
            if j < i {
                assert(progress(d1.0, msgs, j) >= msgs[j].len());
                assert(progress(d2.0, msgs, j) >= progress(d1.0, msgs, j));
            }
        }
    }
}

/// With the acknowledgement awaiting an incomplete message, a receiver that
/// has all of messages `0..n` has acknowledged past them.
proof fn lemma_complete_acknowledged(m: MessageView, msgs: Seq<Seq<u8>>, n: nat)
    requires
        m.wf(),
        content_ok(m.incoming, msgs),
        awaits_incomplete(m, msgs),
        all_nonempty(msgs),
        n <= msgs.len(),
        forall|j: int| 0 <= j < n ==> progress(m, msgs, j) >= msgs[j].len(),
    ensures
        m.last_ack.0 >= n,
{
    let a = m.last_ack.0 as int;
    if a < n {
        assert(progress(m, msgs, a) >= msgs[a].len());
        assert(msgs[a].len() > 0);
        let inc = m.incoming;
        if exists|j: int| 0 <= j < inc.len() && inc[j].seq == a {
            let j = choose|j: int| 0 <= j < inc.len() && inc[j].seq == a;
            lemma_held_at(inc, j);
            assert(inc[j].wf());
            assert(inc[j].full());
            assert(false);
        }
    }
}

/// Messages are handed out whatever the links did before: whatever slices
/// arrived earlier, lost, reordered or repeated, once the sender sends
/// messages `0..n` again, whole and in order, as it does for what is not
/// acknowledged, a receiver that started fresh has handed out all of them,
/// in sequence order, each once.
pub proof fn law_resent_messages_delivered(
    m: MessageView,
    msgs: Seq<Seq<u8>>,
    earlier: Seq<ProtocolView>,
    epoch: u64,
    size: nat,
    n: nat,
)
    requires
        m.wf(),
        m.incoming.len() == 0,
        m.last_ack == (0u64, 0u64),
        msgs.len() < u64::MAX,
        all_nonempty(msgs),
        n <= msgs.len(),
        size > 0,
        forall|i: int| 0 <= i < earlier.len() ==> #[trigger] frame_of(msgs, earlier[i]),
    ensures
        ({
            let d = deliver(m, earlier + resend(msgs, epoch, size, n));
            &&& d.0.last_ack.0 >= n
            &&& d.1 == msgs.take(d.0.last_ack.0 as int)
            &&& d.1.take(n as int) == msgs.take(n as int)
        }),
{
    reveal(delivery_inv);
    assert(Seq::<Seq<u8>>::empty() =~= msgs.take(0));
    assert(delivery_inv(m, msgs, Seq::empty()));
    if msgs.len() > 0 {
        assert(msgs[0].len() > 0);
    }
    assert(awaits_incomplete(m, msgs));
    lemma_deliver(m, msgs, Seq::empty(), earlier);
    lemma_deliver_live(m, msgs, Seq::empty(), earlier);
    let d1 = deliver(m, earlier);
    assert(Seq::<Seq<u8>>::empty() + d1.1 =~= d1.1);
    lemma_resend(d1.0, msgs, d1.1, epoch, size, n);
    lemma_deliver_concat(m, earlier, resend(msgs, epoch, size, n));
    let d = deliver(m, earlier + resend(msgs, epoch, size, n));
    reveal(delivery_inv);
    lemma_complete_acknowledged(d.0, msgs, n);
    assert(d.1.take(n as int) =~= msgs.take(n as int));
}

/// Placing bytes of message `seq` never loses held bytes of any message and
/// leaves every other message's held bytes as they were; every entry of
/// another message is one that was there before.
proof fn lemma_upsert_grows(
    inc: Seq<SliceView>,
    epoch: u64,
    bound: u64,
    seq: u64,
    first_index: u64,
    seq_len: u64,
    data: Seq<u8>,
)
    requires
        incoming_ok(inc, epoch),
        chain_below(inc, bound),
        bound <= seq,
    ensures
        ({
            let u = spec_upsert(inc, epoch, seq, first_index, seq_len, data);
            &&& forall|i: int| held(u, i) >= held(inc, i)
            &&& forall|i: int| i != seq ==> held(u, i) == held(inc, i)
            &&& forall|j: int|
                0 <= j < u.len() && #[trigger] u[j].seq != seq ==> exists|k: int|
                    0 <= k < inc.len() && inc[k] == u[j]
        }),
{
    lemma_upsert_ok(inc, epoch, bound, seq, first_index, seq_len, data);
    let u = spec_upsert(inc, epoch, seq, first_index, seq_len, data);
    lemma_prefix_below(inc, seq);
    let p = prefix_below(inc, seq) as int;
    let present = p < inc.len() && inc[p].seq == seq;
    let fresh = SliceView { epoch, seq, seq_len, data: Seq::empty(), acked: 0 };
    let old_v = if present {
        inc[p]
    } else {
        fresh
    };
    let v = spec_recv_slice(old_v, epoch, seq, first_index, data);
    assert(u[p] == v);
    if present {
        lemma_held_at(inc, p);
    } else {
        assert forall|j: int| 0 <= j < inc.len() implies #[trigger] inc[j].seq != seq by {
            if j < p {
                assert(inc[j].seq < seq);
            } else if j > p {
                assert(inc[j].seq > inc[p].seq);
            }
        }
        lemma_held_absent(inc, seq as int);
    }
    lemma_held_at(u, p);
    assert forall|j: int| 0 <= j < u.len() && #[trigger] u[j].seq != seq implies exists|k: int|
        0 <= k < inc.len() && inc[k] == u[j] by {
        if present {
            assert(u[j] == inc[j]);
        } else if j < p {
            assert(u[j] == inc[j]);
        } else {
            assert(j != p);
            assert(u[j] == inc[j - 1]);
        }
    }
    assert forall|i: int| held(u, i) >= held(inc, i) && (i != seq ==> held(u, i) == held(inc, i)) by {
        if exists|j: int| 0 <= j < inc.len() && inc[j].seq == i {
            let j = choose|j: int| 0 <= j < inc.len() && inc[j].seq == i;
            lemma_held_at(inc, j);
            if i == seq {
                assert(j == p);
            } else if present {
                assert(u[j] == inc[j]);
                lemma_held_at(u, j);
            } else if j < p {
                assert(u[j] == inc[j]);
                lemma_held_at(u, j);
            } else {
                assert(u[j + 1] == inc[j]);
                lemma_held_at(u, j + 1);
            }
        } else if i != seq {
            assert forall|j: int| 0 <= j < u.len() implies #[trigger] u[j].seq != i by {
                if u[j].seq == i {
                    let k = choose|k: int| 0 <= k < inc.len() && inc[k] == u[j];
                    assert(inc[k].seq == i);
                }
            }
            lemma_held_absent(u, i);
        }
    }
}

/// Where the walk from the awaited message moved the acknowledgement, its
/// offset is what is held of the message it now names.
proof fn lemma_advance_held(s: Seq<SliceView>, i: int, ack: (u64, u64))
    requires
        sorted_seqs(s),
        forall|j: int| 0 <= j < s.len() ==> (#[trigger] s[j]).wf(),
        0 <= i <= s.len(),
        i == prefix_below(s, ack.0),
    ensures
        advance_from(s, i, ack) != ack ==> advance_from(s, i, ack).1 == held(
            s,
            advance_from(s, i, ack).0 as int,
        ),
    decreases s.len() - i,
{
    lemma_prefix_below(s, ack.0);
    let a = advance_from(s, i, ack);
    if i < s.len() && s[i].seq == ack.0 {
        if s[i].full() && s[i].seq < u64::MAX {
            let next: (u64, u64) = ((s[i].seq + 1) as u64, 0);
            lemma_prefix_below(s, next.0);
            let q = prefix_below(s, next.0) as int;
            if q < i + 1 {
                assert(s[q].seq >= next.0);
                if q < i {
                    assert(s[q].seq < ack.0);
                }
            }
            if q > i + 1 {
                assert(s[i + 1].seq < next.0);
                assert(s[i + 1].seq > s[i].seq);
            }
            lemma_advance_held(s, i + 1, next);
            assert(a == advance_from(s, i + 1, next));
            if a == next {
                if i + 1 < s.len() && s[i + 1].seq == next.0 {
                    assert(s[i + 1].wf());
                    if s[i + 1].full() && s[i + 1].seq < u64::MAX {
                        let after: (u64, u64) = ((s[i + 1].seq + 1) as u64, 0);
                        assert(prefix_below(s, after.0) == i + 2) by {
                            lemma_prefix_below(s, after.0);
                            let r = prefix_below(s, after.0) as int;
                            if r < i + 2 {
                                assert(s[r].seq >= after.0);
                                assert(s[r].seq <= s[i + 1].seq);
                            }
                            if r > i + 2 {
                                assert(s[i + 2].seq < after.0);
                                assert(s[i + 2].seq > s[i + 1].seq);
                            }
                        }
                        lemma_advance_count(s, i + 2, after);
                        assert(a == advance_from(s, i + 2, after));
                        assert(false);
                    }
                    assert(a == (s[i + 1].seq, s[i + 1].data.len() as u64));
                    lemma_held_at(s, i + 1);
                } else {
                    assert forall|j: int| 0 <= j < s.len() implies #[trigger] s[j].seq != next.0 by {
                        if j <= i {
                            assert(s[j].seq <= s[i].seq);
                        } else if j > i + 1 {
                            assert(s[j].seq > s[i + 1].seq);
                        }
                    }
                    lemma_held_absent(s, next.0 as int);
                }
            }
        } else {
            assert(s[i].wf());
            lemma_held_at(s, i);
        }
    }
}

/// Acknowledgements in their order: by message number, then by offset.
pub open spec fn ack_not_after(a: (u64, u64), b: (u64, u64)) -> bool {
    a.0 < b.0 || (a.0 == b.0 && a.1 <= b.1)
}

/// The receiver's acknowledgement sits just past what it has in order: every
/// message before it is complete (the manager's invariant), the message it
/// names is not (unless it is message `u64::MAX`, which has no next message
/// to move on to), and its offset is how much of that message is held.
pub open spec fn acks_received_prefix(m: MessageView) -> bool {
    &&& m.wf()
    &&& forall|j: int|
        0 <= j < m.incoming.len() && #[trigger] m.incoming[j].seq == m.last_ack.0 && m.last_ack.0
            < u64::MAX ==> !m.incoming[j].full()
    &&& m.last_ack.1 == held(m.incoming, m.last_ack.0 as int)
}

/// A fresh receiver acknowledges what it has received in order: nothing.
pub proof fn law_fresh_receiver_acks_prefix(m: MessageView)
    requires
        m.wf(),
        m.incoming.len() == 0,
        m.last_ack == (0u64, 0u64),
    ensures
        acks_received_prefix(m),
{
    lemma_held_absent(m.incoming, 0);
}

/// The acknowledgement never moves back and always sits just past what has
/// been received in order: after any received bytes, and after the complete
/// messages are handed out, the acknowledgement is at or after where it was
/// (by message number, then offset), every message before it is complete,
/// the one it names is not, and its offset is what is held of that one. So
/// once a message and all before it are complete, the acknowledgement has
/// moved to the start of the next one; message `u64::MAX`, which has no next
/// one, keeps it at its end.
pub proof fn law_ack_moves_forward(
    m: MessageView,
    seq: u64,
    first_index: u64,
    seq_len: u64,
    data: Seq<u8>,
)
    requires
        acks_received_prefix(m),
    ensures
        acks_received_prefix(mm_recv(m, seq, first_index, seq_len, data).0),
        ack_not_after(m.last_ack, mm_recv(m, seq, first_index, seq_len, data).0.last_ack),
        acks_received_prefix(mm_take(m).0),
        mm_take(m).0.last_ack == m.last_ack,
{
    let ack = m.last_ack;
    let inc = m.incoming;
    let m1 = mm_recv(m, seq, first_index, seq_len, data).0;
    if spec_in_range(ack, seq, first_index, seq_len) {
        lemma_upsert_ok(inc, m.epoch, ack.0, seq, first_index, seq_len, data);
        lemma_upsert_grows(inc, m.epoch, ack.0, seq, first_index, seq_len, data);
        let u = spec_upsert(inc, m.epoch, seq, first_index, seq_len, data);
        if seq > ack.0 {
            assert(m1.incoming == u && m1.last_ack == ack);
            assert forall|j: int| 0 <= j < u.len() && #[trigger] u[j].seq == ack.0 && ack.0 < u64::MAX
                implies !u[j].full() by {
                let k = choose|k: int| 0 <= k < inc.len() && inc[k] == u[j];
                assert(inc[k].seq == ack.0);
            }
        } else {
            lemma_prefix_below(inc, seq);
            let p = prefix_below(inc, seq) as int;
            assert(prefix_below(u, ack.0) == p);
            lemma_advance(u, m.epoch, p, ack);
            lemma_advance_stop(u, p, ack);
            lemma_advance_held(u, p, ack);
            let a = advance_from(u, p, ack);
            assert(m1.incoming == u && m1.last_ack == a);
            assert(u[p].seq == seq);
            lemma_held_at(u, p);
            if a == ack {
                assert(!u[p].full() || u[p].seq == u64::MAX);
                assert forall|j: int| 0 <= j < u.len() && #[trigger] u[j].seq == a.0 && a.0 < u64::MAX
                    implies !u[j].full() by {
                    if j < p {
                        assert(u[j].seq < u[p].seq);
                    } else if j > p {
                        assert(u[p].seq < u[j].seq);
                    }
                }
            } else if a.0 == ack.0 {
                assert(a == (u[p].seq, u[p].data.len() as u64));
                assert forall|j: int| 0 <= j < u.len() && #[trigger] u[j].seq == a.0 && a.0 < u64::MAX
                    implies !u[j].full() by {
                    if j < p {
                        assert(u[j].seq < u[p].seq);
                    } else if j > p {
                        assert(u[p].seq < u[j].seq);
                    }
                }
            }
        }
    }
    let k = prefix_below(inc, ack.0) as int;
    lemma_prefix_below(inc, ack.0);
    let rest = inc.skip(k);
    let m2 = mm_take(m).0;
    assert(m2.incoming == rest && m2.last_ack == ack);
    assert forall|i: int, j: int| 0 <= i < j < rest.len() implies rest[i].seq < rest[j].seq by {
        assert(rest[i] == inc[k + i] && rest[j] == inc[k + j]);
    }
    assert forall|j: int| 0 <= j < rest.len() implies #[trigger] rest[j].seq >= ack.0 && rest[j]
        == inc[k + j] by {
        assert(rest[j] == inc[k + j]);
    }
    assert(incoming_ok(rest, m.epoch));
    assert(chain_below(rest, ack.0));
    if exists|j: int| 0 <= j < inc.len() && inc[j].seq == ack.0 {
        let j = choose|j: int| 0 <= j < inc.len() && inc[j].seq == ack.0;
        lemma_held_at(inc, j);
        assert(j >= k);
        assert(rest[j - k] == inc[j]);
        lemma_held_at(rest, j - k);
    } else {
        assert forall|j: int| 0 <= j < rest.len() implies #[trigger] rest[j].seq != ack.0 by {
            assert(rest[j] == inc[k + j]);
        }
        lemma_held_absent(rest, ack.0 as int);
    }
}

} // verus!
