use vstd::prelude::*;

use crate::message_laws::{
    all_nonempty, deliver, frame_of, law_in_order_delivery, law_resent_messages_delivered,
    lemma_resend_frames, resend, slice_in_epoch,
};
use crate::message_manager::{mm_recv, mm_take, MessageView};
use crate::protocol::ProtocolView;
use crate::state::spec::{decide, decide_followup};
use crate::state::types::{ActionView, Config, EventView, NoticeView, StateView};

verus! {

/// The messages that the notices among `actions` hand to the user, in order.
pub open spec fn delivered(actions: Seq<ActionView>) -> Seq<Seq<u8>>
    decreases actions.len(),
{
    if actions.len() == 0 {
        Seq::empty()
    } else {
        let rest = delivered(actions.drop_first());
        match actions[0] {
            ActionView::Notify(NoticeView::Message(d, _)) => seq![d] + rest,
            _ => rest,
        }
    }
}

/// The core taking in `frames` one by one on link `id`, each decision
/// followed by the check it asks for finding links present: the state
/// afterwards, and all the actions decided, in order.
pub open spec fn run_frames(s: StateView, cfg: Config, id: u64, frames: Seq<ProtocolView>) -> (
    StateView,
    Seq<ActionView>,
)
    decreases frames.len(),
{
    if frames.len() == 0 {
        (s, Seq::empty())
    } else {
        let d = decide(s, cfg, EventView::Link { id, msg: frames[0] });
        let (s2, a2) = match d.step.followup {
            Some(f) => {
                let d2 = decide_followup(d.state, cfg, f, false);
                (d2.state, d.step.actions + d2.step.actions)
            },
            None => (d.state, d.step.actions),
        };
        let (s3, a3) = run_frames(s2, cfg, id, frames.drop_first());
        (s3, a2 + a3)
    }
}

proof fn lemma_delivered_concat(a: Seq<ActionView>, b: Seq<ActionView>)
    ensures
        delivered(a + b) == delivered(a) + delivered(b),
    decreases a.len(),
{
    if a.len() == 0 {
        assert(a + b =~= b);
        assert(Seq::<Seq<u8>>::empty() + delivered(b) =~= delivered(b));
    } else {
        assert((a + b).drop_first() =~= a.drop_first() + b);
        assert((a + b)[0] == a[0]);
        lemma_delivered_concat(a.drop_first(), b);
        let r = delivered(a.drop_first());
        match a[0] {
            ActionView::Notify(NoticeView::Message(d, _)) => {
                assert(seq![d] + (r + delivered(b)) =~= seq![d] + r + delivered(b));
            },
            _ => {},
        }
    }
}

proof fn lemma_delivered_notices(msgs: Seq<Seq<u8>>, epoch: u64)
    ensures
        delivered(msgs.map_values(|d: Seq<u8>| ActionView::Notify(NoticeView::Message(d, epoch))))
            == msgs,
    decreases msgs.len(),
{
    let f = |d: Seq<u8>| ActionView::Notify(NoticeView::Message(d, epoch));
    let a = msgs.map_values(f);
    if msgs.len() > 0 {
        assert(a.drop_first() =~= msgs.drop_first().map_values(f));
        lemma_delivered_notices(msgs.drop_first(), epoch);
        assert(seq![msgs[0]] + msgs.drop_first() =~= msgs);
    } else {
        assert(a.len() == 0);
        assert(msgs =~= Seq::<Seq<u8>>::empty());
    }
}

proof fn lemma_delivered_acks(a: Seq<ActionView>)
    requires
        forall|i: int| 0 <= i < a.len() ==> #[trigger] a[i] is Ack,
    ensures
        delivered(a) == Seq::<Seq<u8>>::empty(),
    decreases a.len(),
{
    if a.len() > 0 {
        assert(a[0] is Ack);
        assert forall|i: int| 0 <= i < a.drop_first().len() implies #[trigger] a.drop_first()[i] is Ack by {
            assert(a.drop_first()[i] == a[i + 1]);
        }
        lemma_delivered_acks(a.drop_first());
    }
}

/// While connected, the core hands the user exactly what the receiver
/// reassembles in order: it stays connected, and the messages of its notices
/// are those that receiving the frames hands out.
proof fn lemma_run_delivers(mm: MessageView, epoch: u64, cfg: Config, id: u64, frames: Seq<ProtocolView>)
    requires
        forall|i: int| 0 <= i < frames.len() ==> #[trigger] slice_in_epoch(frames[i], epoch),
    ensures
        run_frames(StateView::Connected { mm, epoch }, cfg, id, frames).0 == (StateView::Connected {
            mm: deliver(mm, frames).0,
            epoch,
        }),
        delivered(run_frames(StateView::Connected { mm, epoch }, cfg, id, frames).1) == deliver(
            mm,
            frames,
        ).1,
    decreases frames.len(),
{
    let s = StateView::Connected { mm, epoch };
    if frames.len() == 0 {
        assert(delivered(Seq::empty()) =~= Seq::<Seq<u8>>::empty());
    } else {
        assert(slice_in_epoch(frames[0], epoch));
        if let ProtocolView::MsgSlice { epoch: e, seq, seq_len, first_index, data } = frames[0] {
            let (m1, moved) = mm_recv(mm, seq, first_index, seq_len, data);
            let (m2, taken) = mm_take(m1);
            let notices = taken.map_values(
                |d: Seq<u8>| ActionView::Notify(NoticeView::Message(d, epoch)),
            );
            let d = decide(s, cfg, EventView::Link { id, msg: frames[0] });
            let acks = d.step.actions.take(d.step.actions.len() - notices.len());
            assert(d.state == StateView::Connected { mm: m2, epoch });
            assert(d.step.actions == acks + notices);
            assert forall|i: int| 0 <= i < acks.len() implies #[trigger] acks[i] is Ack by {}
            lemma_delivered_acks(acks);
            lemma_delivered_notices(taken, epoch);
            lemma_delivered_concat(acks, notices);
            let d2 = decide_followup(d.state, cfg, d.step.followup.unwrap(), false);
            assert(d2.state == StateView::Connected { mm: m2, epoch });
            assert(d2.step.actions == Seq::<ActionView>::empty());
            assert(d.step.actions + d2.step.actions =~= d.step.actions);
            let rest = frames.drop_first();
            assert forall|i: int| 0 <= i < rest.len() implies #[trigger] slice_in_epoch(rest[i], epoch) by {
                assert(rest[i] == frames[i + 1]);
            }
            lemma_run_delivers(m2, epoch, cfg, id, rest);
            let r = run_frames(StateView::Connected { mm: m2, epoch }, cfg, id, rest);
            lemma_delivered_concat(d.step.actions, r.1);
        }
    }
}

/// The frames are slices of the messages `msgs`, of the given epoch.
pub open spec fn slices_of(msgs: Seq<Seq<u8>>, epoch: u64, frames: Seq<ProtocolView>) -> bool {
    forall|i: int|
        0 <= i < frames.len() ==> #[trigger] frame_of(msgs, frames[i]) && slice_in_epoch(
            frames[i],
            epoch,
        )
}

proof fn lemma_slices_of(msgs: Seq<Seq<u8>>, epoch: u64, frames: Seq<ProtocolView>)
    requires
        slices_of(msgs, epoch, frames),
    ensures
        forall|i: int| 0 <= i < frames.len() ==> #[trigger] slice_in_epoch(frames[i], epoch),
        forall|i: int| 0 <= i < frames.len() ==> #[trigger] frame_of(msgs, frames[i]),
{
    assert forall|i: int| 0 <= i < frames.len() implies #[trigger] slice_in_epoch(frames[i], epoch) by {
        assert(frame_of(msgs, frames[i]));
    }
}

/// Messages reach the user in order, none lost, repeated or reordered: a
/// connected link set that has received nothing yet, taking in slices of
/// the other side's messages in any order, repeated or not, stays connected
/// and notifies the user of exactly the messages before its
/// acknowledgement, in sequence order, each once.
pub proof fn law_connected_delivers_in_order(
    mm: MessageView,
    epoch: u64,
    cfg: Config,
    id: u64,
    msgs: Seq<Seq<u8>>,
    frames: Seq<ProtocolView>,
)
    requires
        mm.wf(),
        mm.incoming.len() == 0,
        mm.last_ack.0 == 0,
        msgs.len() < u64::MAX,
        slices_of(msgs, epoch, frames),
    ensures
        ({
            let r = run_frames(StateView::Connected { mm, epoch }, cfg, id, frames);
            &&& r.0 is Connected
            &&& r.0->Connected_mm.last_ack.0 <= msgs.len()
            &&& delivered(r.1) == msgs.take(r.0->Connected_mm.last_ack.0 as int)
        }),
{
    lemma_slices_of(msgs, epoch, frames);
    lemma_run_delivers(mm, epoch, cfg, id, frames);
    law_in_order_delivery(mm, msgs, frames);
}

/// Messages resent reach the user: whatever slices arrived before, lost,
/// reordered or repeated, once the other side sends messages `0..n` again,
/// whole and in order, a connected link set that started with nothing has
/// notified the user of all of them, in sequence order, each once.
pub proof fn law_connected_delivers_resent(
    mm: MessageView,
    epoch: u64,
    cfg: Config,
    id: u64,
    msgs: Seq<Seq<u8>>,
    earlier: Seq<ProtocolView>,
    size: nat,
    n: nat,
)
    requires
        mm.wf(),
        mm.incoming.len() == 0,
        mm.last_ack == (0u64, 0u64),
        msgs.len() < u64::MAX,
        all_nonempty(msgs),
        n <= msgs.len(),
        size > 0,
        slices_of(msgs, epoch, earlier),
    ensures
        ({
            let r = run_frames(
                StateView::Connected { mm, epoch },
                cfg,
                id,
                earlier + resend(msgs, epoch, size, n),
            );
            &&& r.0 is Connected
            &&& r.0->Connected_mm.last_ack.0 >= n
            &&& delivered(r.1) == msgs.take(r.0->Connected_mm.last_ack.0 as int)
            &&& delivered(r.1).take(n as int) == msgs.take(n as int)
        }),
{
    let frames = earlier + resend(msgs, epoch, size, n);
    lemma_slices_of(msgs, epoch, earlier);
    lemma_resend_frames(msgs, epoch, size, n);
    assert forall|i: int| 0 <= i < frames.len() implies #[trigger] frame_of(msgs, frames[i])
        && slice_in_epoch(frames[i], epoch) by {
        if i >= earlier.len() {
            assert(frames[i] == resend(msgs, epoch, size, n)[i - earlier.len()]);
        } else {
            assert(frames[i] == earlier[i]);
        }
    }
    lemma_slices_of(msgs, epoch, frames);
    lemma_run_delivers(mm, epoch, cfg, id, frames);
    law_resent_messages_delivered(mm, msgs, earlier, epoch, size, n);
}

} // verus!
