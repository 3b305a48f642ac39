use link_set::epoch::Epoch;
use link_set::message_manager::MessageManager;
use link_set::protocol::LinkProtocol;
use link_set::slice_manager::SliceManager;

fn epoch(v: u64) -> Epoch {
    Epoch::from_int(v).unwrap()
}

fn slice_parts(p: &LinkProtocol) -> (u64, u64, u64, u64, Vec<u8>) {
    match p {
        LinkProtocol::MsgSlice { epoch, seq, seq_len, first_index, data } => {
            (*epoch, *seq, *seq_len, *first_index, data.clone())
        }
        other => panic!("not a slice: {:?}", other),
    }
}

#[test]
fn slices_cover_the_message_in_chunks() {
    let m = SliceManager::from_vec(epoch(3), 0, b"hello world".to_vec());
    let frames = m.get_slices(4);
    assert_eq!(frames.len(), 3);
    assert_eq!(slice_parts(&frames[0]), (3, 0, 11, 0, b"hell".to_vec()));
    assert_eq!(slice_parts(&frames[1]), (3, 0, 11, 4, b"o wo".to_vec()));
    assert_eq!(slice_parts(&frames[2]), (3, 0, 11, 8, b"rld".to_vec()));
    assert!(m.get_slices(0).is_empty());
    assert_eq!(m.get_slices(100).len(), 1);
}

#[test]
fn acknowledged_bytes_are_not_sent_again() {
    let mut m = SliceManager::from_vec(epoch(3), 0, b"hello world".to_vec());
    m.ack(epoch(3), 0, 8);
    let frames = m.get_slices(4);
    assert_eq!(frames.len(), 1);
    assert_eq!(slice_parts(&frames[0]), (3, 0, 11, 8, b"rld".to_vec()));
    // an acknowledgement never shrinks, and one for another message is ignored
    m.ack(epoch(3), 0, 2);
    m.ack(epoch(3), 1, 11);
    m.ack(epoch(4), 0, 11);
    assert_eq!(m.get_slices(4).len(), 1);
    assert!(!m.is_empty());
    m.ack(epoch(3), 0, 100);
    assert!(m.is_empty());
    assert!(m.get_slices(4).is_empty());
}

#[test]
fn receiving_slices_rebuilds_the_message() {
    let sender = SliceManager::from_vec(epoch(1), 5, b"abcdefg".to_vec());
    let mut receiver = SliceManager::new(epoch(1), 5, 7);
    assert_eq!(receiver.last_head_index(), None);
    assert!(receiver.data().is_none());
    for frame in sender.get_slices(3) {
        let (e, s, _, first, data) = slice_parts(&frame);
        receiver.recv_slice(Epoch::from_int(e).unwrap(), s, first, data);
    }
    assert!(receiver.is_full());
    assert_eq!(receiver.data(), Some(&b"abcdefg"[..]));
    assert_eq!(receiver.last_head_index(), Some(7));
    assert_eq!(receiver.into_data(), b"abcdefg".to_vec());
}

#[test]
fn slices_beyond_the_prefix_are_dropped() {
    let mut receiver = SliceManager::new(epoch(1), 0, 6);
    receiver.recv_slice(epoch(1), 0, 2, b"cd".to_vec());
    assert_eq!(receiver.last_head_index(), None);
    receiver.recv_slice(epoch(1), 0, 0, b"abc".to_vec());
    assert_eq!(receiver.last_head_index(), Some(3));
    // an overlapping slice adds only what is new
    receiver.recv_slice(epoch(1), 0, 1, b"bcdef".to_vec());
    assert_eq!(receiver.data(), Some(&b"abcdef"[..]));
    // bytes past the message's length are cut off
    let mut r2 = SliceManager::new(epoch(1), 0, 2);
    r2.recv_slice(epoch(1), 0, 0, b"xyz".to_vec());
    assert_eq!(r2.data(), Some(&b"xy"[..]));
    // another epoch or message is ignored
    let mut r3 = SliceManager::new(epoch(1), 0, 2);
    r3.recv_slice(epoch(2), 0, 0, b"xy".to_vec());
    r3.recv_slice(epoch(1), 1, 0, b"xy".to_vec());
    assert_eq!(r3.last_head_index(), None);
}

#[test]
fn message_manager_numbers_messages() {
    let mut m = MessageManager::new(epoch(2));
    assert_eq!(m.epoch().to_int(), 2);
    assert_eq!(m.next_seq(), 0);
    assert_eq!(m.insert_msg(b"a".to_vec()), 0);
    assert_eq!(m.insert_msg(b"b".to_vec()), 1);
    assert_eq!(m.next_seq(), 2);
    let out = m.get_outgoing_slices();
    assert_eq!(out.len(), 2);
    assert_eq!(out[0].seq(), 0);
    assert_eq!(out[1].seq(), 1);
    assert_eq!(m.get_outgoing_slice(1).map(|s| s.seq()), Some(1));
    assert!(m.get_outgoing_slice(2).is_none());
}

#[test]
fn messages_are_delivered_in_order() {
    let mut sender = MessageManager::new(epoch(9));
    let mut receiver = MessageManager::new(epoch(9));
    sender.insert_msg(b"first".to_vec());
    sender.insert_msg(b"second message".to_vec());

    let first = sender.get_outgoing_slice(0).unwrap().get_slices(4);
    let second = sender.get_outgoing_slice(1).unwrap().get_slices(4);

    // the second message arrives first: nothing is handed out yet
    for frame in &second {
        let (_, seq, len, first_index, data) = slice_parts(frame);
        receiver.recv(seq, first_index, len, data);
    }
    assert!(receiver.take_recvd().is_empty());
    assert_eq!(receiver.last_ack(), (0, 0));

    for frame in &first {
        let (_, seq, len, first_index, data) = slice_parts(frame);
        receiver.recv(seq, first_index, len, data);
    }
    assert_eq!(receiver.last_ack(), (2, 0));
    let got = receiver.take_recvd();
    assert_eq!(got, vec![b"first".to_vec(), b"second message".to_vec()]);
    // handed out once only
    assert!(receiver.take_recvd().is_empty());

    // the acknowledgement lets the sender forget both
    sender.recv_ack(receiver.last_ack());
    assert!(sender.get_outgoing_slices().is_empty());
}

#[test]
fn partial_acknowledgement_keeps_the_rest() {
    let mut sender = MessageManager::new(epoch(9));
    sender.insert_msg(b"0123456789".to_vec());
    sender.insert_msg(b"xy".to_vec());
    sender.recv_ack((0, 6));
    let out = sender.get_outgoing_slices();
    assert_eq!(out.len(), 2);
    let frames = out[0].get_slices(100);
    assert_eq!(slice_parts(&frames[0]), (9, 0, 10, 6, b"6789".to_vec()));
    // an acknowledgement of message 1 drops message 0 entirely
    sender.recv_ack((1, 1));
    let out = sender.get_outgoing_slices();
    assert_eq!(out.len(), 1);
    assert_eq!(out[0].seq(), 1);
}

#[test]
fn receive_reports_whether_to_acknowledge() {
    let mut receiver = MessageManager::new(epoch(1));
    // a slice beyond the acknowledged point does not move it
    assert!(!receiver.recv(1, 0, 2, b"zz".to_vec()));
    // the awaited bytes move it
    assert!(receiver.recv(0, 0, 4, b"ab".to_vec()));
    assert_eq!(receiver.last_ack(), (0, 2));
    assert!(receiver.recv_in_range(0, 0, 4));
    // bytes already acknowledged change nothing
    assert!(!receiver.recv(0, 0, 2, b"ab".to_vec()));
    assert_eq!(receiver.last_ack(), (0, 2));
    assert!(!receiver.recv_in_range(0, 0, 2));
    assert!(receiver.recv(0, 2, 4, b"cd".to_vec()));
    assert_eq!(receiver.last_ack(), (2, 0));
    assert_eq!(receiver.take_recvd(), vec![b"abcd".to_vec(), b"zz".to_vec()]);
    assert!(!receiver.recv_in_range(1, 0, 2));
}

#[test]
fn whole_message_in_one_frame_is_delivered() {
    let mut receiver = MessageManager::new(epoch(1));
    assert!(receiver.recv(0, 0, 3, b"abc".to_vec()));
    assert_eq!(receiver.last_ack(), (1, 0));
    assert_eq!(receiver.take_recvd(), vec![b"abc".to_vec()]);
}

#[test]
fn any_slicing_delivers_the_message_whole() {
    let data: Vec<u8> = (0u8..=200).collect();
    for size in [1u32, 2, 7, 64, 200, 201, 1000] {
        let sender = SliceManager::from_vec(epoch(4), 3, data.clone());
        let mut receiver = MessageManager::new(epoch(4));
        // bring the receiver to wait for message 3
        for seq in 0..3u64 {
            receiver.recv(seq, 0, 1, vec![seq as u8]);
        }
        assert_eq!(receiver.take_recvd().len(), 3);
        assert_eq!(receiver.last_ack(), (3, 0));
        for frame in sender.get_slices(size) {
            let (_, seq, len, first_index, bytes) = slice_parts(&frame);
            receiver.recv(seq, first_index, len, bytes);
        }
        assert_eq!(receiver.last_ack(), (4, 0));
        assert_eq!(receiver.take_recvd(), vec![data.clone()]);
    }
}

#[test]
fn bytes_past_the_held_prefix_wait_for_a_resend() {
    let mut receiver = MessageManager::new(epoch(2));
    // the tail of message 0 arrives before its head: it is not kept
    assert!(!receiver.recv(0, 2, 4, b"cd".to_vec()));
    assert_eq!(receiver.last_ack(), (0, 0));
    assert!(receiver.recv(0, 0, 4, b"ab".to_vec()));
    assert_eq!(receiver.last_ack(), (0, 2));
    assert!(receiver.take_recvd().is_empty());
    // the resent tail completes it; the acknowledgement only ever moves forward
    assert!(receiver.recv(0, 2, 4, b"cd".to_vec()));
    assert_eq!(receiver.last_ack(), (1, 0));
    assert_eq!(receiver.take_recvd(), vec![b"abcd".to_vec()]);
    assert!(!receiver.recv(0, 0, 4, b"ab".to_vec()));
    assert_eq!(receiver.last_ack(), (1, 0));
}

#[test]
fn a_slice_of_the_last_message_number_is_kept() {
    let mut receiver = MessageManager::new(epoch(3));
    // far ahead of the acknowledgement: stored, the acknowledgement stays
    assert!(!receiver.recv(u64::MAX, 0, 2, b"zz".to_vec()));
    assert_eq!(receiver.last_ack(), (0, 0));
    assert!(receiver.take_recvd().is_empty());
    assert!(receiver.recv(0, 0, 1, b"a".to_vec()));
    assert_eq!(receiver.last_ack(), (1, 0));
    assert_eq!(receiver.take_recvd(), vec![b"a".to_vec()]);
}
