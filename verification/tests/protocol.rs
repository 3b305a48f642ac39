use std::collections::VecDeque;

use link_set::epoch::Epoch;
use link_set::error::LinkSetError;
use link_set::protocol::LinkProtocol;
use rand::random;

#[test]
fn reset_round_trip() {
    let epoch = Epoch::random();
    let request = random();
    let rst = LinkProtocol::Reset {
        epoch: Some(epoch),
        request,
    };

    let serialized = rst.clone().serialize();
    let mut serialized = VecDeque::from(serialized);

    let deserialized = LinkProtocol::deserialize(&mut serialized).expect("should deserialize");

    assert_eq!(rst, deserialized);
}

#[test]
fn slice_round_trip() {
    let epoch = random();
    let seq = random();
    let seq_len = random();
    let first_index = random();
    let data: Vec<u8> = random::<[u8; 20]>().into();
    let msg_slice = LinkProtocol::MsgSlice {
        epoch,
        seq,
        seq_len,
        first_index,
        data,
    };

    let serialized = msg_slice.clone().serialize();
    let mut serialized = VecDeque::from(serialized);

    let deserialized = LinkProtocol::deserialize(&mut serialized).expect("should deserialize");

    assert_eq!(msg_slice, deserialized);
}

#[test]
fn ack_round_trip() {
    let epoch = random();
    let seq = random();
    let last_index = random();
    let msg_slice = LinkProtocol::Ack {
        epoch,
        seq,
        last_index,
    };

    let serialized = msg_slice.clone().serialize();
    let mut serialized = VecDeque::from(serialized);

    let deserialized = LinkProtocol::deserialize(&mut serialized).expect("should deserialize");

    assert_eq!(msg_slice, deserialized);
}

#[test]
fn ping_round_trip() {
    let msg_ping = LinkProtocol::Ping;

    let serialized = msg_ping.clone().serialize();
    let mut serialized = VecDeque::from(serialized);

    let deserialized = LinkProtocol::deserialize(&mut serialized).expect("should deserialize");

    assert_eq!(msg_ping, deserialized);
}

#[test]
fn pong_round_trip() {
    let msg_ping = LinkProtocol::Pong;

    let serialized = msg_ping.clone().serialize();
    let mut serialized = VecDeque::from(serialized);

    let deserialized = LinkProtocol::deserialize(&mut serialized).expect("should deserialize");

    assert_eq!(msg_ping, deserialized);
}

#[test]
fn reset_without_epoch_round_trip() {
    let rst = LinkProtocol::Reset { epoch: None, request: false };
    let bytes = rst.clone().serialize();
    assert_eq!(bytes, vec![0, 0, 0, 0, 0, 0, 0, 0, 0, 0]);
    let mut q = VecDeque::from(bytes);
    assert_eq!(LinkProtocol::deserialize(&mut q), Ok(rst));
    assert!(q.is_empty());
}

#[test]
fn serialize_exact_bytes() {
    let ack = LinkProtocol::Ack { epoch: 1, seq: 2, last_index: 0x0102 };
    let mut expected = vec![1u8];
    expected.extend_from_slice(&1u64.to_be_bytes());
    expected.extend_from_slice(&2u64.to_be_bytes());
    expected.extend_from_slice(&0x0102u64.to_be_bytes());
    assert_eq!(ack.serialize(), expected);

    let slice = LinkProtocol::MsgSlice { epoch: 9, seq: 3, seq_len: 5, first_index: 2, data: vec![7, 8] };
    let mut expected = vec![2u8];
    for v in [9u64, 3, 5, 2, 2] {
        expected.extend_from_slice(&v.to_be_bytes());
    }
    expected.extend_from_slice(&[7, 8]);
    assert_eq!(slice.serialize(), expected);

    assert_eq!(LinkProtocol::Ping.serialize(), vec![3]);
    assert_eq!(LinkProtocol::Pong.serialize(), vec![4]);
    let rst = LinkProtocol::Reset { epoch: Epoch::from_int(258), request: true };
    assert_eq!(rst.serialize(), vec![0, 0, 0, 0, 0, 0, 0, 1, 2, 1]);
}

#[test]
fn deserialize_leaves_the_rest() {
    let mut bytes = LinkProtocol::Ping.serialize();
    bytes.extend(LinkProtocol::Pong.serialize());
    bytes.push(42);
    let mut q = VecDeque::from(bytes);
    assert_eq!(LinkProtocol::deserialize(&mut q), Ok(LinkProtocol::Ping));
    assert_eq!(LinkProtocol::deserialize(&mut q), Ok(LinkProtocol::Pong));
    assert_eq!(q, VecDeque::from(vec![42u8]));
}

#[test]
fn deserialize_errors() {
    let mut q: VecDeque<u8> = VecDeque::new();
    assert_eq!(LinkProtocol::deserialize(&mut q), Err(LinkSetError::DeserializeEOF));

    let mut q = VecDeque::from(vec![9u8, 1, 2]);
    assert_eq!(LinkProtocol::deserialize(&mut q), Err(LinkSetError::DeserializeInvalid(9)));
    assert_eq!(q, VecDeque::from(vec![1u8, 2]));

    // an ack cut short
    let mut q = VecDeque::from(vec![1u8, 0, 0, 0]);
    assert_eq!(LinkProtocol::deserialize(&mut q), Err(LinkSetError::DeserializeEOF));

    // a slice with no data
    let mut bytes = vec![2u8];
    for v in [1u64, 0, 4, 0, 0] {
        bytes.extend_from_slice(&v.to_be_bytes());
    }
    let mut q = VecDeque::from(bytes);
    assert_eq!(LinkProtocol::deserialize(&mut q), Err(LinkSetError::DeserializeInvalidLen));

    // a slice whose data is missing
    let mut bytes = vec![2u8];
    for v in [1u64, 0, 4, 0, 3] {
        bytes.extend_from_slice(&v.to_be_bytes());
    }
    bytes.push(1);
    let mut q = VecDeque::from(bytes);
    assert_eq!(LinkProtocol::deserialize(&mut q), Err(LinkSetError::DeserializeEOF));
}

#[test]
fn accessors() {
    let slice = LinkProtocol::MsgSlice { epoch: 9, seq: 3, seq_len: 5, first_index: 2, data: vec![7, 8] };
    assert_eq!(slice.seq(), 3);
    assert_eq!(slice.seq_len(), 5);
    assert_eq!(slice.first_index(), 2);
    assert_eq!(slice.last_index(), 3);
    assert_eq!(slice.data(), &[7u8, 8][..]);
    let ack = LinkProtocol::Ack { epoch: 1, seq: 4, last_index: 6 };
    assert_eq!(ack.seq(), 4);
}

#[test]
fn every_cut_frame_is_eof() {
    let frames = vec![
        LinkProtocol::Reset { epoch: Epoch::from_int(7), request: true },
        LinkProtocol::Ack { epoch: 3, seq: 4, last_index: 5 },
        LinkProtocol::MsgSlice { epoch: 1, seq: 2, seq_len: 9, first_index: 6, data: b"abc".to_vec() },
        LinkProtocol::Ping,
        LinkProtocol::Pong,
    ];
    for frame in frames {
        let bytes = frame.serialize();
        for k in 0..bytes.len() {
            let mut cut = VecDeque::from(bytes[..k].to_vec());
            assert_eq!(LinkProtocol::deserialize(&mut cut), Err(LinkSetError::DeserializeEOF));
        }
    }
}
