use std::collections::VecDeque;

use vstd::prelude::*;

use crate::epoch::{Epoch, opt_epoch_to_int, spec_opt_epoch_to_int};
use crate::error::LinkSetError;

verus! {

/// The frames exchanged between the two sides of a link.
#[allow(inconsistent_fields)]
#[derive(Debug, Clone, PartialEq, Eq)]
pub enum LinkProtocol {
    Reset { epoch: Option<Epoch>, request: bool },
    Ack {
        /// The epoch to which this applies
        epoch: u64,
        /// The sequence number to be ack'd
        seq: u64,
        /// The acknowledged position within the sequence
        last_index: u64,
    },
    MsgSlice {
        /// The epoch to which this applies
        epoch: u64,
        /// The sequence number of the slice
        seq: u64,
        /// The total length of this sequence
        seq_len: u64,
        /// The first index in the sent slice
        first_index: u64,
        /// The data in the slice
        data: Vec<u8>,
    },
    Ping,
    Pong,
}

/// The mathematical content of a frame: the epoch of a reset is held as its
/// wire integer (zero for none) and data as a sequence of bytes.
pub enum ProtocolView {
    Reset { epoch: u64, request: bool },
    Ack { epoch: u64, seq: u64, last_index: u64 },
    MsgSlice { epoch: u64, seq: u64, seq_len: u64, first_index: u64, data: Seq<u8> },
    Ping,
    Pong,
}

impl View for LinkProtocol {
    type V = ProtocolView;

    open spec fn view(&self) -> ProtocolView {
        match self {
            LinkProtocol::Reset { epoch, request } => ProtocolView::Reset {
                epoch: spec_opt_epoch_to_int(*epoch),
                request: *request,
            },
            LinkProtocol::Ack { epoch, seq, last_index } => ProtocolView::Ack {
                epoch: *epoch,
                seq: *seq,
                last_index: *last_index,
            },
            LinkProtocol::MsgSlice { epoch, seq, seq_len, first_index, data } =>
                ProtocolView::MsgSlice {
                epoch: *epoch,
                seq: *seq,
                seq_len: *seq_len,
                first_index: *first_index,
                data: data@,
            },
            LinkProtocol::Ping => ProtocolView::Ping,
            LinkProtocol::Pong => ProtocolView::Pong,
        }
    }
}

/// The eight big-endian bytes of `x`.
pub open spec fn be_bytes(x: u64) -> Seq<u8> {
    seq![
        (x >> 56u64) as u8,
        (x >> 48u64) as u8,
        (x >> 40u64) as u8,
        (x >> 32u64) as u8,
        (x >> 24u64) as u8,
        (x >> 16u64) as u8,
        (x >> 8u64) as u8,
        x as u8,
    ]
}

/// The value of eight big-endian bytes.
pub open spec fn be_value(b0: u8, b1: u8, b2: u8, b3: u8, b4: u8, b5: u8, b6: u8, b7: u8) -> u64 {
    ((b0 as u64) << 56u64) | ((b1 as u64) << 48u64) | ((b2 as u64) << 40u64) | ((b3 as u64)
        << 32u64) | ((b4 as u64) << 24u64) | ((b5 as u64) << 16u64) | ((b6 as u64) << 8u64) | (
    b7 as u64)
}

/// The value of the eight big-endian bytes of `s` that start at `at`.
pub open spec fn be_value_at(s: Seq<u8>, at: int) -> u64 {
    be_value(s[at], s[at + 1], s[at + 2], s[at + 3], s[at + 4], s[at + 5], s[at + 6], s[at + 7])
}

/// Reading back the bytes of a value gives the value.
pub proof fn lemma_be_round_trip(x: u64)
    ensures
        be_value_at(be_bytes(x), 0) == x,
        be_bytes(x).len() == 8,
{
    let b = be_bytes(x);
    assert(b[0] == (x >> 56u64) as u8 && b[7] == x as u8);
    assert(be_value(
        (x >> 56u64) as u8,
        (x >> 48u64) as u8,
        (x >> 40u64) as u8,
        (x >> 32u64) as u8,
        (x >> 24u64) as u8,
        (x >> 16u64) as u8,
        (x >> 8u64) as u8,
        x as u8,
    ) == x) by (bit_vector);
}

/// The bytes of a frame on the wire.
pub open spec fn spec_serialize(p: ProtocolView) -> Seq<u8> {
    match p {
        ProtocolView::Reset { epoch, request } => seq![0u8] + be_bytes(epoch) + seq![
            if request {
                1u8
            } else {
                0u8
            },
        ],
        ProtocolView::Ack { epoch, seq, last_index } => seq![1u8] + be_bytes(epoch) + be_bytes(seq)
            + be_bytes(last_index),
        ProtocolView::MsgSlice { epoch, seq, seq_len, first_index, data } => seq![2u8] + be_bytes(
            epoch,
        ) + be_bytes(seq) + be_bytes(seq_len) + be_bytes(first_index) + be_bytes(
            data.len() as u64,
        ) + data,
        ProtocolView::Ping => seq![3u8],
        ProtocolView::Pong => seq![4u8],
    }
}

/// A frame that can be written and read back: a slice carries at least one
/// byte and no more than a `u64` can count.
pub open spec fn wire_valid(p: ProtocolView) -> bool {
    match p {
        ProtocolView::MsgSlice { data, .. } => 0 < data.len() <= u64::MAX,
        _ => true,
    }
}

/// The number of whole bytes available for the fixed fields of a frame: the
/// reading stops at the first eight-byte field that the input cannot fill.
pub open spec fn fields_consumed(len: int, fields: int) -> int {
    if len < 9 || fields == 0 {
        1
    } else if len < 17 || fields == 1 {
        9
    } else if len < 25 || fields == 2 {
        17
    } else if len < 33 || fields == 3 {
        25
    } else if len < 41 || fields == 4 {
        33
    } else {
        41
    }
}

/// Reading one frame from the front of `s`: the frame or the error, and the
/// number of bytes taken from the front.
pub open spec fn spec_deserialize(s: Seq<u8>) -> (Result<ProtocolView, LinkSetError>, int) {
    if s.len() == 0 {
        (Err(LinkSetError::DeserializeEOF), 0)
    } else if s[0] == 0 {
        if s.len() < 9 {
            (Err(LinkSetError::DeserializeEOF), 1)
        } else if s.len() < 10 {
            (Err(LinkSetError::DeserializeEOF), 9)
        } else {
            (Ok(ProtocolView::Reset { epoch: be_value_at(s, 1), request: s[9] != 0 }), 10)
        }
    } else if s[0] == 1 {
        if s.len() < 25 {
            (Err(LinkSetError::DeserializeEOF), fields_consumed(s.len() as int, 3))
        } else {
            (
                Ok(
                    ProtocolView::Ack {
                        epoch: be_value_at(s, 1),
                        seq: be_value_at(s, 9),
                        last_index: be_value_at(s, 17),
                    },
                ),
                25,
            )
        }
    } else if s[0] == 2 {
        if s.len() < 41 {
            (Err(LinkSetError::DeserializeEOF), fields_consumed(s.len() as int, 5))
        } else {
            let data_len = be_value_at(s, 33);
            if data_len == 0 {
                (Err(LinkSetError::DeserializeInvalidLen), 41)
            } else if s.len() - 41 < data_len {
                (Err(LinkSetError::DeserializeEOF), 41)
            } else {
                (
                    Ok(
                        ProtocolView::MsgSlice {
                            epoch: be_value_at(s, 1),
                            seq: be_value_at(s, 9),
                            seq_len: be_value_at(s, 17),
                            first_index: be_value_at(s, 25),
                            data: s.subrange(41, 41 + data_len),
                        },
                    ),
                    41 + data_len,
                )
            }
        }
    } else if s[0] == 3 {
        (Ok(ProtocolView::Ping), 1)
    } else if s[0] == 4 {
        (Ok(ProtocolView::Pong), 1)
    } else {
        (Err(LinkSetError::DeserializeInvalid(s[0])), 1)
    }
}

/// The view of a read result.
pub open spec fn result_view(r: Result<LinkProtocol, LinkSetError>) -> Result<
    ProtocolView,
    LinkSetError,
> {
    match r {
        Ok(p) => Ok(p@),
        Err(e) => Err(e),
    }
}

/// Appends the eight big-endian bytes of `x`.
fn push_u64_be(v: &mut Vec<u8>, x: u64)
    ensures
        final(v)@ == old(v)@ + be_bytes(x),
{
    v.push((x >> 56u64) as u8);
    v.push((x >> 48u64) as u8);
    v.push((x >> 40u64) as u8);
    v.push((x >> 32u64) as u8);
    v.push((x >> 24u64) as u8);
    v.push((x >> 16u64) as u8);
    v.push((x >> 8u64) as u8);
    v.push(x as u8);
    assert(final(v)@ =~= old(v)@ + be_bytes(x));
}

/// Takes eight bytes from the front of `data` as a big-endian value; takes
/// nothing where fewer than eight are left.
fn read_u64_be(data: &mut VecDeque<u8>) -> (r: Option<u64>)
    ensures
        old(data)@.len() < 8 ==> r is None && final(data)@ == old(data)@,
        old(data)@.len() >= 8 ==> r == Some(be_value_at(old(data)@, 0)) && final(data)@
            == old(data)@.skip(8),
{
    if data.len() < 8 {
        return None;
    }
    let ghost s = data@;
    let b0 = data.pop_front().unwrap();
    let b1 = data.pop_front().unwrap();
    let b2 = data.pop_front().unwrap();
    let b3 = data.pop_front().unwrap();
    let b4 = data.pop_front().unwrap();
    let b5 = data.pop_front().unwrap();
    let b6 = data.pop_front().unwrap();
    let b7 = data.pop_front().unwrap();
    assert(data@ =~= s.skip(8));
    Some(
        ((b0 as u64) << 56u64) | ((b1 as u64) << 48u64) | ((b2 as u64) << 40u64) | ((b3 as u64)
            << 32u64) | ((b4 as u64) << 24u64) | ((b5 as u64) << 16u64) | ((b6 as u64) << 8u64)
            | (b7 as u64),
    )
}

impl LinkProtocol {
    /// Whether the last index of a slice can be computed: a slice's first
    /// index plus its length, less one, lies within `u64`.
    pub open spec fn last_index_defined(&self) -> bool {
        match self {
            LinkProtocol::MsgSlice { first_index, data, .. } => 1 <= *first_index + data@.len()
                <= u64::MAX + 1,
            _ => true,
        }
    }

    /// The sequence number
    pub fn seq(&self) -> (r: u64)
        ensures
            r == match self@ {
                ProtocolView::Ack { seq, .. } => seq,
                ProtocolView::MsgSlice { seq, .. } => seq,
                _ => 0,
            },
    {
        match self {
            LinkProtocol::Reset { .. } => 0,
            LinkProtocol::Ack { seq, .. } => *seq,
            LinkProtocol::MsgSlice { seq, .. } => *seq,
            LinkProtocol::Ping => 0,
            LinkProtocol::Pong => 0,
        }
    }

    /// The total length of data being sent by this sequence.
    pub fn seq_len(&self) -> (r: u64)
        ensures
            r == match self@ {
                ProtocolView::MsgSlice { seq_len, .. } => seq_len,
                _ => 0,
            },
    {
        match self {
            LinkProtocol::Reset { .. } => 0,
            LinkProtocol::Ack { .. } => 0,
            LinkProtocol::MsgSlice { seq_len, .. } => *seq_len,
            LinkProtocol::Ping => 0,
            LinkProtocol::Pong => 0,
        }
    }

    /// The index of the first byte in the slice
    pub fn first_index(&self) -> (r: u64)
        ensures
            r == match self@ {
                ProtocolView::MsgSlice { first_index, .. } => first_index,
                _ => 0,
            },
    {
        match self {
            LinkProtocol::Reset { .. } => 0,
            LinkProtocol::Ack { .. } => 0,
            LinkProtocol::MsgSlice { first_index, .. } => *first_index,
            LinkProtocol::Ping => 0,
            LinkProtocol::Pong => 0,
        }
    }

    /// The index of the last byte in the slice (for an ack, the acknowledged
    /// position)
    pub fn last_index(&self) -> (r: u64)
        requires
            self.last_index_defined(),
        ensures
            r == match self@ {
                ProtocolView::Ack { last_index, .. } => last_index as int,
                ProtocolView::MsgSlice { first_index, data, .. } => first_index + data.len() - 1,
                _ => 0,
            },
    {
        match self {
            LinkProtocol::Reset { .. } => 0,
            LinkProtocol::Ack { last_index, .. } => *last_index,
            LinkProtocol::MsgSlice { first_index, data, .. } => {
                let len = data.len() as u64;
                if len == 0 {
                    *first_index - 1
                } else {
                    *first_index + (len - 1)
                }
            },
            LinkProtocol::Ping => 0,
            LinkProtocol::Pong => 0,
        }
    }

    /// The data in the slice
    pub fn data(&self) -> (r: &[u8])
        ensures
            r@ == match self@ {
                ProtocolView::MsgSlice { data, .. } => data,
                _ => Seq::empty(),
            },
    {
        match self {
            LinkProtocol::MsgSlice { data, .. } => data.as_slice(),
            _ => {
                let empty: &[u8] = &[];
                assert(empty@ =~= Seq::<u8>::empty());
                empty
            },
        }
    }

    /// The bytes of this frame on the wire.
    pub fn serialize(self) -> (ret: Vec<u8>)
        ensures
            ret@ == spec_serialize(self@),
    {
        match self {
            LinkProtocol::Reset { epoch, request } => {
                let epoch = opt_epoch_to_int(epoch);
                let mut ret = Vec::with_capacity(10);
                ret.push(0);
                push_u64_be(&mut ret, epoch);
                ret.push(if request {
                    1u8
                } else {
                    0u8
                });
                assert(ret@ =~= spec_serialize(self@));
                ret
            },
            LinkProtocol::Ack { epoch, seq, last_index } => {
                let mut ret = Vec::with_capacity(25);
                ret.push(1);
                push_u64_be(&mut ret, epoch);
                push_u64_be(&mut ret, seq);
                push_u64_be(&mut ret, last_index);
                assert(ret@ =~= spec_serialize(self@));
                ret
            },
            LinkProtocol::MsgSlice { epoch, seq, first_index, seq_len, data } => {
                let mut data = data;
                let data_len = data.len() as u64;
                let mut ret = Vec::new();
                ret.push(2);
                push_u64_be(&mut ret, epoch);
                push_u64_be(&mut ret, seq);
                push_u64_be(&mut ret, seq_len);
                push_u64_be(&mut ret, first_index);
                push_u64_be(&mut ret, data_len);
                let ghost d = data@;
                ret.append(&mut data);
                assert(ret@ =~= spec_serialize(self@));
                ret
            },
            LinkProtocol::Ping => {
                let mut ret = Vec::with_capacity(1);
                ret.push(3);
                assert(ret@ =~= spec_serialize(self@));
                ret
            },
            LinkProtocol::Pong => {
                let mut ret = Vec::with_capacity(1);
                ret.push(4);
                assert(ret@ =~= spec_serialize(self@));
                ret
            },
        }
    }

    /// Reads one frame from the front of `data`, taking from it the bytes that
    /// were read.
    pub fn deserialize(data: &mut VecDeque<u8>) -> (r: Result<LinkProtocol, LinkSetError>)
        ensures
            result_view(r) == spec_deserialize(old(data)@).0,
            final(data)@ == old(data)@.skip(spec_deserialize(old(data)@).1),
    {
        let ghost s = data@;
        let variant = match data.pop_front() {
            Some(v) => v,
            None => {
                return Err(LinkSetError::DeserializeEOF);
            },
        };
        if variant == 0 {
            let epoch = match read_u64_be(data) {
                Some(e) => e,
                None => {
                    assert(data@ =~= s.skip(1));
                    return Err(LinkSetError::DeserializeEOF);
                },
            };
            let reply = match data.pop_front() {
                Some(b) => b != 0,
                None => {
                    assert(data@ =~= s.skip(9));
                    return Err(LinkSetError::DeserializeEOF);
                },
            };
            assert(data@ =~= s.skip(10));
            let r = Ok(LinkProtocol::Reset { epoch: Epoch::from_int(epoch), request: reply });
            assert(result_view(r) == spec_deserialize(s).0);
            r
        } else if variant == 1 {
            let epoch = match read_u64_be(data) {
                Some(e) => e,
                None => {
                    assert(data@ =~= s.skip(1));
                    return Err(LinkSetError::DeserializeEOF);
                },
            };
            let seq = match read_u64_be(data) {
                Some(e) => e,
                None => {
                    assert(data@ =~= s.skip(9));
                    return Err(LinkSetError::DeserializeEOF);
                },
            };
            let last_index = match read_u64_be(data) {
                Some(e) => e,
                None => {
                    assert(data@ =~= s.skip(17));
                    return Err(LinkSetError::DeserializeEOF);
                },
            };
            assert(data@ =~= s.skip(25));
            Ok(LinkProtocol::Ack { epoch, seq, last_index })
        } else if variant == 2 {
            let epoch = match read_u64_be(data) {
                Some(e) => e,
                None => {
                    assert(data@ =~= s.skip(1));
                    return Err(LinkSetError::DeserializeEOF);
                },
            };
            let seq = match read_u64_be(data) {
                Some(e) => e,
                None => {
                    assert(data@ =~= s.skip(9));
                    return Err(LinkSetError::DeserializeEOF);
                },
            };
            let seq_len = match read_u64_be(data) {
                Some(e) => e,
                None => {
                    assert(data@ =~= s.skip(17));
                    return Err(LinkSetError::DeserializeEOF);
                },
            };
            let first_index = match read_u64_be(data) {
                Some(e) => e,
                None => {
                    assert(data@ =~= s.skip(25));
                    return Err(LinkSetError::DeserializeEOF);
                },
            };
            let data_len = match read_u64_be(data) {
                Some(e) => e,
                None => {
                    assert(data@ =~= s.skip(33));
                    return Err(LinkSetError::DeserializeEOF);
                },
            };
            assert(data@ =~= s.skip(41));
            if data_len == 0 {
                return Err(LinkSetError::DeserializeInvalidLen);
            }
            if (data.len() as u64) < data_len {
                return Err(LinkSetError::DeserializeEOF);
            }
            let mut read_data: Vec<u8> = Vec::new();
            let mut i: u64 = 0;
            while i < data_len
                invariant
                    0 <= i <= data_len,
                    data_len <= s.len() - 41,
                    read_data@ =~= s.subrange(41, 41 + i),
                    data@ =~= s.skip(41 + i),
                decreases data_len - i,
            {
                let b = data.pop_front().unwrap();
                read_data.push(b);
                i = i + 1;
            }
            let r = Ok(
                LinkProtocol::MsgSlice { epoch, seq, first_index, seq_len, data: read_data },
            );
            assert(result_view(r) == spec_deserialize(s).0);
            r
        } else if variant == 3 {
            Ok(LinkProtocol::Ping)
        } else if variant == 4 {
            Ok(LinkProtocol::Pong)
        } else {
            Err(LinkSetError::DeserializeInvalid(variant))
        }
    }
}

/// Writing a frame and reading it back from the front of any bytes that follow
/// it gives the same frame and leaves exactly the bytes that followed.
pub proof fn lemma_serialize_round_trip(p: ProtocolView, rest: Seq<u8>)
    requires
        wire_valid(p),
    ensures
        spec_deserialize(spec_serialize(p) + rest).0 == Ok::<ProtocolView, LinkSetError>(p),
        (spec_serialize(p) + rest).skip(spec_deserialize(spec_serialize(p) + rest).1) == rest,
{
    let s = spec_serialize(p) + rest;
    match p {
        ProtocolView::Reset { epoch, request } => {
            lemma_be_round_trip(epoch);
            assert(s.subrange(1, 9) =~= be_bytes(epoch));
            assert(be_value_at(s, 1) == be_value_at(be_bytes(epoch), 0));
            assert(s.skip(10) =~= rest);
        },
        ProtocolView::Ack { epoch, seq, last_index } => {
            lemma_be_round_trip(epoch);
            lemma_be_round_trip(seq);
            lemma_be_round_trip(last_index);
            assert(be_value_at(s, 1) == be_value_at(be_bytes(epoch), 0));
            assert(be_value_at(s, 9) == be_value_at(be_bytes(seq), 0));
            assert(be_value_at(s, 17) == be_value_at(be_bytes(last_index), 0));
            assert(s.skip(25) =~= rest);
        },
        ProtocolView::MsgSlice { epoch, seq, seq_len, first_index, data } => {
            let n = data.len() as u64;
            lemma_be_round_trip(epoch);
            lemma_be_round_trip(seq);
            lemma_be_round_trip(seq_len);
            lemma_be_round_trip(first_index);
            lemma_be_round_trip(n);
            assert(be_value_at(s, 1) == be_value_at(be_bytes(epoch), 0));
            assert(be_value_at(s, 9) == be_value_at(be_bytes(seq), 0));
            assert(be_value_at(s, 17) == be_value_at(be_bytes(seq_len), 0));
            assert(be_value_at(s, 25) == be_value_at(be_bytes(first_index), 0));
            assert(be_value_at(s, 33) == be_value_at(be_bytes(n), 0));
            assert(s.subrange(41, 41 + n) =~= data);
            assert(s.skip(41 + n) =~= rest);
        },
        ProtocolView::Ping => {
            assert(s.skip(1) =~= rest);
        },
        ProtocolView::Pong => {
            assert(s.skip(1) =~= rest);
        },
    }
}

/// A frame cut short is reported as running out of bytes: reading any strict
/// prefix of a written frame fails with [LinkSetError::DeserializeEOF].
pub proof fn law_cut_frame_is_eof(p: ProtocolView, k: int)
    requires
        wire_valid(p),
        0 <= k < spec_serialize(p).len(),
    ensures
        spec_deserialize(spec_serialize(p).take(k)).0 == Err::<ProtocolView, LinkSetError>(
            LinkSetError::DeserializeEOF,
        ),
{
    let s = spec_serialize(p);
    let t = s.take(k);
    if k > 0 {
        assert(t[0] == s[0]);
    }
    if let ProtocolView::MsgSlice { data, .. } = p {
        if k >= 41 {
            let n = data.len() as u64;
            lemma_be_round_trip(n);
            assert(be_value_at(s, 33) == be_value_at(be_bytes(n), 0));
            assert(be_value_at(t, 33) == be_value_at(s, 33));
        }
    }
}

} // verus!
