use std::collections::VecDeque;

use vstd::prelude::*;

use crate::links::address::AddressRepr;

verus! {

/// The scheme of TCP links.
pub const TCP_SCHEME: &'static str = "tcp";

/// The largest chunk a TCP link takes: four bytes of each frame hold the
/// chunk's length.
pub const TCP_MAX_SIZE: u32 = 4294967291;

#[verifier::external_type_specification]
#[verifier::external_body]
pub struct ExIoError(std::io::Error);

/// Errors of TCP links.
#[derive(Debug)]
pub enum TcpLinkError {
    /// The socket failed
    Io(std::io::Error),
    /// The receiver has already been taken
    ReceiverTaken,
    /// Invalid address format
    InvalidAddr,
    /// The link has closed
    Closed,
}

/// The four big-endian bytes of `x`.
pub open spec fn be32_bytes(x: u32) -> Seq<u8> {
    seq![(x >> 24u32) as u8, (x >> 16u32) as u8, (x >> 8u32) as u8, x as u8]
}

/// The value of four big-endian bytes.
pub open spec fn be32_value(b0: u8, b1: u8, b2: u8, b3: u8) -> u32 {
    ((b0 as u32) << 24u32) | ((b1 as u32) << 16u32) | ((b2 as u32) << 8u32) | (b3 as u32)
}

/// The two big-endian bytes of `x`.
pub open spec fn be16_bytes(x: u16) -> Seq<u8> {
    seq![(x >> 8u16) as u8, x as u8]
}

/// The value of two big-endian bytes.
pub open spec fn be16_value(b0: u8, b1: u8) -> u16 {
    ((b0 as u16) << 8u16) | (b1 as u16)
}

/// Reading back the bytes of a length gives the length.
pub proof fn lemma_be32_round_trip(x: u32)
    ensures
        be32_value(be32_bytes(x)[0], be32_bytes(x)[1], be32_bytes(x)[2], be32_bytes(x)[3]) == x,
{
    assert(be32_value((x >> 24u32) as u8, (x >> 16u32) as u8, (x >> 8u32) as u8, x as u8) == x)
        by (bit_vector);
}

/// Reading back the bytes of a port gives the port.
pub proof fn lemma_be16_round_trip(x: u16)
    ensures
        be16_value(be16_bytes(x)[0], be16_bytes(x)[1]) == x,
{
    assert(be16_value((x >> 8u16) as u8, x as u8) == x) by (bit_vector);
}

/// A chunk as it goes over the socket: its length in four big-endian bytes,
/// then its bytes.
pub open spec fn spec_frame(data: Seq<u8>) -> Seq<u8> {
    be32_bytes(data.len() as u32) + data
}

/// The first chunk of a byte stream and what follows it, if the stream holds
/// a whole frame.
pub open spec fn spec_next_chunk(s: Seq<u8>) -> Option<(Seq<u8>, Seq<u8>)> {
    if s.len() < 4 {
        None
    } else {
        let n = be32_value(s[0], s[1], s[2], s[3]) as int;
        if s.len() - 4 < n {
            None
        } else {
            Some((s.subrange(4, 4 + n), s.skip(4 + n)))
        }
    }
}

/// A framed chunk is read back whole, whatever follows it.
pub proof fn lemma_frame_round_trip(data: Seq<u8>, rest: Seq<u8>)
    requires
        data.len() <= u32::MAX,
    ensures
        spec_next_chunk(spec_frame(data) + rest) == Some((data, rest)),
{
    let s = spec_frame(data) + rest;
    lemma_be32_round_trip(data.len() as u32);
    assert(s[0] == be32_bytes(data.len() as u32)[0]);
    assert(s[1] == be32_bytes(data.len() as u32)[1]);
    assert(s[2] == be32_bytes(data.len() as u32)[2]);
    assert(s[3] == be32_bytes(data.len() as u32)[3]);
    assert(s.subrange(4, 4 + data.len() as int) =~= data);
    assert(s.skip(4 + data.len() as int) =~= rest);
}

/// The frame of a chunk, ready to be written to the socket.
pub fn frame_chunk(data: &[u8]) -> (r: Vec<u8>)
    requires
        data@.len() <= u32::MAX,
    ensures
        r@ == spec_frame(data@),
{
    let n = data.len() as u32;
    let mut r: Vec<u8> = Vec::new();
    r.push((n >> 24u32) as u8);
    r.push((n >> 16u32) as u8);
    r.push((n >> 8u32) as u8);
    r.push(n as u8);
    let mut i: usize = 0;
    while i < data.len()
        invariant
            i <= data@.len(),
            n == data@.len(),
            r@ == be32_bytes(n) + data@.subrange(0, i as int),
        decreases data@.len() - i,
    {
        r.push(data[i]);
        i = i + 1;
        assert(r@ =~= be32_bytes(n) + data@.subrange(0, i as int));
    }
    assert(data@.subrange(0, data@.len() as int) =~= data@);
    r
}

/// Splits the bytes read from a socket into chunks. It remembers the length
/// of a chunk whose header was read and whose bytes are still arriving.
pub struct ChunkReader {
    length: Option<u32>,
    buffer: VecDeque<u8>,
}

impl ChunkReader {
    /// The bytes read and not yet handed out, from the header of the next
    /// chunk on.
    pub closed spec fn pending(&self) -> Seq<u8> {
        match self.length {
            Some(n) => be32_bytes(n) + self.buffer@,
            None => self.buffer@,
        }
    }

    /// A reader that has read nothing.
    pub fn new() -> (r: ChunkReader)
        ensures
            r.pending() == Seq::<u8>::empty(),
    {
        ChunkReader { length: None, buffer: VecDeque::new() }
    }

    /// Takes in bytes read from the socket.
    pub fn feed(&mut self, bytes: &[u8])
        ensures
            final(self).pending() == old(self).pending() + bytes@,
    {
        let mut i: usize = 0;
        while i < bytes.len()
            invariant
                i <= bytes@.len(),
                self.length == old(self).length,
                self.buffer@ == old(self).buffer@ + bytes@.subrange(0, i as int),
            decreases bytes@.len() - i,
        {
            self.buffer.push_back(bytes[i]);
            i = i + 1;
            assert(self.buffer@ =~= old(self).buffer@ + bytes@.subrange(0, i as int));
        }
        assert(bytes@.subrange(0, bytes@.len() as int) =~= bytes@);
        assert(self.pending() =~= old(self).pending() + bytes@);
    }

    /// The next whole chunk, if the bytes read hold one; what is handed out
    /// leaves the pending bytes.
    pub fn next_chunk(&mut self) -> (r: Option<Vec<u8>>)
        ensures
            spec_next_chunk(old(self).pending()) matches Some((data, rest)) ==> {
                &&& r matches Some(v) && v@ == data
                &&& final(self).pending() == rest
            },
            spec_next_chunk(old(self).pending()) is None ==> {
                &&& r is None
                &&& final(self).pending() == old(self).pending()
            },
    {
        let ghost s = self.pending();
        let n: u32 = match self.length {
            Some(n) => {
                proof {
                    lemma_be32_round_trip(n);
                }
                n
            },
            None => {
                if self.buffer.len() < 4 {
                    return None;
                }
                let b0 = self.buffer.pop_front().unwrap();
                let b1 = self.buffer.pop_front().unwrap();
                let b2 = self.buffer.pop_front().unwrap();
                let b3 = self.buffer.pop_front().unwrap();
                let n = ((b0 as u32) << 24u32) | ((b1 as u32) << 16u32) | ((b2 as u32) << 8u32) | (
                b3 as u32);
                proof {
                    assert(n == be32_value(b0, b1, b2, b3));
                    assert(be32_bytes(n) == seq![b0, b1, b2, b3]) by {
                        assert((n >> 24u32) as u8 == b0 && (n >> 16u32) as u8 == b1 && (n
                            >> 8u32) as u8 == b2 && n as u8 == b3) by (bit_vector)
                            requires
                                n == ((b0 as u32) << 24u32) | ((b1 as u32) << 16u32) | ((b2 as u32)
                                    << 8u32) | (b3 as u32),
                        ;
                        assert(be32_bytes(n) =~= seq![b0, b1, b2, b3]);
                    }
                    assert(s =~= seq![b0, b1, b2, b3] + self.buffer@);
                }
                self.length = Some(n);
                n
            },
        };
        assert(s =~= be32_bytes(n) + self.buffer@);
        assert(s[0] == be32_bytes(n)[0] && s[1] == be32_bytes(n)[1] && s[2] == be32_bytes(n)[2]
            && s[3] == be32_bytes(n)[3]);
        if (n as usize) > self.buffer.len() {
            return None;
        }
        let mut data: Vec<u8> = Vec::new();
        let mut i: u32 = 0;
        while i < n
            invariant
                i <= n,
                n as int <= s.len() - 4,
                s == be32_bytes(n) + old(self).pending().skip(4),
                data@ == s.subrange(4, 4 + i),
                self.buffer@ == s.skip(4 + i),
            decreases n - i,
        {
            let b = self.buffer.pop_front().unwrap();
            data.push(b);
            i = i + 1;
            assert(data@ =~= s.subrange(4, 4 + i));
            assert(self.buffer@ =~= s.skip(4 + i));
        }
        self.length = None;
        Some(data)
    }
}

/// The parts of a socket address: the octets of its IP address and its port.
#[allow(inconsistent_fields)]
#[derive(Debug, Clone, Copy, PartialEq, Eq)]
pub enum SocketParts {
    V4 { ip: [u8; 4], port: u16 },
    V6 { ip: [u8; 16], port: u16 },
}

/// The compact bytes of a socket address: the octets of its IP address, then
/// its port in two big-endian bytes.
pub open spec fn spec_socket_bytes(p: SocketParts) -> Seq<u8> {
    match p {
        SocketParts::V4 { ip, port } => ip@ + be16_bytes(port),
        SocketParts::V6 { ip, port } => ip@ + be16_bytes(port),
    }
}

/// The socket address of compact bytes: six bytes hold an IPv4 address and a
/// port, eighteen an IPv6 address and a port; no other length is one.
pub open spec fn spec_parse_socket(b: Seq<u8>) -> Option<SocketParts> {
    if b.len() == 6 {
        Some(
            SocketParts::V4 {
                ip: choose|ip: [u8; 4]| ip@ == b.subrange(0, 4),
                port: be16_value(b[4], b[5]),
            },
        )
    } else if b.len() == 18 {
        Some(
            SocketParts::V6 {
                ip: choose|ip: [u8; 16]| ip@ == b.subrange(0, 16),
                port: be16_value(b[16], b[17]),
            },
        )
    } else {
        None
    }
}

/// Pushes the two big-endian bytes of `x`.
fn push_u16_be(v: &mut Vec<u8>, x: u16)
    ensures
        final(v)@ == old(v)@ + be16_bytes(x),
{
    v.push((x >> 8u16) as u8);
    v.push(x as u8);
    assert(final(v)@ =~= old(v)@ + be16_bytes(x));
}

/// The compact bytes of a socket address.
pub fn socket_bytes(p: &SocketParts) -> (r: Vec<u8>)
    ensures
        r@ == spec_socket_bytes(*p),
{
    let mut r: Vec<u8> = Vec::new();
    match p {
        SocketParts::V4 { ip, port } => {
            let mut i: usize = 0;
            while i < 4
                invariant
                    i <= 4,
                    r@ == ip@.subrange(0, i as int),
                decreases 4 - i,
            {
                r.push(ip[i]);
                i = i + 1;
                assert(r@ =~= ip@.subrange(0, i as int));
            }
            assert(ip@.subrange(0, 4) =~= ip@);
            push_u16_be(&mut r, *port);
        },
        SocketParts::V6 { ip, port } => {
            let mut i: usize = 0;
            while i < 16
                invariant
                    i <= 16,
                    r@ == ip@.subrange(0, i as int),
                decreases 16 - i,
            {
                r.push(ip[i]);
                i = i + 1;
                assert(r@ =~= ip@.subrange(0, i as int));
            }
            assert(ip@.subrange(0, 16) =~= ip@);
            push_u16_be(&mut r, *port);
        },
    }
    r
}

/// The address of a socket, as the compact bytes it travels as.
pub fn socket_address(p: &SocketParts) -> (r: AddressRepr)
    ensures
        r matches AddressRepr::Bytes(b) && b@ == spec_socket_bytes(*p),
{
    AddressRepr::Bytes(socket_bytes(p))
}

/// Reads a socket address back from its compact bytes; any length but six or
/// eighteen bytes is an invalid address.
pub fn parse_socket_bytes(b: &[u8]) -> (r: Result<SocketParts, TcpLinkError>)
    ensures
        spec_parse_socket(b@) matches Some(p) ==> r matches Ok(q) && q == p,
        spec_parse_socket(b@) is None ==> r matches Err(TcpLinkError::InvalidAddr),
{
    if b.len() == 6 {
        let ip: [u8; 4] = [b[0], b[1], b[2], b[3]];
        let port: u16 = ((b[4] as u16) << 8u16) | (b[5] as u16);
        proof {
            assert(ip@ =~= b@.subrange(0, 4));
            let c = choose|c: [u8; 4]| c@ == b@.subrange(0, 4);
            assert(c@ == b@.subrange(0, 4));
            assert(c@ =~= ip@);
            assert(c == ip);
        }
        Ok(SocketParts::V4 { ip, port })
    } else if b.len() == 18 {
        let ip: [u8; 16] = [
            b[0],
            b[1],
            b[2],
            b[3],
            b[4],
            b[5],
            b[6],
            b[7],
            b[8],
            b[9],
            b[10],
            b[11],
            b[12],
            b[13],
            b[14],
            b[15],
        ];
        let port: u16 = ((b[16] as u16) << 8u16) | (b[17] as u16);
        proof {
            assert(ip@ =~= b@.subrange(0, 16));
            let c = choose|c: [u8; 16]| c@ == b@.subrange(0, 16);
            assert(c@ == b@.subrange(0, 16));
            assert(c@ =~= ip@);
            assert(c == ip);
        }
        Ok(SocketParts::V6 { ip, port })
    } else {
        Err(TcpLinkError::InvalidAddr)
    }
}

/// Reading back the compact bytes of a socket address gives the address.
pub proof fn lemma_socket_round_trip(p: SocketParts)
    ensures
        spec_parse_socket(spec_socket_bytes(p)) == Some(p),
{
    let b = spec_socket_bytes(p);
    match p {
        SocketParts::V4 { ip, port } => {
            lemma_be16_round_trip(port);
            assert(b.subrange(0, 4) =~= ip@);
            let c = choose|c: [u8; 4]| c@ == b.subrange(0, 4);
            assert(c@ == b.subrange(0, 4));
            assert(c@ =~= ip@);
            assert(c == ip);
            assert(b.len() == 6);
            assert(b[4] == be16_bytes(port)[0] && b[5] == be16_bytes(port)[1]);
        },
        SocketParts::V6 { ip, port } => {
            lemma_be16_round_trip(port);
            assert(b.subrange(0, 16) =~= ip@);
            let c = choose|c: [u8; 16]| c@ == b.subrange(0, 16);
            assert(c@ == b.subrange(0, 16));
            assert(c@ =~= ip@);
            assert(c == ip);
            assert(b.len() == 18);
            assert(b[16] == be16_bytes(port)[0] && b[17] == be16_bytes(port)[1]);
        },
    }
}

/// Where a TCP link connects to: a host name to resolve, or a socket
/// address.
pub enum ConnectTarget {
    Host(String),
    Socket(SocketParts),
}

/// Where a TCP link to `addr` connects: a text address names a host, and
/// bytes are read as a socket address; bytes of any other length are an
/// invalid address.
pub fn connect_target(addr: AddressRepr) -> (r: Result<ConnectTarget, TcpLinkError>)
    ensures
        addr matches AddressRepr::String(s) ==> r matches Ok(ConnectTarget::Host(h)) && h@ == s@,
        addr matches AddressRepr::Bytes(b) ==> {
            &&& spec_parse_socket(b@) matches Some(p) ==> r matches Ok(ConnectTarget::Socket(q))
                && q == p
            &&& spec_parse_socket(b@) is None ==> r matches Err(TcpLinkError::InvalidAddr)
        },
{
    match addr {
        AddressRepr::String(s) => Ok(ConnectTarget::Host(s)),
        AddressRepr::Bytes(b) => match parse_socket_bytes(b.as_slice()) {
            Ok(p) => Ok(ConnectTarget::Socket(p)),
            Err(e) => Err(e),
        },
    }
}

} // verus!
