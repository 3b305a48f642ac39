use link_set::link_impls::tcp_link::{
    connect_target, frame_chunk, parse_socket_bytes, socket_address, socket_bytes, ChunkReader,
    ConnectTarget, SocketParts, TcpLinkError, TCP_MAX_SIZE, TCP_SCHEME,
};
use link_set::links::address::AddressRepr;

#[test]
fn frame_has_a_length_header() {
    assert_eq!(frame_chunk(b"abc"), vec![0, 0, 0, 3, b'a', b'b', b'c']);
    assert_eq!(frame_chunk(b""), vec![0, 0, 0, 0]);
    let big = vec![7u8; 300];
    let f = frame_chunk(&big);
    assert_eq!(&f[..4], &[0, 0, 1, 44]);
    assert_eq!(f.len(), 304);
    assert_eq!(TCP_MAX_SIZE, u32::MAX - 4);
    assert_eq!(TCP_SCHEME, "tcp");
}

#[test]
fn chunks_come_back_whole_and_in_order() {
    let mut stream = frame_chunk(b"hello");
    stream.extend(frame_chunk(b""));
    stream.extend(frame_chunk(b"world!"));
    let mut r = ChunkReader::new();
    let mut out = Vec::new();
    // feed one byte at a time
    for b in stream {
        r.feed(&[b]);
        while let Some(c) = r.next_chunk() {
            out.push(c);
        }
    }
    assert_eq!(out, vec![b"hello".to_vec(), Vec::new(), b"world!".to_vec()]);
    assert!(r.next_chunk().is_none());
}

#[test]
fn incomplete_chunk_waits() {
    let mut r = ChunkReader::new();
    r.feed(&[0, 0]);
    assert!(r.next_chunk().is_none());
    r.feed(&[0, 2, 9]);
    assert!(r.next_chunk().is_none());
    r.feed(&[8, 0, 0]);
    assert_eq!(r.next_chunk(), Some(vec![9, 8]));
    assert!(r.next_chunk().is_none());
    r.feed(&[0, 1, 5]);
    assert_eq!(r.next_chunk(), Some(vec![5]));
}

#[test]
fn socket_addresses_round_trip() {
    let v4 = SocketParts::V4 { ip: [192, 168, 0, 1], port: 8080 };
    let b = socket_bytes(&v4);
    assert_eq!(b, vec![192, 168, 0, 1, 0x1f, 0x90]);
    assert_eq!(parse_socket_bytes(&b).unwrap(), v4);

    let mut ip = [0u8; 16];
    ip[15] = 1;
    let v6 = SocketParts::V6 { ip, port: 443 };
    let b = socket_bytes(&v6);
    assert_eq!(b.len(), 18);
    assert_eq!(&b[16..], &[1, 187]);
    assert_eq!(parse_socket_bytes(&b).unwrap(), v6);

    match socket_address(&v4) {
        AddressRepr::Bytes(bytes) => assert_eq!(bytes, vec![192, 168, 0, 1, 0x1f, 0x90]),
        AddressRepr::String(_) => panic!("a socket address is held as bytes"),
    }
}

#[test]
fn other_lengths_are_invalid_addresses() {
    assert!(matches!(parse_socket_bytes(&[1, 2, 3]), Err(TcpLinkError::InvalidAddr)));
    assert!(matches!(parse_socket_bytes(&[]), Err(TcpLinkError::InvalidAddr)));
    assert!(matches!(parse_socket_bytes(&[0u8; 17]), Err(TcpLinkError::InvalidAddr)));
}

#[test]
fn connect_targets() {
    match connect_target(AddressRepr::String(String::from("example.org:80"))) {
        Ok(ConnectTarget::Host(h)) => assert_eq!(h, "example.org:80"),
        _ => panic!("text names a host"),
    }
    match connect_target(AddressRepr::Bytes(vec![10, 0, 0, 1, 0, 80])) {
        Ok(ConnectTarget::Socket(p)) => assert_eq!(p, SocketParts::V4 { ip: [10, 0, 0, 1], port: 80 }),
        _ => panic!("six bytes are an IPv4 socket"),
    }
    assert!(matches!(
        connect_target(AddressRepr::Bytes(vec![1, 2])),
        Err(TcpLinkError::InvalidAddr)
    ));
}
