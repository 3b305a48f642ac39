use link_set::error::LinkSetError;
use link_set::links::address::{Address, AddressRepr};

fn text(s: &str) -> AddressRepr {
    AddressRepr::from(String::from(s))
}

#[test]
fn string_round_trip() {
    let addr = Address::new("test_scheme", text("test_addr"));

    let displayed_addr = addr.to_string();

    let parsed_addr: Address = displayed_addr.parse().expect("address should round-trip");

    assert_eq!(addr, parsed_addr, "addresses should match");
}

#[test]
fn parse_string_default() {
    let displayed_addr = String::from("test_scheme:192.168.0.1:8080");

    let parsed_addr: Address = displayed_addr.parse().expect("address should round-trip");

    assert_eq!(parsed_addr.scheme(), "test_scheme");

    let parsed_addr_string = parsed_addr.addr_string().unwrap();
    assert_eq!(parsed_addr_string, "192.168.0.1:8080");
}

#[test]
fn parse_string_default_txt() {
    let displayed_addr = String::from("test_scheme:txt:192.168.0.1:8080");

    let parsed_addr: Address = displayed_addr.parse().expect("address should round-trip");

    assert_eq!(parsed_addr.scheme(), "test_scheme");

    let parsed_addr_string = parsed_addr.addr_string().unwrap();
    assert_eq!(parsed_addr_string, "192.168.0.1:8080");
}

#[test]
fn parse_string_empty_txt() {
    let displayed_addr = String::from("test_scheme:txt:");

    let parsed_addr: Address = displayed_addr.parse().expect("address should round-trip");

    assert_eq!(parsed_addr.scheme(), "test_scheme");

    let parsed_addr_string = parsed_addr.addr_string().unwrap();
    assert_eq!(parsed_addr_string, "");
}

#[test]
fn parse_string_default_b64() {
    let displayed_addr = String::from("test_scheme:b64:MTkyLjE2OC4wLjE6ODA4MA==");

    let parsed_addr: Address = displayed_addr.parse().expect("address should round-trip");

    assert_eq!(parsed_addr.scheme(), "test_scheme");

    let parsed_addr_bytes = parsed_addr.addr_bytes().unwrap();
    assert_eq!(parsed_addr_bytes, b"192.168.0.1:8080");
}

#[test]
fn parse_string_empty_b64() {
    let displayed_addr = String::from("test_scheme:b64:");

    let parsed_addr: Address = displayed_addr.parse().expect("address should round-trip");

    assert_eq!(parsed_addr.scheme(), "test_scheme");

    let parsed_addr_bytes = parsed_addr.addr_bytes().unwrap();
    assert_eq!(parsed_addr_bytes, b"");
}

#[test]
fn display_round_trip() {
    let addr = Address::new("test_scheme", text("test_addr"));

    let displayed_addr = addr.to_string();

    let parsed_addr: Address = displayed_addr.parse().expect("address should round-trip");

    assert_eq!(addr, parsed_addr, "addresses should match");
}

#[test]
fn compact_bytes_round_trip() {
    let addr = Address::new("test_scheme", text("test_addr"));

    let bytes = addr.to_bytes();

    let parsed_addr = Address::from_bytes(&bytes).expect("address should round-trip");

    assert_eq!(addr, parsed_addr, "addresses should match");
}

#[test]
fn empty_compact_bytes_round_trip() {
    let addr = Address::new("test_scheme", text(""));

    let bytes = addr.to_bytes();

    let parsed_addr = Address::from_bytes(&bytes).expect("address should round-trip");

    assert_eq!(addr, parsed_addr, "addresses should match");
}

#[test]
fn empty_compact_bytes_input() {
    let bytes = b"test_scheme:";

    let parsed_addr = Address::from_bytes(bytes);
    println!("{:?}", parsed_addr);
}

#[test]
fn empty_compact_bytes_input_is_eof() {
    let parsed_addr = Address::from_bytes(b"test_scheme:");
    assert_eq!(parsed_addr, Err(LinkSetError::DeserializeEOF));
}

#[test]
fn compact_bytes_without_colon_is_eof() {
    assert_eq!(Address::from_bytes(b"no_colon_here"), Err(LinkSetError::DeserializeEOF));
    assert_eq!(Address::from_bytes(b""), Err(LinkSetError::DeserializeEOF));
}

#[test]
fn compact_bytes_exact_form() {
    let addr = Address::new("tcp", text("ab"));
    assert_eq!(addr.to_bytes(), b"tcp:\x00ab".to_vec());

    let addr = Address::new("tcp", AddressRepr::from(vec![7u8, 0, 255]));
    assert_eq!(addr.to_bytes(), vec![b't', b'c', b'p', b':', 1, 7, 0, 255]);
}

#[test]
fn compact_bytes_bytes_round_trip() {
    let addr = Address::new("s", AddressRepr::from(vec![1u8, 2, 3, 58, 0]));
    let parsed = Address::from_bytes(&addr.to_bytes()).expect("bytes address should round-trip");
    assert_eq!(parsed, addr);
    assert_eq!(parsed.addr_bytes().unwrap(), &[1u8, 2, 3, 58, 0][..]);
}

#[test]
fn compact_bytes_unknown_symbol() {
    assert_eq!(
        Address::from_bytes(b"s:\x07abc"),
        Err(LinkSetError::DeserializeInvalid(7))
    );
}

#[test]
fn compact_bytes_invalid_utf8() {
    // The scheme is not UTF-8: the error names the byte at the colon.
    assert_eq!(
        Address::from_bytes(&[0xff, b':', 0, b'a']),
        Err(LinkSetError::DeserializeInvalid(b':'))
    );
    // The text is not UTF-8: the error names the symbol byte.
    assert_eq!(
        Address::from_bytes(&[b's', b':', 0, 0xff]),
        Err(LinkSetError::DeserializeInvalid(0))
    );
}

#[test]
fn display_of_bytes_is_url_safe_base64() {
    let addr = Address::new("test_scheme", AddressRepr::from(b"192.168.0.1:8080".to_vec()));
    assert_eq!(addr.to_string(), "test_scheme:b64:MTkyLjE2OC4wLjE6ODA4MA==");

    let addr = Address::new("s", AddressRepr::from(vec![0xfbu8, 0xff]));
    assert_eq!(addr.to_string(), "s:b64:-_8=");
    let parsed: Address = "s:b64:-_8=".parse().expect("url-safe base64 should parse");
    assert_eq!(parsed, addr);
}

#[test]
fn display_of_text() {
    let addr = Address::new("tcp", text("1.2.3.4:5"));
    assert_eq!(addr.to_string(), "tcp:txt:1.2.3.4:5");
}

#[test]
fn parse_unknown_repr_keeps_remainder() {
    let parsed: Address = "s:zzz:rest".parse().expect("should parse");
    assert_eq!(parsed.scheme(), "s");
    assert_eq!(parsed.addr_string().unwrap(), "zzz:rest");
}

#[test]
fn parse_without_colon_fails() {
    assert!("no colon".parse::<Address>().is_err());
    assert!(Address::parse("").is_err());
}

#[test]
fn parse_invalid_b64_fails() {
    assert!(Address::parse("s:b64:!!!").is_err());
}

#[test]
fn wrong_representation_is_an_error() {
    let addr = Address::new("s", text("x"));
    assert_eq!(
        addr.addr_bytes(),
        Err(LinkSetError::IncorrectAddrType {
            expected: String::from("bytes"),
            found: String::from("string"),
        })
    );
    let addr = Address::new("s", AddressRepr::from(vec![1u8]));
    assert_eq!(
        addr.addr_string(),
        Err(LinkSetError::IncorrectAddrType {
            expected: String::from("string"),
            found: String::from("bytes"),
        })
    );
}

#[test]
fn display_round_trip_of_bytes() {
    let addr = Address::new("udp", AddressRepr::from(vec![0u8, 1, 2, 250, 251, 255]));
    let parsed: Address = addr.to_string().parse().expect("byte addresses should round-trip");
    assert_eq!(parsed, addr);
}
