use vstd::prelude::*;
use vstd::string::StringSliceAdditionalSpecFns;
use vstd::utf8::*;

use crate::error::{LinkSetError, LinkSetResult};

verus! {

/// How an address is held: as text, or as raw bytes.
#[derive(Debug, Clone, PartialEq, Eq, Hash)]
pub enum AddressRepr {
    String(String),
    Bytes(Vec<u8>),
}

/// The content of an [AddressRepr].
pub enum AddressReprView {
    Text(Seq<char>),
    Bytes(Seq<u8>),
}

impl View for AddressRepr {
    type V = AddressReprView;

    open spec fn view(&self) -> AddressReprView {
        match self {
            AddressRepr::String(s) => AddressReprView::Text(s@),
            AddressRepr::Bytes(b) => AddressReprView::Bytes(b@),
        }
    }
}

/// The byte that marks a text address in the compact form.
pub const STRING_SYMBOL: u8 = 0;

/// The byte that marks a byte address in the compact form.
pub const BYTES_SYMBOL: u8 = 1;

/// The byte of `:`.
pub const COLON: u8 = 58;

impl From<String> for AddressRepr {
    fn from(value: String) -> (r: AddressRepr) {
        AddressRepr::String(value)
    }
}

impl vstd::std_specs::convert::FromSpecImpl<String> for AddressRepr {
    open spec fn obeys_from_spec() -> bool {
        true
    }

    open spec fn from_spec(v: String) -> AddressRepr {
        AddressRepr::String(v)
    }
}

impl From<Vec<u8>> for AddressRepr {
    fn from(value: Vec<u8>) -> (r: AddressRepr) {
        AddressRepr::Bytes(value)
    }
}

impl vstd::std_specs::convert::FromSpecImpl<Vec<u8>> for AddressRepr {
    open spec fn obeys_from_spec() -> bool {
        true
    }

    open spec fn from_spec(v: Vec<u8>) -> AddressRepr {
        AddressRepr::Bytes(v)
    }
}

/// The error of [AddressRepr::addr_string] and [AddressRepr::addr_bytes]: the
/// address held the `found` kind where the `expected` one was asked for.
pub open spec fn is_type_error(r: LinkSetError, expected: Seq<char>, found: Seq<char>) -> bool {
    match r {
        LinkSetError::IncorrectAddrType { expected: e, found: f } => e@ == expected && f@ == found,
        _ => false,
    }
}

impl AddressRepr {
    /// The text of the address, or an error if it is held as bytes.
    pub fn addr_string(&self) -> (r: LinkSetResult<&str>)
        ensures
            r is Ok <==> self@ is Text,
            r matches Ok(s) ==> self@ == AddressReprView::Text(s@),
            r matches Err(e) ==> is_type_error(e, "string"@, "bytes"@),
    {
        match self {
            AddressRepr::String(s) => Ok(s.as_str()),
            AddressRepr::Bytes(_) => Err(
                LinkSetError::IncorrectAddrType {
                    expected: "string".to_owned(),
                    found: "bytes".to_owned(),
                },
            ),
        }
    }

    /// The bytes of the address, or an error if it is held as text.
    pub fn addr_bytes(&self) -> (r: LinkSetResult<&[u8]>)
        ensures
            r is Ok <==> self@ is Bytes,
            r matches Ok(b) ==> self@ == AddressReprView::Bytes(b@),
            r matches Err(e) ==> is_type_error(e, "bytes"@, "string"@),
    {
        match self {
            AddressRepr::String(_) => Err(
                LinkSetError::IncorrectAddrType {
                    expected: "bytes".to_owned(),
                    found: "string".to_owned(),
                },
            ),
            AddressRepr::Bytes(b) => Ok(b.as_slice()),
        }
    }
}

/// An address that is tagged with the transport scheme it belongs with.
///
/// Written as "scheme:txt:addr" for a text address and "scheme:b64:addr",
/// URL-safe base64, for a byte address.
#[derive(Debug, Clone, PartialEq, Eq, Hash)]
pub struct Address {
    scheme: String,
    addr: AddressRepr,
}

/// The content of an [Address].
pub struct AddressView {
    pub scheme: Seq<char>,
    pub addr: AddressReprView,
}

impl View for Address {
    type V = AddressView;

    closed spec fn view(&self) -> AddressView {
        AddressView { scheme: self.scheme@, addr: self.addr@ }
    }
}

/// The position of the first `:` byte of `b` at or after `i`.
pub open spec fn colon_from(b: Seq<u8>, i: int) -> Option<int>
    decreases b.len() - i,
{
    if i < 0 || i >= b.len() {
        None
    } else if b[i] == COLON {
        Some(i)
    } else {
        colon_from(b, i + 1)
    }
}

/// The position of the first `:` byte of `b`.
pub open spec fn first_colon(b: Seq<u8>) -> Option<int> {
    colon_from(b, 0)
}

/// The compact byte form of an address: the scheme's UTF-8 bytes, `:`, a
/// symbol byte for the kind of address, and the address's bytes.
pub open spec fn spec_to_bytes(a: AddressView) -> Seq<u8> {
    encode_utf8(a.scheme) + seq![COLON] + match a.addr {
        AddressReprView::Text(s) => seq![STRING_SYMBOL] + encode_utf8(s),
        AddressReprView::Bytes(b) => seq![BYTES_SYMBOL] + b,
    }
}

/// Reading the compact byte form: the scheme runs to the first `:`, which
/// must be followed by a symbol byte; text must be valid UTF-8.
pub open spec fn spec_from_bytes(b: Seq<u8>) -> Result<AddressView, LinkSetError> {
    match first_colon(b) {
        None => Err(LinkSetError::DeserializeEOF),
        Some(d) => if b.len() < d + 2 {
            Err(LinkSetError::DeserializeEOF)
        } else if !valid_utf8(b.subrange(0, d)) {
            Err(LinkSetError::DeserializeInvalid(b[d]))
        } else {
            let scheme = decode_utf8(b.subrange(0, d));
            let rest = b.subrange(d + 2, b.len() as int);
            if b[d + 1] == STRING_SYMBOL {
                if valid_utf8(rest) {
                    Ok(AddressView { scheme, addr: AddressReprView::Text(decode_utf8(rest)) })
                } else {
                    Err(LinkSetError::DeserializeInvalid(b[d + 1]))
                }
            } else if b[d + 1] == BYTES_SYMBOL {
                Ok(AddressView { scheme, addr: AddressReprView::Bytes(rest) })
            } else {
                Err(LinkSetError::DeserializeInvalid(b[d + 1]))
            }
        },
    }
}

/// The view of a read result.
pub open spec fn address_result_view(r: LinkSetResult<Address>) -> Result<AddressView, LinkSetError> {
    match r {
        Ok(a) => Ok(a@),
        Err(e) => Err(e),
    }
}

/// The bytes that the scheme and kind markers "txt" and "b64" are written
/// with.
pub open spec fn txt_bytes() -> Seq<u8> {
    seq![116u8, 120u8, 116u8]
}

pub open spec fn b64_bytes() -> Seq<u8> {
    seq![98u8, 54u8, 52u8]
}

/// The written form of an address: "scheme:txt:addr" for text,
/// "scheme:b64:addr" with URL-safe base64 for bytes.
pub open spec fn spec_display(a: AddressView) -> Seq<char> {
    match a.addr {
        AddressReprView::Text(s) => a.scheme + seq![':', 't', 'x', 't', ':'] + s,
        AddressReprView::Bytes(b) => a.scheme + seq![':', 'b', '6', '4', ':'] + url_safe_encode(b),
    }
}

/// Text read from the bytes `b`, where they are valid UTF-8.
pub open spec fn text_of(b: Seq<u8>) -> Option<AddressReprView> {
    if valid_utf8(b) {
        Some(AddressReprView::Text(decode_utf8(b)))
    } else {
        None
    }
}

/// Reading the written form from its UTF-8 bytes: the scheme runs to the first
/// `:`; what follows is the address, read as text unless it starts with
/// "txt:" (the text after it) or "b64:" (the bytes that the URL-safe base64
/// after it decodes to; nothing where it does not decode).
pub open spec fn spec_parse(b: Seq<u8>) -> Option<AddressView> {
    match first_colon(b) {
        None => None,
        Some(i) => {
            let scheme_bytes = b.subrange(0, i);
            let rem = b.subrange(i + 1, b.len() as int);
            let repr = match first_colon(rem) {
                Some(j) => {
                    let kind = rem.subrange(0, j);
                    let addr = rem.subrange(j + 1, rem.len() as int);
                    if kind == txt_bytes() {
                        text_of(addr)
                    } else if kind == b64_bytes() {
                        match url_safe_decode(addr) {
                            Some(v) => Some(AddressReprView::Bytes(v)),
                            None => None,
                        }
                    } else {
                        text_of(rem)
                    }
                },
                None => text_of(rem),
            };
            if !valid_utf8(scheme_bytes) {
                None
            } else {
                match repr {
                    Some(r) => Some(AddressView { scheme: decode_utf8(scheme_bytes), addr: r }),
                    None => None,
                }
            }
        },
    }
}

/// What `base64::engine::general_purpose::URL_SAFE` encodes `bytes` to.
pub uninterp spec fn url_safe_encode(bytes: Seq<u8>) -> Seq<char>;

/// What `base64::engine::general_purpose::URL_SAFE` decodes the bytes of
/// `input` to, where they decode.
pub uninterp spec fn url_safe_decode(input: Seq<u8>) -> Option<Seq<u8>>;

/// Encodes `bytes` in URL-safe base64.
///
/// Calls `base64::Engine::encode(&URL_SAFE, bytes)`. States that the result is
/// the encoding named `url_safe_encode`, and that decoding its UTF-8 bytes with
/// the same engine gives the bytes back.
#[verifier::external_body]
fn b64_encode(bytes: &[u8]) -> (r: String)
    ensures
        r@ == url_safe_encode(bytes@),
        url_safe_decode(encode_utf8(r@)) == Some(bytes@),
{
    base64::Engine::encode(&base64::engine::general_purpose::URL_SAFE, bytes)
}

/// Decodes URL-safe base64.
///
/// Calls `base64::Engine::decode(&URL_SAFE, input)`. States that the result
/// is the decoding named `url_safe_decode`; nothing is stated of which inputs
/// decode.
#[verifier::external_body]
fn b64_decode(input: &[u8]) -> (r: Option<Vec<u8>>)
    ensures
        r is Some <==> url_safe_decode(input@) is Some,
        r matches Some(v) ==> url_safe_decode(input@) == Some(v@),
{
    base64::Engine::decode(&base64::engine::general_purpose::URL_SAFE, input).ok()
}

/// Builds a string from UTF-8 bytes.
///
/// Calls `String::from_utf8`, which succeeds exactly on valid UTF-8 and keeps
/// the characters that the bytes encode.
#[verifier::external_body]
fn string_from_utf8(bytes: Vec<u8>) -> (r: Option<String>)
    ensures
        r is Some <==> valid_utf8(bytes@),
        r matches Some(s) ==> s@ == decode_utf8(bytes@),
{
    String::from_utf8(bytes).ok()
}

/// Appends the bytes of `s`.
fn push_all(v: &mut Vec<u8>, s: &[u8])
    ensures
        final(v)@ == old(v)@ + s@,
{
    let mut i: usize = 0;
    while i < s.len()
        invariant
            0 <= i <= s@.len(),
            v@ =~= old(v)@ + s@.subrange(0, i as int),
        decreases s@.len() - i,
    {
        v.push(s[i]);
        i = i + 1;
    }
    assert(v@ =~= old(v)@ + s@);
}

/// The bytes of `s` from `from` up to `to`.
fn copy_range(s: &[u8], from: usize, to: usize) -> (r: Vec<u8>)
    requires
        from <= to <= s@.len(),
    ensures
        r@ == s@.subrange(from as int, to as int),
{
    let mut v: Vec<u8> = Vec::new();
    let mut i = from;
    while i < to
        invariant
            from <= i <= to <= s@.len(),
            v@ =~= s@.subrange(from as int, i as int),
        decreases to - i,
    {
        v.push(s[i]);
        i = i + 1;
    }
    v
}

/// The position of the first `:` in `b` at or after `start`.
fn find_colon(b: &[u8], start: usize) -> (r: Option<usize>)
    requires
        start <= b@.len(),
    ensures
        r matches Some(i) ==> colon_from(b@, start as int) == Some(i as int) && i < b@.len()
            && b@[i as int] == COLON,
        r is None ==> colon_from(b@, start as int) is None,
{
    proof {
        lemma_colon_from(b@, start as int);
    }
    let mut i = start;
    while i < b.len()
        invariant
            start <= i <= b@.len(),
            colon_from(b@, start as int) == colon_from(b@, i as int),
        decreases b@.len() - i,
    {
        if b[i] == COLON {
            return Some(i);
        }
        i = i + 1;
    }
    None
}

/// A `:` found from `i` on is the first at or after `i`.
proof fn lemma_colon_from(b: Seq<u8>, i: int)
    requires
        0 <= i,
    ensures
        colon_from(b, i) matches Some(k) ==> i <= k < b.len() && b[k] == COLON && forall|j: int|
            i <= j < k ==> b[j] != COLON,
        colon_from(b, i) is None ==> forall|j: int| i <= j < b.len() ==> b[j] != COLON,
    decreases b.len() - i,
{
    if i < b.len() && b[i] != COLON {
        lemma_colon_from(b, i + 1);
    }
}

/// The first `:` is where the bytes before it hold none and it is one.
proof fn lemma_first_colon_at(b: Seq<u8>, k: int)
    requires
        0 <= k < b.len(),
        b[k] == COLON,
        forall|j: int| 0 <= j < k ==> b[j] != COLON,
    ensures
        first_colon(b) == Some(k),
{
    lemma_colon_from(b, 0);
    match first_colon(b) {
        Some(m) => {
            if m < k {
                assert(b[m] != COLON);
            }
            if m > k {
                assert(b[k] != COLON);
            }
        },
        None => {
            assert(b[k] != COLON);
        },
    }
}

/// The encoding of concatenated characters is the concatenation of their
/// encodings.
pub proof fn lemma_encode_concat(a: Seq<char>, b: Seq<char>)
    ensures
        encode_utf8(a + b) == encode_utf8(a) + encode_utf8(b),
    decreases a.len(),
{
    if a.len() == 0 {
        assert(a + b =~= b);
    } else {
        assert((a + b).drop_first() =~= a.drop_first() + b);
        lemma_encode_concat(a.drop_first(), b);
    }
}

/// Only the character `:` encodes to a byte `:`.
pub proof fn lemma_encode_no_colon(s: Seq<char>)
    requires
        !s.contains(':'),
    ensures
        forall|j: int| 0 <= j < encode_utf8(s).len() ==> encode_utf8(s)[j] != COLON,
    decreases s.len(),
{
    if s.len() > 0 {
        let c = s[0] as u32;
        assert(s[0] != ':');
        char_is_scalar(s[0]);
        if c == 58u32 {
            char_u32_cast(s[0], c);
            char_u32_cast(':', 58u32);
        }
        let e = encode_scalar(c);
        assert forall|j: int| 0 <= j < e.len() implies e[j] != COLON by {
            if has_width_1_encoding(c) {
                assert(c != 58u32);
                assert(c <= 0x7f ==> c != 58 ==> (c & 0x7F) as u8 != 58u8) by (bit_vector);
            } else if has_width_2_encoding(c) {
                assert((0xC0u8 | ((c >> 6u32) & 0x1Fu32) as u8) != 58u8) by (bit_vector);
                assert((0x80u8 | (c & 0x3Fu32) as u8) != 58u8) by (bit_vector);
            } else if has_width_3_encoding(c) {
                assert((0xE0u8 | ((c >> 12u32) & 0x0Fu32) as u8) != 58u8) by (bit_vector);
                assert((0x80u8 | ((c >> 6u32) & 0x3Fu32) as u8) != 58u8) by (bit_vector);
                assert((0x80u8 | (c & 0x3Fu32) as u8) != 58u8) by (bit_vector);
            } else {
                assert((0xF0u8 | ((c >> 18u32) & 0x7u32) as u8) != 58u8) by (bit_vector);
                assert((0x80u8 | ((c >> 12u32) & 0x3Fu32) as u8) != 58u8) by (bit_vector);
                assert((0x80u8 | ((c >> 6u32) & 0x3Fu32) as u8) != 58u8) by (bit_vector);
                assert((0x80u8 | (c & 0x3Fu32) as u8) != 58u8) by (bit_vector);
            }
        }
        let rest = s.drop_first();
        assert forall|k: int| 0 <= k < rest.len() implies rest[k] != ':' by {
            assert(rest[k] == s[k + 1]);
        }
        lemma_encode_no_colon(rest);
        let all = encode_utf8(s);
        assert(all == e + encode_utf8(rest));
        assert forall|j: int| 0 <= j < all.len() implies all[j] != COLON by {
            if j < e.len() {
                assert(all[j] == e[j]);
            } else {
                assert(all[j] == encode_utf8(rest)[j - e.len()]);
            }
        }
    }
}

/// Whether two byte slices hold the same bytes.
fn bytes_equal(a: &[u8], b: &[u8]) -> (r: bool)
    ensures
        r == (a@ == b@),
{
    if a.len() != b.len() {
        return false;
    }
    let mut i: usize = 0;
    while i < a.len()
        invariant
            i <= a@.len(),
            a@.len() == b@.len(),
            a@.subrange(0, i as int) == b@.subrange(0, i as int),
        decreases a@.len() - i,
    {
        if a[i] != b[i] {
            assert(a@[i as int] != b@[i as int]);
            return false;
        }
        assert(a@.subrange(0, i + 1) =~= a@.subrange(0, i as int).push(a@[i as int]));
        assert(b@.subrange(0, i + 1) =~= b@.subrange(0, i as int).push(b@[i as int]));
        i = i + 1;
    }
    assert(a@ =~= a@.subrange(0, i as int));
    assert(b@ =~= b@.subrange(0, i as int));
    true
}

impl Address {
    /// Whether the two addresses are the same: the same scheme, and the same
    /// kind and content of address.
    pub fn same_as(&self, other: &Address) -> (r: bool)
        ensures
            r == (self@ == other@),
    {
        let same_scheme = self.scheme.eq(&other.scheme);
        if !same_scheme {
            return false;
        }
        match &self.addr {
            AddressRepr::String(a) => match &other.addr {
                AddressRepr::String(b) => a.eq(b),
                AddressRepr::Bytes(_) => false,
            },
            AddressRepr::Bytes(a) => match &other.addr {
                AddressRepr::String(_) => false,
                AddressRepr::Bytes(b) => bytes_equal(a.as_slice(), b.as_slice()),
            },
        }
    }

    /// Whether the address belongs with the scheme `scheme`.
    pub fn has_scheme(&self, scheme: &str) -> (r: bool)
        ensures
            r == (self@.scheme == scheme@),
    {
        let s = scheme.to_owned();
        self.scheme.eq(&s)
    }

    /// The address `addr` for the scheme `scheme`.
    pub fn new(scheme: &str, addr: AddressRepr) -> (r: Address)
        ensures
            r@ == (AddressView { scheme: scheme@, addr: addr@ }),
    {
        Address { scheme: scheme.to_owned(), addr }
    }

    /// The scheme of the transport the address belongs with.
    pub fn scheme(&self) -> (r: &str)
        ensures
            r@ == self@.scheme,
    {
        self.scheme.as_str()
    }

    /// The address within the scheme.
    pub fn addr(&self) -> (r: &AddressRepr)
        ensures
            r@ == self@.addr,
    {
        &self.addr
    }

    /// The text of the address, or an error if it is held as bytes.
    pub fn addr_string(&self) -> (r: LinkSetResult<&str>)
        ensures
            r is Ok <==> self@.addr is Text,
            r matches Ok(s) ==> self@.addr == AddressReprView::Text(s@),
            r matches Err(e) ==> is_type_error(e, "string"@, "bytes"@),
    {
        self.addr.addr_string()
    }

    /// The bytes of the address, or an error if it is held as text.
    pub fn addr_bytes(&self) -> (r: LinkSetResult<&[u8]>)
        ensures
            r is Ok <==> self@.addr is Bytes,
            r matches Ok(b) ==> self@.addr == AddressReprView::Bytes(b@),
            r matches Err(e) ==> is_type_error(e, "bytes"@, "string"@),
    {
        self.addr.addr_bytes()
    }

    /// The compact byte form of the address.
    pub fn to_bytes(&self) -> (ret: Vec<u8>)
        ensures
            ret@ == spec_to_bytes(self@),
    {
        let mut ret: Vec<u8> = Vec::new();
        push_all(&mut ret, self.scheme.as_str().as_bytes());
        ret.push(COLON);
        match &self.addr {
            AddressRepr::String(string) => {
                ret.push(STRING_SYMBOL);
                push_all(&mut ret, string.as_str().as_bytes());
            },
            AddressRepr::Bytes(bytes) => {
                ret.push(BYTES_SYMBOL);
                push_all(&mut ret, bytes.as_slice());
            },
        }
        assert(ret@ =~= spec_to_bytes(self@));
        ret
    }

    /// Reads the compact byte form of an address.
    pub fn from_bytes(bytes: &[u8]) -> (r: LinkSetResult<Address>)
        ensures
            address_result_view(r) == spec_from_bytes(bytes@),
    {
        let delim = match find_colon(bytes, 0) {
            Some(d) => d,
            None => {
                return Err(LinkSetError::DeserializeEOF);
            },
        };
        if bytes.len() - delim < 2 {
            return Err(LinkSetError::DeserializeEOF);
        }
        let scheme = match string_from_utf8(copy_range(bytes, 0, delim)) {
            Some(s) => s,
            None => {
                return Err(LinkSetError::DeserializeInvalid(bytes[delim]));
            },
        };
        let symbol = bytes[delim + 1];
        let addr_bytes = copy_range(bytes, delim + 2, bytes.len());
        let repr = if symbol == STRING_SYMBOL {
            match string_from_utf8(addr_bytes) {
                Some(s) => AddressRepr::String(s),
                None => {
                    return Err(LinkSetError::DeserializeInvalid(bytes[delim + 1]));
                },
            }
        } else if symbol == BYTES_SYMBOL {
            AddressRepr::Bytes(addr_bytes)
        } else {
            return Err(LinkSetError::DeserializeInvalid(symbol));
        };
        Ok(Address { scheme, addr: repr })
    }

    /// The written form of the address: "scheme:txt:addr" for text and
    /// "scheme:b64:addr", URL-safe base64, for bytes.
    pub fn to_string(&self) -> (r: String)
        ensures
            r@ == spec_display(self@),
            !self@.scheme.contains(':') ==> spec_parse(encode_utf8(r@)) == Some(self@),
    {
        let mut r = self.scheme.clone();
        match &self.addr {
            AddressRepr::String(addr) => {
                r.append(":txt:");
                r.append(addr.as_str());
                proof {
                    reveal_strlit(":txt:");
                }
                assert(r@ =~= spec_display(self@));
                proof {
                    if !self@.scheme.contains(':') {
                        lemma_display_round_trip(self@);
                    }
                }
            },
            AddressRepr::Bytes(bytes) => {
                let encoded = b64_encode(bytes.as_slice());
                r.append(":b64:");
                r.append(encoded.as_str());
                proof {
                    reveal_strlit(":b64:");
                }
                assert(r@ =~= spec_display(self@));
                proof {
                    if !self@.scheme.contains(':') {
                        lemma_display_round_trip(self@);
                    }
                }
            },
        }
        r
    }

    /// Reads the written form of an address.
    pub fn parse(s: &str) -> (r: Result<Address, AddressParseError>)
        ensures
            r is Ok <==> spec_parse(s.spec_bytes()) is Some,
            r matches Ok(a) ==> spec_parse(s.spec_bytes()) == Some(a@),
    {
        let b = s.as_bytes();
        let n = b.len();
        let i = match find_colon(b, 0) {
            Some(i) => i,
            None => {
                return Err(AddressParseError);
            },
        };
        let ghost bs = b@;
        let scheme_bytes = copy_range(b, 0, i);
        let rem = copy_range(b, i + 1, n);
        let rem_s = rem.as_slice();
        let repr = match find_colon(rem_s, 0) {
            Some(j) => {
                let kind = copy_range(rem_s, 0, j);
                let addr = copy_range(rem_s, j + 1, rem_s.len());
                if kind.len() == 3 && kind[0] == 116 && kind[1] == 120 && kind[2] == 116 {
                    assert(kind@ =~= txt_bytes());
                    match string_from_utf8(addr) {
                        Some(t) => Some(AddressRepr::String(t)),
                        None => None,
                    }
                } else if kind.len() == 3 && kind[0] == 98 && kind[1] == 54 && kind[2] == 52 {
                    assert(kind@ =~= b64_bytes());
                    assert(kind@ != txt_bytes());
                    match b64_decode(addr.as_slice()) {
                        Some(v) => Some(AddressRepr::Bytes(v)),
                        None => None,
                    }
                } else {
                    assert(kind@ != txt_bytes() && kind@ != b64_bytes());
                    match string_from_utf8(rem) {
                        Some(t) => Some(AddressRepr::String(t)),
                        None => None,
                    }
                }
            },
            None => {
                match string_from_utf8(rem) {
                    Some(t) => Some(AddressRepr::String(t)),
                    None => None,
                }
            },
        };
        let scheme = match string_from_utf8(scheme_bytes) {
            Some(t) => t,
            None => {
                return Err(AddressParseError);
            },
        };
        match repr {
            Some(addr) => Ok(Address { scheme, addr }),
            None => Err(AddressParseError),
        }
    }
}

/// The written form of an address could not be read: it held no `:`, or its
/// base64 was invalid.
#[derive(Debug)]
pub struct AddressParseError;

impl std::str::FromStr for Address {
    type Err = AddressParseError;

    fn from_str(s: &str) -> (r: Result<Address, AddressParseError>)
        ensures
            r is Ok <==> spec_parse(s.spec_bytes()) is Some,
            r matches Ok(a) ==> spec_parse(s.spec_bytes()) == Some(a@),
    {
        Address::parse(s)
    }
}

/// Reading back the compact byte form of an address whose scheme holds no `:`
/// gives the address.
pub proof fn lemma_bytes_round_trip(a: AddressView)
    requires
        !a.scheme.contains(':'),
    ensures
        spec_from_bytes(spec_to_bytes(a)) == Ok::<AddressView, LinkSetError>(a),
{
    let b = spec_to_bytes(a);
    let es = encode_utf8(a.scheme);
    lemma_encode_no_colon(a.scheme);
    lemma_first_colon_at(b, es.len() as int);
    assert(b.subrange(0, es.len() as int) =~= es);
    encode_utf8_valid_utf8(a.scheme);
    encode_utf8_decode_utf8(a.scheme);
    match a.addr {
        AddressReprView::Text(s) => {
            assert(b.subrange(es.len() as int + 2, b.len() as int) =~= encode_utf8(s));
            encode_utf8_valid_utf8(s);
            encode_utf8_decode_utf8(s);
        },
        AddressReprView::Bytes(v) => {
            assert(b.subrange(es.len() as int + 2, b.len() as int) =~= v);
        },
    }
}

/// Reading back the written form of an address whose scheme holds no `:`
/// gives the address.
pub proof fn lemma_display_round_trip(a: AddressView)
    requires
        !a.scheme.contains(':'),
        a.addr matches AddressReprView::Bytes(v) ==> url_safe_decode(
            encode_utf8(url_safe_encode(v)),
        ) == Some(v),
    ensures
        spec_parse(encode_utf8(spec_display(a))) == Some(a),
{
    let (marker, payload) = match a.addr {
        AddressReprView::Text(s) => (seq![':', 't', 'x', 't', ':'], s),
        AddressReprView::Bytes(v) => (seq![':', 'b', '6', '4', ':'], url_safe_encode(v)),
    };
    let d = spec_display(a);
    assert(d == a.scheme + marker + payload);
    lemma_encode_concat(a.scheme + marker, payload);
    lemma_encode_concat(a.scheme, marker);
    let es = encode_utf8(a.scheme);
    let em = encode_utf8(marker);
    let ep = encode_utf8(payload);
    assert(is_ascii_chars(marker));
    is_ascii_chars_encode_utf8(marker);
    assert(em.len() == 5);
    assert(em[0] == COLON && em[4] == COLON) by {
        assert(marker[0] as u8 == em[0]);
        assert(marker[4] as u8 == em[4]);
    }
    assert(em[1] == marker[1] as u8 && em[2] == marker[2] as u8 && em[3] == marker[3] as u8);
    let b = es + em + ep;
    assert(encode_utf8(d) == b);
    lemma_encode_no_colon(a.scheme);
    lemma_first_colon_at(b, es.len() as int);
    assert(b.subrange(0, es.len() as int) =~= es);
    let rem = b.subrange(es.len() as int + 1, b.len() as int);
    lemma_first_colon_at(rem, 3);
    assert(rem.subrange(0, 3) =~= em.subrange(1, 4));
    assert(rem.subrange(4, rem.len() as int) =~= ep);
    encode_utf8_valid_utf8(a.scheme);
    encode_utf8_decode_utf8(a.scheme);
    match a.addr {
        AddressReprView::Text(s) => {
            assert(rem.subrange(0, 3) =~= txt_bytes());
            encode_utf8_valid_utf8(s);
            encode_utf8_decode_utf8(s);
        },
        AddressReprView::Bytes(v) => {
            assert(rem.subrange(0, 3) =~= b64_bytes());
            assert(rem.subrange(0, 3) != txt_bytes());
        },
    }
}

} // verus!
