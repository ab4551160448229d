//! Identifiers as fend names them, and their CBOR form: a text string (major type 3)
//! whose header carries the UTF-8 length, followed by the UTF-8 bytes.

use vstd::prelude::*;
use vstd::std_specs::convert::FromSpecImpl;
use vstd::utf8::{decode_utf8, encode_utf8, encode_utf8_decode_utf8, encode_utf8_valid_utf8, valid_utf8};

verus! {

/// A name: of a variable, a unit, a function.
#[derive(Debug, Clone, PartialEq, Eq)]
pub struct Ident(String);

impl View for Ident {
    type V = Seq<char>;

    closed spec fn view(&self) -> Seq<char> {
        self.0@
    }
}

impl From<String> for Ident {
    /// An identifier of an owned name.
    fn from(value: String) -> (r: Ident)
        ensures
            r@ == value@,
    {
        Ident(value)
    }
}

impl FromSpecImpl<String> for Ident {
    open spec fn obeys_from_spec() -> bool {
        true
    }

    closed spec fn from_spec(v: String) -> Ident {
        Ident(v)
    }
}

impl From<&'static str> for Ident {
    /// An identifier of a static name.
    fn from(value: &'static str) -> (r: Ident)
        ensures
            r@ == value@,
    {
        Ident(value.to_string())
    }
}

impl FromSpecImpl<&'static str> for Ident {
    /// Two names with the same characters need not be the same `String` value, so no
    /// single identifier stands for the conversion; `from` states the name it keeps.
    open spec fn obeys_from_spec() -> bool {
        false
    }

    closed spec fn from_spec(v: &'static str) -> Ident {
        choose|i: Ident| i@ == v@
    }
}

/// The error of a read that does not find a well-formed UTF-8 CBOR text string.
#[derive(Debug, Clone, Copy, PartialEq, Eq, Structural)]
pub struct DeserializeError;

/// The CBOR header of major type `major` (given in its top three bits) with argument `n`,
/// in the shortest form.
pub open spec fn cbor_header(n: u64, major: u8) -> Seq<u8> {
    if n <= 0x17 {
        seq![(n as u8) | major]
    } else if n <= 0xff {
        seq![0x18u8 | major, n as u8]
    } else if n <= 0xffff {
        seq![0x19u8 | major, (n >> 8u64) as u8, n as u8]
    } else if n <= 0xffff_ffff {
        seq![0x1au8 | major, (n >> 24u64) as u8, (n >> 16u64) as u8, (n >> 8u64) as u8, n as u8]
    } else {
        seq![
            0x1bu8 | major,
            (n >> 56u64) as u8,
            (n >> 48u64) as u8,
            (n >> 40u64) as u8,
            (n >> 32u64) as u8,
            (n >> 24u64) as u8,
            (n >> 16u64) as u8,
            (n >> 8u64) as u8,
            n as u8,
        ]
    }
}

/// The CBOR text string of `s`.
pub open spec fn serialized(s: Seq<char>) -> Seq<u8> {
    cbor_header(encode_utf8(s).len() as u64, 0x60) + encode_utf8(s)
}

/// The argument of the CBOR header at the start of `b`, and the header's length, when
/// the header is complete and its additional information is not reserved.
pub open spec fn payload(b: Seq<u8>) -> Option<(u64, nat)> {
    let info = b[0] & 0x1f;
    if info <= 0x17 {
        Some((info as u64, 1))
    } else if info == 0x18 {
        if b.len() >= 2 { Some((b[1] as u64, 2)) } else { None }
    } else if info == 0x19 {
        if b.len() >= 3 { Some((((b[1] as u64) << 8u64) | (b[2] as u64), 3)) } else { None }
    } else if info == 0x1a {
        if b.len() >= 5 {
            Some((((b[1] as u64) << 24u64) | ((b[2] as u64) << 16u64) | ((b[3] as u64) << 8u64) | (b[4] as u64), 5))
        } else {
            None
        }
    } else if info == 0x1b {
        if b.len() >= 9 {
            Some((((b[1] as u64) << 56u64) | ((b[2] as u64) << 48u64) | ((b[3] as u64) << 40u64)
                | ((b[4] as u64) << 32u64) | ((b[5] as u64) << 24u64) | ((b[6] as u64) << 16u64)
                | ((b[7] as u64) << 8u64) | (b[8] as u64), 9))
        } else {
            None
        }
    } else {
        None
    }
}

/// What a read of an identifier finds at the start of `b`: the name and the number of
/// bytes it takes, when `b` starts with a complete CBOR text string of valid UTF-8.
pub open spec fn spec_deserialize(b: Seq<u8>) -> Option<(Seq<char>, nat)> {
    if b.len() == 0 || (b[0] & 0xe0) != 0x60 {
        None
    } else {
        match payload(b) {
            Some((len, h)) => {
                if h + len <= b.len() && valid_utf8(b.subrange(h as int, h + len)) {
                    Some((decode_utf8(b.subrange(h as int, h + len)), (h + len) as nat))
                } else {
                    None
                }
            },
            None => None,
        }
    }
}

/// The string of the UTF-8 bytes `v`, when they are valid UTF-8.
///
/// Calls `String::from_utf8`, which the standard library documents to return an error
/// exactly when the bytes are not valid UTF-8, and otherwise the string they encode.
#[verifier::external_body]
fn string_from_utf8(v: Vec<u8>) -> (r: Option<String>)
    ensures
        r is Some <==> valid_utf8(v@),
        r matches Some(s) ==> s@ == decode_utf8(v@),
{
    match String::from_utf8(v) {
        Ok(s) => Some(s),
        Err(_) => None,
    }
}

/// Appends the CBOR header of major type `major` with argument `n`.
fn write_header(write: &mut Vec<u8>, n: u64, major: u8)
    ensures
        final(write)@ == old(write)@ + cbor_header(n, major),
{
    if n <= 0x17 {
        write.push((n as u8) | major);
    } else if n <= 0xff {
        write.push(0x18u8 | major);
        write.push(n as u8);
    } else if n <= 0xffff {
        write.push(0x19u8 | major);
        write.push((n >> 8u64) as u8);
        write.push(n as u8);
    } else if n <= 0xffff_ffff {
        write.push(0x1au8 | major);
        write.push((n >> 24u64) as u8);
        write.push((n >> 16u64) as u8);
        write.push((n >> 8u64) as u8);
        write.push(n as u8);
    } else {
        write.push(0x1bu8 | major);
        write.push((n >> 56u64) as u8);
        write.push((n >> 48u64) as u8);
        write.push((n >> 40u64) as u8);
        write.push((n >> 32u64) as u8);
        write.push((n >> 24u64) as u8);
        write.push((n >> 16u64) as u8);
        write.push((n >> 8u64) as u8);
        write.push(n as u8);
    }
    assert(write@ =~= old(write)@ + cbor_header(n, major));
}

impl Ident {
    /// An identifier of a static name.
    pub fn new_str(s: &'static str) -> (r: Ident)
        ensures
            r@ == s@,
    {
        Ident(s.to_string())
    }

    /// An identifier of an owned name.
    pub fn new_string(s: String) -> (r: Ident)
        ensures
            r@ == s@,
    {
        Ident(s)
    }

    /// The name.
    pub fn as_str(&self) -> (r: &str)
        ensures
            r@ == self@,
    {
        self.0.as_str()
    }

    /// Whether the name is a unit written before its number: `$`, `£` or `¥`.
    pub fn is_prefix_unit(&self) -> (b: bool)
        ensures
            b == (self@ == seq!['$'] || self@ == seq!['\u{a3}'] || self@ == seq!['\u{a5}']),
    {
        let c = crate::text::chars_of(self.0.as_str());
        let b = c.len() == 1 && (c[0] == '$' || c[0] == '\u{a3}' || c[0] == '\u{a5}');
        proof {
            if b {
                assert(self@ =~= seq![c@[0]]);
            }
        }
        b
    }

    /// Appends the identifier as a CBOR text string.
    pub fn serialize(&self, write: &mut Vec<u8>)
        ensures
            final(write)@ == old(write)@ + serialized(self@),
    {
        let bytes = self.0.as_str().as_bytes();
        write_header(write, bytes.len() as u64, 0x60);
        let ghost mid = write@;
        let mut i: usize = 0;
        while i < bytes.len()
            invariant
                i <= bytes@.len(),
                bytes@ == encode_utf8(self@),
                write@ == mid + bytes@.take(i as int),
            decreases bytes@.len() - i,
        {
            write.push(bytes[i]);
            i = i + 1;
            assert(write@ =~= mid + bytes@.take(i as int));
        }
        assert(bytes@.take(i as int) =~= bytes@);
    }

    /// Reads an identifier from the start of `read`: a CBOR text string of valid UTF-8.
    /// Returns the identifier and the number of bytes read.
    pub fn deserialize(read: &[u8]) -> (r: Result<(Ident, usize), DeserializeError>)
        ensures
            match r {
                Ok((id, n)) => spec_deserialize(read@) == Some((id@, n as nat)),
                Err(_) => spec_deserialize(read@) is None,
            },
    {
        if read.len() == 0 || (read[0] & 0xe0) != 0x60 {
            return Err(DeserializeError);
        }
        let info = read[0] & 0x1f;
        let (len, h): (u64, usize) = if info <= 0x17 {
            (info as u64, 1)
        } else if info == 0x18 {
            if read.len() < 2 {
                return Err(DeserializeError);
            }
            (read[1] as u64, 2)
        } else if info == 0x19 {
            if read.len() < 3 {
                return Err(DeserializeError);
            }
            (((read[1] as u64) << 8u64) | (read[2] as u64), 3)
        } else if info == 0x1a {
            if read.len() < 5 {
                return Err(DeserializeError);
            }
            (((read[1] as u64) << 24u64) | ((read[2] as u64) << 16u64) | ((read[3] as u64) << 8u64)
                | (read[4] as u64), 5)
        } else if info == 0x1b {
            if read.len() < 9 {
                return Err(DeserializeError);
            }
            (((read[1] as u64) << 56u64) | ((read[2] as u64) << 48u64) | ((read[3] as u64) << 40u64)
                | ((read[4] as u64) << 32u64) | ((read[5] as u64) << 24u64) | ((read[6] as u64) << 16u64)
                | ((read[7] as u64) << 8u64) | (read[8] as u64), 9)
        } else {
            return Err(DeserializeError);
        };
        assert(payload(read@) == Some((len, h as nat)));
        if len > (read.len() - h) as u64 {
            return Err(DeserializeError);
        }
        let end = h + len as usize;
        let mut buf: Vec<u8> = Vec::new();
        let mut i: usize = h;
        while i < end
            invariant
                h <= i <= end <= read@.len(),
                buf@ == read@.subrange(h as int, i as int),
            decreases end - i,
        {
            buf.push(read[i]);
            i = i + 1;
            assert(buf@ =~= read@.subrange(h as int, i as int));
        }
        match string_from_utf8(buf) {
            Some(s) => Ok((Ident(s), end)),
            None => Err(DeserializeError),
        }
    }
}

/// A header written for `n` is read back as `n`, whatever follows it.
proof fn lemma_header_roundtrip(n: u64, rest: Seq<u8>)
    ensures
        (cbor_header(n, 0x60) + rest)[0] & 0xe0 == 0x60,
        payload(cbor_header(n, 0x60) + rest) == Some((n, cbor_header(n, 0x60).len())),
{
    let b = cbor_header(n, 0x60) + rest;
    if n <= 0x17 {
        let b0 = (n as u8) | 0x60u8;
        assert(b0 & 0xe0 == 0x60 && b0 & 0x1f == n as u8 && (n as u8) as u64 == n) by (bit_vector)
            requires n <= 0x17, b0 == (n as u8) | 0x60u8;
        assert(b[0] == b0);
    } else if n <= 0xff {
        assert((0x18u8 | 0x60u8) & 0xe0 == 0x60 && (0x18u8 | 0x60u8) & 0x1f == 0x18) by (bit_vector);
        assert((n as u8) as u64 == n) by (bit_vector)
            requires n <= 0xff;
        assert(b[0] == 0x18u8 | 0x60u8);
        assert(b[1] == n as u8);
    } else if n <= 0xffff {
        assert((0x19u8 | 0x60u8) & 0xe0 == 0x60 && (0x19u8 | 0x60u8) & 0x1f == 0x19) by (bit_vector);
        assert(((((n >> 8u64) as u8) as u64) << 8u64) | ((n as u8) as u64) == n) by (bit_vector)
            requires n <= 0xffff;
        assert(b[0] == 0x19u8 | 0x60u8);
        assert(b[1] == (n >> 8u64) as u8);
        assert(b[2] == n as u8);
    } else if n <= 0xffff_ffff {
        assert((0x1au8 | 0x60u8) & 0xe0 == 0x60 && (0x1au8 | 0x60u8) & 0x1f == 0x1a) by (bit_vector);
        assert(((((n >> 24u64) as u8) as u64) << 24u64) | ((((n >> 16u64) as u8) as u64) << 16u64)
            | ((((n >> 8u64) as u8) as u64) << 8u64) | ((n as u8) as u64) == n) by (bit_vector)
            requires n <= 0xffff_ffff;
        assert(b[0] == 0x1au8 | 0x60u8);
        assert(b[1] == (n >> 24u64) as u8);
        assert(b[2] == (n >> 16u64) as u8);
        assert(b[3] == (n >> 8u64) as u8);
        assert(b[4] == n as u8);
    } else {
        assert((0x1bu8 | 0x60u8) & 0xe0 == 0x60 && (0x1bu8 | 0x60u8) & 0x1f == 0x1b) by (bit_vector);
        assert(((((n >> 56u64) as u8) as u64) << 56u64) | ((((n >> 48u64) as u8) as u64) << 48u64)
            | ((((n >> 40u64) as u8) as u64) << 40u64) | ((((n >> 32u64) as u8) as u64) << 32u64)
            | ((((n >> 24u64) as u8) as u64) << 24u64) | ((((n >> 16u64) as u8) as u64) << 16u64)
            | ((((n >> 8u64) as u8) as u64) << 8u64) | ((n as u8) as u64) == n) by (bit_vector);
        assert(b[0] == 0x1bu8 | 0x60u8);
        assert(b[1] == (n >> 56u64) as u8);
        assert(b[2] == (n >> 48u64) as u8);
        assert(b[3] == (n >> 40u64) as u8);
        assert(b[4] == (n >> 32u64) as u8);
        assert(b[5] == (n >> 24u64) as u8);
        assert(b[6] == (n >> 16u64) as u8);
        assert(b[7] == (n >> 8u64) as u8);
        assert(b[8] == n as u8);
    }
}

/// Reading back what `serialize` wrote gives the same name and consumes exactly the
/// bytes written, whatever follows them.
pub proof fn lemma_serialize_roundtrip(s: Seq<char>, rest: Seq<u8>)
    requires
        encode_utf8(s).len() <= u64::MAX,
    ensures
        spec_deserialize(serialized(s) + rest) == Some((s, serialized(s).len())),
{
    let n = encode_utf8(s).len() as u64;
    let h = cbor_header(n, 0x60);
    let b = serialized(s) + rest;
    assert(b =~= h + (encode_utf8(s) + rest));
    lemma_header_roundtrip(n, encode_utf8(s) + rest);
    assert(b.subrange(h.len() as int, h.len() + n) =~= encode_utf8(s));
    encode_utf8_valid_utf8(s);
    encode_utf8_decode_utf8(s);
}

} // verus!
