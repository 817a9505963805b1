//! Lowercase hex encoding/decoding for fixed-width identifiers.

use vstd::prelude::*;
use vstd::utf8::is_ascii_chars;
use vstd::string::StringSliceAdditionalSpecFns;
use crate::text::push_char;

verus! {

/// The lowercase hex digit for a nibble.
pub open spec fn spec_nibble(value: u8) -> char {
    if value <= 9 {
        ((48 + value) as u8) as char
    } else {
        ((97 + value - 10) as u8) as char
    }
}

/// The value of a hex digit (either case), if it is one.
pub open spec fn spec_digit(byte: u8) -> Option<u8> {
    if 48 <= byte <= 57 {
        Some((byte - 48) as u8)
    } else if 97 <= byte <= 102 {
        Some((byte - 97 + 10) as u8)
    } else if 65 <= byte <= 70 {
        Some((byte - 65 + 10) as u8)
    } else {
        None
    }
}

/// The lowercase hex encoding of a byte sequence: two digits per byte, high
/// nibble first.
pub open spec fn spec_encode(bytes: Seq<u8>) -> Seq<char>
    decreases bytes.len(),
{
    if bytes.len() == 0 {
        Seq::empty()
    } else {
        spec_encode(bytes.drop_last()) + seq![
            spec_nibble(bytes.last() >> 4u8),
            spec_nibble(bytes.last() & 0x0fu8),
        ]
    }
}

/// Whether every byte of `s` is a hex digit.
pub open spec fn all_hex(s: Seq<u8>) -> bool {
    forall|i: int| 0 <= i < s.len() ==> (#[trigger] spec_digit(s[i])) is Some
}

/// The bytes spelled by pairs of hex digits.
pub open spec fn spec_decode(s: Seq<u8>) -> Seq<u8> {
    Seq::new(
        s.len() / 2,
        |i: int| ((spec_digit(s[2 * i])->0 * 16) + spec_digit(s[2 * i + 1])->0) as u8,
    )
}

/// The lowercase hex digit for a nibble.
pub fn nibble(value: u8) -> (c: char)
    requires
        value < 16,
    ensures
        c == spec_nibble(value),
{
    if value <= 9 {
        (48 + value) as char
    } else {
        (97 + value - 10) as char
    }
}

/// The value of a hex digit (either case), or `None`.
pub fn from_digit(byte: u8) -> (r: Option<u8>)
    ensures
        r == spec_digit(byte),
{
    if 48 <= byte && byte <= 57 {
        Some(byte - 48)
    } else if 97 <= byte && byte <= 102 {
        Some(byte - 97 + 10)
    } else if 65 <= byte && byte <= 70 {
        Some(byte - 65 + 10)
    } else {
        None
    }
}

/// Encode bytes as a lowercase hex string.
pub fn encode(bytes: &[u8]) -> (out: String)
    ensures
        out@ == spec_encode(bytes@),
        out@.len() == 2 * bytes@.len(),
{
    let mut out = String::new();
    let mut i: usize = 0;
    while i < bytes.len()
        invariant
            i <= bytes@.len(),
            out@ == spec_encode(bytes@.take(i as int)),
            out@.len() == 2 * i,
        decreases bytes@.len() - i,
    {
        let byte = bytes[i];
        proof {
            assert(bytes@.take(i + 1).drop_last() =~= bytes@.take(i as int));
            assert(bytes@.take(i + 1).last() == byte);
            assert(byte >> 4u8 < 16u8 && byte & 0x0fu8 < 16u8) by (bit_vector);
        }
        push_char(&mut out, nibble(byte >> 4));
        push_char(&mut out, nibble(byte & 0x0f));
        assert(out@ =~= spec_encode(bytes@.take(i + 1)));
        i = i + 1;
    }
    assert(bytes@.take(bytes@.len() as int) =~= bytes@);
    out
}

/// Decode a hex string into exactly `n` bytes, or `None` on a length
/// mismatch or any non-hex character.
pub fn decode(s: &str, n: usize) -> (r: Option<Vec<u8>>)
    ensures
        r is Some <==> s.spec_bytes().len() == 2 * n && all_hex(s.spec_bytes()),
        r matches Some(v) ==> v@ == spec_decode(s.spec_bytes()) && v@.len() == n,
{
    let bytes = s.as_bytes();
    let len = bytes.len();
    if n > usize::MAX / 2 || len != n * 2 {
        return None;
    }
    let mut out: Vec<u8> = Vec::new();
    let mut i: usize = 0;
    while i < n
        invariant
            bytes@ == s.spec_bytes(),
            bytes@.len() == 2 * n,
            i <= n,
            out@.len() == i,
            forall|j: int| 0 <= j < 2 * i ==> (#[trigger] spec_digit(bytes@[j])) is Some,
            forall|j: int| 0 <= j < i ==> out@[j] == #[trigger] spec_decode(bytes@)[j],
        decreases n - i,
    {
        let hi = match from_digit(bytes[2 * i]) {
            Some(d) => d,
            None => {
                return None;
            },
        };
        let lo = match from_digit(bytes[2 * i + 1]) {
            Some(d) => d,
            None => {
                return None;
            },
        };
        assert(hi < 16 && lo < 16);
        let byte: u8 = (hi << 4) | lo;
        proof {
            assert(hi < 16 && lo < 16 ==> (hi << 4u8) | lo == hi * 16 + lo) by (bit_vector);
        }
        out.push(byte);
        i = i + 1;
    }
    assert(out@ =~= spec_decode(bytes@));
    Some(out)
}

/// Every character of a hex encoding is an ASCII hex digit, and its byte
/// encoding decodes back to the encoded bytes.
pub proof fn lemma_decode_encode(bytes: Seq<u8>)
    ensures
        spec_encode(bytes).len() == 2 * bytes.len(),
        is_ascii_chars(spec_encode(bytes)),
        all_hex(Seq::new(spec_encode(bytes).len(), |i: int| spec_encode(bytes)[i] as u8)),
        spec_decode(Seq::new(spec_encode(bytes).len(), |i: int| spec_encode(bytes)[i] as u8))
            == bytes,
    decreases bytes.len(),
{
    let e = spec_encode(bytes);
    let as_bytes = Seq::new(e.len(), |i: int| e[i] as u8);
    if bytes.len() > 0 {
        let p = bytes.drop_last();
        lemma_decode_encode(p);
        let pe = spec_encode(p);
        let b = bytes.last();
        assert(b >> 4u8 < 16u8 && b & 0x0fu8 < 16u8) by (bit_vector);
        assert((b >> 4u8) * 16 + (b & 0x0fu8) == b) by (bit_vector);
        let hi = b >> 4u8;
        let lo = b & 0x0fu8;
        assert(spec_digit(spec_nibble(hi) as u8) == Some(hi));
        assert(spec_digit(spec_nibble(lo) as u8) == Some(lo));
        assert forall|i: int| 0 <= i < e.len() implies (#[trigger] spec_digit(as_bytes[i])) is Some
            by {
            if i < pe.len() {
                assert(e[i] == pe[i]);
                assert(Seq::new(pe.len(), |i: int| pe[i] as u8)[i] == as_bytes[i]);
            }
        }
        assert forall|i: int| 0 <= i < bytes.len() implies #[trigger] spec_decode(as_bytes)[i]
            == bytes[i] by {
            if i < p.len() {
                let pb = Seq::new(pe.len(), |i: int| pe[i] as u8);
                assert(pb[2 * i] == as_bytes[2 * i]);
                assert(pb[2 * i + 1] == as_bytes[2 * i + 1]);
                assert(spec_decode(pb)[i] == p[i]);
            }
        }
        assert(spec_decode(as_bytes) =~= bytes);
        assert forall|i: int| 0 <= i < e.len() implies '\0' <= #[trigger] e[i] <= '\u{7f}' by {
            if i < pe.len() {
                assert(e[i] == pe[i]);
            }
        }
    } else {
        assert(spec_decode(as_bytes) =~= bytes);
    }
    assert(is_ascii_chars(e));
}

} // verus!
