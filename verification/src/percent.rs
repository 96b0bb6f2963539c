//! Percent-decoding of a URL path.

use vstd::prelude::*;
use vstd::utf8::*;
use crate::text::{string_from_utf8, PERCENT};

verus! {

/// Why a path could not be percent-decoded.
#[derive(Debug, Clone, Copy, PartialEq, Eq, Structural)]
pub enum DecodeFail {
    /// A `%` is not followed by two hexadecimal digits.
    BadEscape,
    /// The escape `%2F`, which would decode to a path separator.
    EncodedSlash,
    /// The decoded bytes are not well-formed UTF-8.
    NotUtf8,
}

/// The value of a hexadecimal digit given as an ASCII byte, in either case;
/// `None` for any other byte.
pub open spec fn hex_value(b: u8) -> Option<u8> {
    if 0x30 <= b <= 0x39 {
        Some((b - 0x30) as u8)
    } else if 0x41 <= b <= 0x46 {
        Some((b - 0x41 + 10) as u8)
    } else if 0x61 <= b <= 0x66 {
        Some((b - 0x61 + 10) as u8)
    } else {
        None
    }
}

/// What the escape at the front of `s` stands for, `s[0]` being `%`.
pub open spec fn escape_value(s: Seq<u8>) -> Result<u8, DecodeFail> {
    if s.len() < 3 {
        Err(DecodeFail::BadEscape)
    } else if s[1] == 0x32 && s[2] == 0x46 {
        Err(DecodeFail::EncodedSlash)
    } else {
        match (hex_value(s[1]), hex_value(s[2])) {
            (Some(high), Some(low)) => Ok((high * 16 + low) as u8),
            _ => Err(DecodeFail::BadEscape),
        }
    }
}

/// `front` put before what the rest decodes to, where the rest decodes.
pub open spec fn prepend(front: Seq<u8>, rest: Result<Seq<u8>, DecodeFail>) -> Result<
    Seq<u8>,
    DecodeFail,
> {
    match rest {
        Ok(t) => Ok(front + t),
        Err(e) => Err(e),
    }
}

/// The bytes that `s` decodes to, read from left to right: a byte other than
/// `%` stands for itself, `%` and two hexadecimal digits for the byte they
/// spell. The first escape that is cut short, misspelt or `%2F` fails the
/// whole.
pub open spec fn decoded_bytes(s: Seq<u8>) -> Result<Seq<u8>, DecodeFail>
    decreases s.len(),
{
    if s.len() == 0 {
        Ok(Seq::empty())
    } else if s[0] != PERCENT {
        prepend(seq![s[0]], decoded_bytes(s.skip(1)))
    } else {
        match escape_value(s) {
            Ok(v) => prepend(seq![v], decoded_bytes(s.skip(3))),
            Err(e) => Err(e),
        }
    }
}

/// The result of decoding `s` in full: its decoded bytes, which must be
/// well-formed UTF-8.
pub open spec fn decoded(s: Seq<u8>) -> Result<Seq<u8>, DecodeFail> {
    match decoded_bytes(s) {
        Ok(t) => if valid_utf8(t) {
            Ok(t)
        } else {
            Err(DecodeFail::NotUtf8)
        },
        Err(e) => Err(e),
    }
}

/// True where `s` holds the escape `%2F` at index `i`.
pub open spec fn encoded_slash_at(s: Seq<u8>, i: int) -> bool {
    &&& 0 <= i
    &&& i + 3 <= s.len()
    &&& s[i] == PERCENT
    &&& s[i + 1] == 0x32
    &&& s[i + 2] == 0x46
}

/// A path that holds `%2F` anywhere is never decoded: no `%2F` becomes a `/`.
pub proof fn lemma_encoded_slash_never_decoded(s: Seq<u8>, i: int)
    requires
        encoded_slash_at(s, i),
    ensures
        decoded_bytes(s) is Err,
        decoded(s) is Err,
    decreases s.len(),
{
    if s[0] != PERCENT {
        assert(encoded_slash_at(s.skip(1), i - 1));
        lemma_encoded_slash_never_decoded(s.skip(1), i - 1);
    } else if escape_value(s) is Ok {
        assert(i >= 3);
        assert(encoded_slash_at(s.skip(3), i - 3));
        lemma_encoded_slash_never_decoded(s.skip(3), i - 3);
    }
}

/// An escape is the only source of a byte that was not written out: a path
/// without `%` decodes to itself.
pub proof fn lemma_plain_decodes_to_itself(s: Seq<u8>)
    requires
        forall|i: int| 0 <= i < s.len() ==> s[i] != PERCENT,
    ensures
        decoded_bytes(s) == Ok::<Seq<u8>, DecodeFail>(s),
    decreases s.len(),
{
    if s.len() > 0 {
        lemma_plain_decodes_to_itself(s.skip(1));
        assert(seq![s[0]] + s.skip(1) == s);
    } else {
        assert(s == Seq::<u8>::empty());
    }
}

/// The value of a hexadecimal digit given as an ASCII byte.
pub fn hex_digit(b: u8) -> (r: Option<u8>)
    ensures
        r == hex_value(b),
{
    if 0x30 <= b && b <= 0x39 {
        Some(b - 0x30)
    } else if 0x41 <= b && b <= 0x46 {
        Some(b - 0x41 + 10)
    } else if 0x61 <= b && b <= 0x66 {
        Some(b - 0x61 + 10)
    } else {
        None
    }
}

/// Decodes the escape that starts at `s[at]`, which is a `%`.
fn decode_escape(s: &[u8], at: usize) -> (r: Result<u8, DecodeFail>)
    requires
        at < s@.len(),
    ensures
        r == escape_value(s@.skip(at as int)),
{
    if s.len() - at < 3 {
        return Err(DecodeFail::BadEscape);
    }
    let first = s[at + 1];
    let second = s[at + 2];
    if first == 0x32 && second == 0x46 {
        return Err(DecodeFail::EncodedSlash);
    }
    match (hex_digit(first), hex_digit(second)) {
        (Some(high), Some(low)) => Ok(high * 16 + low),
        _ => Err(DecodeFail::BadEscape),
    }
}

/// Percent-decodes the bytes of a path.
pub fn percent_decode_bytes(s: &[u8]) -> (r: Result<Vec<u8>, DecodeFail>)
    ensures
        match decoded_bytes(s@) {
            Ok(t) => r matches Ok(v) && v@ == t,
            Err(e) => r == Err::<Vec<u8>, DecodeFail>(e),
        },
{
    let mut out: Vec<u8> = Vec::new();
    let mut i: usize = 0;
    proof {
        assert(s@.skip(0) == s@);
        match decoded_bytes(s@) {
            Ok(t) => {
                assert(out@ + t == t);
            },
            Err(_) => {},
        }
    }
    while i < s.len()
        invariant
            i <= s@.len(),
            decoded_bytes(s@) == prepend(out@, decoded_bytes(s@.skip(i as int))),
        decreases s@.len() - i,
    {
        let ghost rest = s@.skip(i as int);
        let ghost before = out@;
        assert(rest[0] == s@[i as int]);
        if s[i] != PERCENT {
            out.push(s[i]);
            proof {
                assert(rest.skip(1) == s@.skip(i + 1));
                assert(out@ == before + seq![rest[0]]);
                match decoded_bytes(rest.skip(1)) {
                    Ok(t) => {
                        assert(before + (seq![rest[0]] + t) == out@ + t);
                    },
                    Err(_) => {},
                }
            }
            i += 1;
        } else {
            match decode_escape(s, i) {
                Ok(v) => {
                    out.push(v);
                    proof {
                        assert(rest.skip(3) == s@.skip(i + 3));
                        assert(out@ == before + seq![v]);
                        match decoded_bytes(rest.skip(3)) {
                            Ok(t) => {
                                assert(before + (seq![v] + t) == out@ + t);
                            },
                            Err(_) => {},
                        }
                    }
                    i += 3;
                },
                Err(e) => {
                    return Err(e);
                },
            }
        }
    }
    proof {
        assert(s@.skip(i as int).len() == 0);
        assert(out@ + Seq::<u8>::empty() == out@);
    }
    Ok(out)
}

/// Percent-decodes a URL path: `Ok` with the string whose bytes are the decoded
/// ones, or the reason why there is none.
pub fn percent_decode(inp: &str) -> (r: Result<String, DecodeFail>)
    ensures
        match decoded(encode_utf8(inp@)) {
            Ok(t) => r matches Ok(path) && encode_utf8(path@) == t,
            Err(e) => r == Err::<String, DecodeFail>(e),
        },
{
    match percent_decode_bytes(inp.as_bytes()) {
        Ok(bytes) => match string_from_utf8(bytes) {
            Some(path) => Ok(path),
            None => Err(DecodeFail::NotUtf8),
        },
        Err(e) => Err(e),
    }
}

} // verus!
