//! Byte-level helpers shared by the parser, the resolver and the writer.
//!
//! Every contract of this crate speaks of strings through their UTF-8 bytes:
//! the bytes of a `String` or `&str` value `s` are `encode_utf8(s@)`.

use vstd::prelude::*;
use vstd::utf8::*;

verus! {

/// The space that parts method, target and version.
pub const SPACE: u8 = 0x20;

/// `#`, which begins a fragment.
pub const HASH: u8 = 0x23;

/// `%`, which begins an escape.
pub const PERCENT: u8 = 0x25;

/// `.`
pub const DOT: u8 = 0x2E;

/// `/`, the path separator.
pub const SLASH: u8 = 0x2F;

/// `=`, which parts an extension from its content type.
pub const EQUALS: u8 = 0x3D;

/// `?`, which begins a query.
pub const QUERY: u8 = 0x3F;

/// The line feed that ends a line of the head.
pub const NEWLINE: u8 = 0x0A;

/// `String::from_utf8`: succeeds exactly on well-formed UTF-8, and the string
/// it returns is made of the very bytes it was given.
#[verifier::external_body]
pub(crate) fn string_from_utf8(bytes: Vec<u8>) -> (r: Option<String>)
    ensures
        r is Some <==> valid_utf8(bytes@),
        r matches Some(s) ==> encode_utf8(s@) == bytes@,
{
    String::from_utf8(bytes).ok()
}

/// The bytes of a piece of text.
pub open spec fn bytes_of(text: &str) -> Seq<u8> {
    encode_utf8(text@)
}

/// A byte below `0x80` never lies inside a character: well-formed UTF-8 cut
/// around such a byte leaves two well-formed parts.
pub proof fn lemma_cut_at_ascii(s: Seq<u8>, i: int)
    requires
        valid_utf8(s),
        0 <= i < s.len(),
        s[i] < 0x80,
    ensures
        valid_utf8(s.take(i)),
        valid_utf8(s.skip(i)),
        valid_utf8(s.skip(i + 1)),
{
    is_char_boundary_iff_not_is_continuation_byte(s, i);
    valid_utf8_split(s, i);
    assert(s.subrange(0, i) == s.take(i));
    let tail = s.subrange(i, s.len() as int);
    assert(tail == s.skip(i));
    assert(tail[0] == s[i]);
    assert(pop_first_scalar(tail) == s.skip(i + 1));
}

/// Tells whether two byte strings are equal.
pub fn same_bytes(a: &[u8], b: &[u8]) -> (r: bool)
    ensures
        r == (a@ == b@),
{
    if a.len() != b.len() {
        return false;
    }
    let mut i: usize = 0;
    while i < a.len()
        invariant
            a@.len() == b@.len(),
            i <= a@.len(),
            forall|j: int| 0 <= j < i ==> a@[j] == b@[j],
        decreases a@.len() - i,
    {
        if a[i] != b[i] {
            return false;
        }
        i += 1;
    }
    assert(a@ =~= b@);
    true
}

/// Bytes below `0x80` are well-formed UTF-8.
pub proof fn lemma_ascii_utf8(s: Seq<u8>)
    requires
        forall|i: int| 0 <= i < s.len() ==> s[i] < 0x80,
    ensures
        valid_utf8(s),
    decreases s.len(),
{
    if s.len() > 0 {
        assert(pop_first_scalar(s) == s.skip(1));
        lemma_ascii_utf8(s.skip(1));
    }
}

/// The string made of `bytes`.
pub(crate) fn utf8_string(bytes: Vec<u8>) -> (r: String)
    requires
        valid_utf8(bytes@),
    ensures
        encode_utf8(r@) == bytes@,
{
    match string_from_utf8(bytes) {
        Some(text) => text,
        None => {
            assert(false);
            String::new()
        },
    }
}

/// Appends `s` to `out`.
pub fn append(out: &mut Vec<u8>, s: &[u8])
    ensures
        final(out)@ == old(out)@ + s@,
{
    out.extend_from_slice(s);
    assert(out@ =~= old(out)@ + s@);
}

/// The index of the first byte of `s` equal to `a` or to `b`; the length of
/// `s` where there is none.
pub open spec fn first_of(s: Seq<u8>, a: u8, b: u8) -> int
    decreases s.len(),
{
    if s.len() == 0 || s[0] == a || s[0] == b {
        0
    } else {
        1 + first_of(s.skip(1), a, b)
    }
}

/// `first_of` lies within `s`, with nothing searched for before it and, short
/// of the end, a hit at it.
pub proof fn lemma_first_of(s: Seq<u8>, a: u8, b: u8)
    ensures
        0 <= first_of(s, a, b) <= s.len(),
        forall|j: int| 0 <= j < first_of(s, a, b) ==> s[j] != a && s[j] != b,
        first_of(s, a, b) < s.len() ==> s[first_of(s, a, b)] == a || s[first_of(s, a, b)] == b,
    decreases s.len(),
{
    if s.len() == 0 || s[0] == a || s[0] == b {
    } else {
        lemma_first_of(s.skip(1), a, b);
        assert forall|j: int| 0 <= j < first_of(s, a, b) implies s[j] != a && s[j] != b by {
            if j > 0 {
                assert(s.skip(1)[j - 1] == s[j]);
            }
        }
    }
}

/// `first_of` is the only index with nothing searched for before it and a hit
/// (or the end) at it.
pub proof fn lemma_first_of_unique(s: Seq<u8>, a: u8, b: u8, i: int)
    requires
        0 <= i <= s.len(),
        forall|j: int| 0 <= j < i ==> s[j] != a && s[j] != b,
        i < s.len() ==> s[i] == a || s[i] == b,
    ensures
        first_of(s, a, b) == i,
{
    lemma_first_of(s, a, b);
    let f = first_of(s, a, b);
    if f < i {
        assert(s[f] != a && s[f] != b);
    } else if i < f {
        assert(s[i] != a && s[i] != b);
    }
}

/// Finds the first byte of `s` equal to `a` or to `b`.
pub fn find_first(s: &[u8], a: u8, b: u8) -> (r: usize)
    ensures
        r == first_of(s@, a, b),
        r <= s@.len(),
{
    let mut i: usize = 0;
    while i < s.len() && s[i] != a && s[i] != b
        invariant
            i <= s@.len(),
            forall|j: int| 0 <= j < i ==> s@[j] != a && s@[j] != b,
        decreases s@.len() - i,
    {
        i += 1;
    }
    proof {
        lemma_first_of_unique(s@, a, b, i as int);
    }
    i
}

/// True where a component of the path `s`, its parts between `/`, is `..`
/// and begins at index `i`.
pub open spec fn parent_at(s: Seq<u8>, i: int) -> bool {
    &&& 0 <= i
    &&& i + 2 <= s.len()
    &&& s[i] == DOT
    &&& s[i + 1] == DOT
    &&& (i == 0 || s[i - 1] == SLASH)
    &&& (i + 2 == s.len() || s[i + 2] == SLASH)
}

/// True where some component of the path `s` is `..`.
pub open spec fn has_parent_component(s: Seq<u8>) -> bool {
    exists|i: int| parent_at(s, i)
}

/// Tells whether some component of the path `s` is `..`.
pub fn has_parent(s: &[u8]) -> (r: bool)
    ensures
        r == has_parent_component(s@),
{
    let n = s.len();
    let mut i: usize = 0;
    while i < n
        invariant
            n == s@.len(),
            i <= n,
            forall|j: int| 0 <= j < i ==> !parent_at(s@, j),
        decreases n - i,
    {
        if n - i >= 2 && s[i] == DOT && s[i + 1] == DOT && (i == 0 || s[i - 1] == SLASH) && (n - i
            == 2 || s[i + 2] == SLASH) {
            assert(parent_at(s@, i as int));
            return true;
        }
        i += 1;
    }
    false
}

} // verus!
