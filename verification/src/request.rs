//! The request line: from the first line of a request to the path it asks for.

use vstd::prelude::*;
use vstd::slice::slice_subrange;
use vstd::string::StringExecFns;
use vstd::utf8::*;
use crate::percent::{
    decoded, decoded_bytes, encoded_slash_at, lemma_encoded_slash_never_decoded,
    percent_decode_bytes,
};
use crate::text::{
    find_first, first_of, has_parent, has_parent_component, lemma_first_of,
    lemma_first_of_unique, string_from_utf8, HASH, QUERY, SLASH, SPACE,
};

verus! {

/// `std::io::Error`, carried through as it came.
#[verifier::external_type_specification]
#[verifier::external_body]
pub struct ExIoError(std::io::Error);

/// Why no request could be read from a connection.
#[derive(Debug)]
pub enum ReqFail {
    EarlyInputEnd,
    InvalidFormat(String),
    IOOpFailed(std::io::Error),
    Malicious(&'static str),
    InvalidPercentEncode,
}

/// The reasons for which a request line yields no path.
#[derive(Debug, Clone, Copy, PartialEq, Eq, Structural)]
pub enum Rejection {
    EarlyInputEnd,
    InvalidFormat,
    Malicious,
    InvalidPercentEncode,
}

/// What a request line asks for, between its first space and the next; `None`
/// where one of the two spaces is missing.
pub open spec fn raw_target(line: Seq<u8>) -> Option<Seq<u8>> {
    let first = first_of(line, SPACE, SPACE);
    if first == line.len() {
        None
    } else {
        let rest = line.skip(first + 1);
        let second = first_of(rest, SPACE, SPACE);
        if second == rest.len() {
            None
        } else {
            Some(rest.take(second))
        }
    }
}

/// `target` without the `/` it may begin with.
pub open spec fn without_leading_slash(target: Seq<u8>) -> Seq<u8> {
    if target.len() > 0 && target[0] == SLASH {
        target.skip(1)
    } else {
        target
    }
}

/// `target` up to its first `?` or `#`, whichever comes first.
pub open spec fn without_suffix(target: Seq<u8>) -> Seq<u8> {
    target.take(first_of(target, QUERY, HASH))
}

/// The path that a raw target names, still percent-encoded.
pub open spec fn encoded_path(target: Seq<u8>) -> Seq<u8> {
    without_suffix(without_leading_slash(target))
}

/// The path that an encoded path stands for. One with a `..` component, as
/// it is written or once decoded, is malicious.
pub open spec fn decoded_path(encoded: Seq<u8>) -> Result<Seq<u8>, Rejection> {
    if has_parent_component(encoded) {
        Err(Rejection::Malicious)
    } else {
        match decoded(encoded) {
            Err(_) => Err(Rejection::InvalidPercentEncode),
            Ok(path) => if has_parent_component(path) {
                Err(Rejection::Malicious)
            } else {
                Ok(path)
            },
        }
    }
}

/// The path that a request line asks for.
pub open spec fn request_path(line: Seq<u8>) -> Result<Seq<u8>, Rejection> {
    match raw_target(line) {
        None => Err(Rejection::InvalidFormat),
        Some(target) => decoded_path(encoded_path(target)),
    }
}

/// The bytes of a line of text, where one was read.
pub open spec fn line_bytes(line: Option<Result<String, std::io::Error>>) -> Option<Seq<u8>> {
    match line {
        Some(Ok(text)) => Some(encode_utf8(text@)),
        _ => None,
    }
}

/// The path that the first line of a connection asks for, where there is one.
pub open spec fn loaded_path(first_line: Option<Seq<u8>>) -> Result<Seq<u8>, Rejection> {
    match first_line {
        None => Err(Rejection::EarlyInputEnd),
        Some(line) => request_path(line),
    }
}

/// `format!("{:?}", e)` for an `io::Error`. The text may differ from one
/// machine to the next, so nothing is claimed of it.
#[verifier::external_body]
fn io_error_text(e: &std::io::Error) -> (r: String) {
    format!("{:?}", e)
}

impl ReqFail {
    /// Says in words what went wrong.
    pub fn message(&self) -> (r: String)
        ensures
            match self {
                ReqFail::EarlyInputEnd => r@ == "input ended earlier than expected"@,
                ReqFail::InvalidFormat(line) => r@ == "'"@ + line@ + "' is incorrectly formatted"@,
                ReqFail::IOOpFailed(_) => r@.len() >= "Failed to complete action because of "@.len()
                    && r@.take("Failed to complete action because of "@.len() as int)
                    == "Failed to complete action because of "@,
                ReqFail::Malicious(what) => r@ == "Suspected maliocious request: "@ + what@,
                ReqFail::InvalidPercentEncode => r@ == "Invalid percent encoding"@,
            },
    {
        match self {
            ReqFail::EarlyInputEnd => "input ended earlier than expected".to_owned(),
            ReqFail::InvalidFormat(line) => {
                let mut text = "'".to_owned();
                text.append(line.as_str());
                text.append("' is incorrectly formatted");
                text
            },
            ReqFail::IOOpFailed(e) => {
                let mut text = "Failed to complete action because of ".to_owned();
                let ghost prefix = text@;
                let cause = io_error_text(e);
                text.append(cause.as_str());
                assert(text@.take(prefix.len() as int) == prefix);
                text
            },
            ReqFail::Malicious(what) => {
                let mut text = "Suspected maliocious request: ".to_owned();
                text.append(what);
                text
            },
            ReqFail::InvalidPercentEncode => "Invalid percent encoding".to_owned(),
        }
    }

    /// The reason that this failure reports; `None` for a failed transport.
    pub open spec fn rejection(self) -> Option<Rejection> {
        match self {
            ReqFail::EarlyInputEnd => Some(Rejection::EarlyInputEnd),
            ReqFail::InvalidFormat(_) => Some(Rejection::InvalidFormat),
            ReqFail::IOOpFailed(_) => None,
            ReqFail::Malicious(_) => Some(Rejection::Malicious),
            ReqFail::InvalidPercentEncode => Some(Rejection::InvalidPercentEncode),
        }
    }
}

/// A request whose path has a `..` component, be it written out or spelt
/// with escapes, yields no path: it is refused, as malicious unless the
/// escapes themselves are at fault.
pub proof fn lemma_traversal_refused(line: Seq<u8>)
    requires
        raw_target(line) is Some,
        has_parent_component(encoded_path(raw_target(line)->0)) || (decoded_bytes(
            encoded_path(raw_target(line)->0),
        ) matches Ok(path) && has_parent_component(path)),
    ensures
        request_path(line) is Err,
        has_parent_component(encoded_path(raw_target(line)->0)) || decoded(
            encoded_path(raw_target(line)->0),
        ) is Ok ==> request_path(line) == Err::<Seq<u8>, Rejection>(Rejection::Malicious),
{
}

/// No request line yields a path with a `..` component.
pub proof fn lemma_path_has_no_parent(line: Seq<u8>)
    ensures
        request_path(line) matches Ok(path) ==> !has_parent_component(path),
{
}

/// A request whose path holds the escape `%2F` is refused: the escape is
/// never taken for a path separator.
pub proof fn lemma_encoded_slash_refused(line: Seq<u8>, i: int)
    requires
        raw_target(line) is Some,
        encoded_slash_at(encoded_path(raw_target(line)->0), i),
    ensures
        request_path(line) is Err,
{
    lemma_encoded_slash_never_decoded(encoded_path(raw_target(line)->0), i);
}

/// Cutting off the query and the fragment a second time changes nothing.
pub proof fn lemma_without_suffix_idempotent(target: Seq<u8>)
    ensures
        without_suffix(without_suffix(target)) == without_suffix(target),
        forall|i: int|
            0 <= i < without_suffix(target).len() ==> without_suffix(target)[i] != QUERY
                && without_suffix(target)[i] != HASH,
{
    lemma_first_of(target, QUERY, HASH);
    let cut = without_suffix(target);
    lemma_first_of_unique(cut, QUERY, HASH, cut.len() as int);
    assert(cut.take(cut.len() as int) == cut);
}

/// What follows a `?` or a `#` plays no part in the path: two targets that
/// agree up to there name the same path.
pub proof fn lemma_suffix_ignored(path: Seq<u8>, mark: u8, suffix: Seq<u8>)
    requires
        mark == QUERY || mark == HASH,
        forall|i: int| 0 <= i < path.len() ==> path[i] != QUERY && path[i] != HASH,
    ensures
        without_suffix(path + seq![mark] + suffix) == path,
        without_suffix(path) == path,
{
    let whole = path + seq![mark] + suffix;
    lemma_first_of_unique(whole, QUERY, HASH, path.len() as int);
    assert(whole.take(path.len() as int) == path);
    lemma_first_of_unique(path, QUERY, HASH, path.len() as int);
    assert(path.take(path.len() as int) == path);
}

/// A request line: a method, a target and whatever follows, with a space
/// after each of the first two.
pub open spec fn request_line(method: Seq<u8>, target: Seq<u8>, tail: Seq<u8>) -> Seq<u8> {
    method + seq![SPACE] + target + seq![SPACE] + tail
}

/// The target of a request line is what was put there.
pub proof fn lemma_raw_target_of_line(method: Seq<u8>, target: Seq<u8>, tail: Seq<u8>)
    requires
        forall|i: int| 0 <= i < method.len() ==> method[i] != SPACE,
        forall|i: int| 0 <= i < target.len() ==> target[i] != SPACE,
    ensures
        raw_target(request_line(method, target, tail)) == Some(target),
{
    let line = request_line(method, target, tail);
    lemma_first_of_unique(line, SPACE, SPACE, method.len() as int);
    let rest = line.skip(method.len() as int + 1);
    assert(rest == target + seq![SPACE] + tail);
    lemma_first_of_unique(rest, SPACE, SPACE, target.len() as int);
    assert(rest.take(target.len() as int) == target);
}

/// A query or a fragment changes nothing: the request for `path` followed by
/// `?` or `#` and anything at all is the request for `path`.
pub proof fn lemma_query_and_fragment_ignored(
    method: Seq<u8>,
    path: Seq<u8>,
    mark: u8,
    suffix: Seq<u8>,
    tail: Seq<u8>,
)
    requires
        mark == QUERY || mark == HASH,
        forall|i: int| 0 <= i < method.len() ==> method[i] != SPACE,
        forall|i: int|
            0 <= i < path.len() ==> path[i] != SPACE && path[i] != QUERY && path[i] != HASH,
        forall|i: int| 0 <= i < suffix.len() ==> suffix[i] != SPACE,
    ensures
        request_path(request_line(method, path + seq![mark] + suffix, tail)) == request_path(
            request_line(method, path, tail),
        ),
{
    let target = path + seq![mark] + suffix;
    lemma_raw_target_of_line(method, target, tail);
    lemma_raw_target_of_line(method, path, tail);
    let bare = without_leading_slash(path);
    assert(without_leading_slash(target) == bare + seq![mark] + suffix);
    assert forall|i: int| 0 <= i < bare.len() implies bare[i] != QUERY && bare[i] != HASH by {
        if path.len() > 0 && path[0] == SLASH {
            assert(bare[i] == path[i + 1]);
        }
    }
    lemma_suffix_ignored(bare, mark, suffix);
}

/// A target is read the same with and without a `/` in front: for a method
/// without a space and a rest of the line that does not begin with `/`, the
/// lines `method rest` and `method /rest` ask for the same path.
pub proof fn lemma_leading_slash_optional(method: Seq<u8>, rest: Seq<u8>)
    requires
        forall|i: int| 0 <= i < method.len() ==> method[i] != SPACE,
        rest.len() == 0 || rest[0] != SLASH,
    ensures
        request_path(method + seq![SPACE] + rest) == request_path(
            method + seq![SPACE, SLASH] + rest,
        ),
{
    let bare = method + seq![SPACE] + rest;
    let slashed = method + seq![SPACE, SLASH] + rest;
    lemma_first_of_unique(bare, SPACE, SPACE, method.len() as int);
    lemma_first_of_unique(slashed, SPACE, SPACE, method.len() as int);
    let after = seq![SLASH] + rest;
    assert(bare.skip(method.len() as int + 1) == rest);
    assert(slashed.skip(method.len() as int + 1) == after);
    assert(after.skip(1) == rest);
    lemma_first_of(rest, SPACE, SPACE);
    let second = first_of(rest, SPACE, SPACE);
    assert(first_of(after, SPACE, SPACE) == 1 + second);
    if second < rest.len() {
        let target = rest.take(second);
        assert(after.take(1 + second) == seq![SLASH] + target);
        assert((seq![SLASH] + target).skip(1) == target);
        assert(without_leading_slash(seq![SLASH] + target) == target);
        assert(without_leading_slash(target) == target);
    }
}

/// Whether the headers of a request go on.
#[derive(Debug, Clone, Copy, PartialEq, Eq, Structural)]
pub enum Headers {
    More,
    Done,
}

/// Decides, after each attempt to read a header line, whether to read
/// another. The headers end with an empty line or with the input; a line that
/// could not be read ends the request. What a header says is ignored.
pub fn skip_header(line: Option<Result<String, std::io::Error>>) -> (r: Result<Headers, ReqFail>)
    ensures
        match line {
            None => r matches Ok(Headers::Done),
            Some(Ok(text)) => r matches Ok(step) && (step == Headers::Done <==> text@.len() == 0),
            Some(Err(e)) => r matches Err(ReqFail::IOOpFailed(cause)) && cause == e,
        },
{
    match line {
        None => Ok(Headers::Done),
        Some(Ok(text)) => if text.as_str().is_empty() {
            Ok(Headers::Done)
        } else {
            Ok(Headers::More)
        },
        Some(Err(e)) => Err(ReqFail::IOOpFailed(e)),
    }
}

/// A request: the decoded path it asks for, relative to the served root.
pub struct Request {
    pub path: String,
}

impl Request {
    /// The bytes of the path.
    pub open spec fn path_bytes(self) -> Seq<u8> {
        encode_utf8(self.path@)
    }

    /// A request is safe where no component of its path is `..`.
    pub open spec fn is_safe(self) -> bool {
        !has_parent_component(self.path_bytes())
    }

    /// Reads the request off the first line of a connection. Where the peer
    /// sent none, or it could not be read, the input has ended early.
    pub fn load(first_line: Option<Result<String, std::io::Error>>) -> (r: Result<Request, ReqFail>)
        ensures
            match (first_line, loaded_path(line_bytes(first_line))) {
                (_, Ok(path)) => r matches Ok(req) && req.path_bytes() == path && req.is_safe(),
                (Some(Ok(line)), Err(Rejection::InvalidFormat)) => r matches Err(
                    ReqFail::InvalidFormat(text),
                ) && text@ == line@,
                (_, Err(Rejection::Malicious)) => r matches Err(ReqFail::Malicious(what))
                    && what@ == ".. component in path"@,
                (_, Err(why)) => r matches Err(e) && e.rejection() == Some(why),
            },
    {
        let line = match first_line {
            Some(Ok(line)) => line,
            _ => {
                return Err(ReqFail::EarlyInputEnd);
            },
        };
        let bytes = line.as_str().as_bytes();
        let first = find_first(bytes, SPACE, SPACE);
        if first == bytes.len() {
            return Err(ReqFail::InvalidFormat(line));
        }
        let rest = slice_subrange(bytes, first + 1, bytes.len());
        assert(rest@ == bytes@.skip(first + 1));
        let second = find_first(rest, SPACE, SPACE);
        if second == rest.len() {
            return Err(ReqFail::InvalidFormat(line));
        }
        let target = slice_subrange(rest, 0, second);
        assert(target@ == rest@.take(second as int));
        assert(raw_target(bytes@) == Some(target@));
        let trimmed = if target.len() > 0 && target[0] == SLASH {
            slice_subrange(target, 1, target.len())
        } else {
            target
        };
        assert(trimmed@ == without_leading_slash(target@));
        let encoded = slice_subrange(trimmed, 0, find_first(trimmed, QUERY, HASH));
        assert(encoded@ == encoded_path(target@));
        if has_parent(encoded) {
            return Err(ReqFail::Malicious(".. component in path"));
        }
        let decoded = match percent_decode_bytes(encoded) {
            Ok(v) => v,
            Err(_) => {
                return Err(ReqFail::InvalidPercentEncode);
            },
        };
        let path = match string_from_utf8(decoded) {
            Some(path) => path,
            None => {
                return Err(ReqFail::InvalidPercentEncode);
            },
        };
        if has_parent(path.as_str().as_bytes()) {
            return Err(ReqFail::Malicious(".. component in path"));
        }
        Ok(Request { path })
    }
}

} // verus!
