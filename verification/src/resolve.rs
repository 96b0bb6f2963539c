//! From a request path to the file that answers it, and to its content type.

use vstd::prelude::*;
use vstd::slice::slice_subrange;
use vstd::utf8::*;
use crate::cfg::{Config, Mappings};
use crate::request::{request_path, Request};
use crate::text::{
    append, bytes_of, has_parent_component, lemma_ascii_utf8, parent_at, utf8_string, DOT, SLASH,
};

verus! {

/// The path of `name` inside the directory `dir`: the two with exactly one
/// `/` between them. Whatever `name` holds, the result begins with `dir`; an
/// empty `dir` stands for the current directory.
pub open spec fn joined(dir: Seq<u8>, name: Seq<u8>) -> Seq<u8> {
    if dir.len() == 0 {
        seq![DOT, SLASH] + name
    } else if dir.last() == SLASH {
        dir + name
    } else {
        dir + seq![SLASH] + name
    }
}

/// True for the path of a directory that has to be asked for again, with a
/// `/` at its end: every one but the root's, which is empty.
pub open spec fn lacks_slash(path: Seq<u8>) -> bool {
    path.len() > 0 && path.last() != SLASH
}

/// Where a request for the directory `path` is sent instead.
pub open spec fn location(path: Seq<u8>) -> Seq<u8> {
    seq![SLASH] + path + seq![SLASH]
}

/// The file that answers a request for `path` under `root`: the index page of
/// a directory, else what `path` names.
pub open spec fn candidate(root: Seq<u8>, path: Seq<u8>, is_dir: bool) -> Seq<u8> {
    if is_dir {
        joined(joined(root, path), bytes_of("index.html"))
    } else {
        joined(root, path)
    }
}

/// The index of the last byte of `s` equal to `b`; `-1` where there is none.
pub open spec fn last_of(s: Seq<u8>, b: u8) -> int
    decreases s.len(),
{
    if s.len() == 0 {
        -1
    } else if s.last() == b {
        s.len() - 1
    } else {
        last_of(s.drop_last(), b)
    }
}

/// What follows the last `b` in `s`; all of `s` where there is none.
pub open spec fn after_last(s: Seq<u8>, b: u8) -> Seq<u8> {
    s.skip(last_of(s, b) + 1)
}

/// The extension of a file path: what follows the last `.` in its last
/// component; empty where that has none.
pub open spec fn extension(path: Seq<u8>) -> Seq<u8> {
    let name = after_last(path, SLASH);
    if last_of(name, DOT) < 0 {
        Seq::empty()
    } else {
        after_last(name, DOT)
    }
}

/// The content type that `table` gives a file path: that of its extension,
/// `text/plain` where the table has none for it.
pub open spec fn content_type(table: Map<Seq<u8>, Seq<u8>>, path: Seq<u8>) -> Seq<u8> {
    if table.contains_key(extension(path)) {
        table[extension(path)]
    } else {
        bytes_of("text/plain")
    }
}

/// `last_of` is the only index with a hit at it and none after it.
pub proof fn lemma_last_of_unique(s: Seq<u8>, b: u8, i: int)
    requires
        -1 <= i < s.len(),
        forall|j: int| i < j < s.len() ==> s[j] != b,
        i >= 0 ==> s[i] == b,
    ensures
        last_of(s, b) == i,
    decreases s.len(),
{
    if s.len() == 0 || s.last() == b {
    } else {
        lemma_last_of_unique(s.drop_last(), b, i);
    }
}

/// Finds the last byte of `s` equal to `b`; the result is its index plus
/// one, and 0 where there is none.
pub fn after_last_index(s: &[u8], b: u8) -> (r: usize)
    ensures
        r == last_of(s@, b) + 1,
        r <= s@.len(),
{
    let mut i: usize = s.len();
    while i > 0 && s[i - 1] != b
        invariant
            i <= s@.len(),
            forall|j: int| i <= j < s@.len() ==> s@[j] != b,
        decreases i,
    {
        i -= 1;
    }
    proof {
        lemma_last_of_unique(s@, b, i - 1);
    }
    i
}

/// The extension of a file path.
pub fn extension_of(path: &[u8]) -> (r: &[u8])
    ensures
        r@ == extension(path@),
{
    let name = slice_subrange(path, after_last_index(path, SLASH), path.len());
    let dot = after_last_index(name, DOT);
    if dot == 0 {
        slice_subrange(name, 0, 0)
    } else {
        slice_subrange(name, dot, name.len())
    }
}

/// The content type that `mappings` gives a file path.
pub fn content_type_of(mappings: &Mappings, path: &[u8]) -> (r: String)
    ensures
        encode_utf8(r@) == content_type(mappings@, path@),
{
    match mappings.lookup(extension_of(path)) {
        Some(mime) => mime.clone(),
        None => "text/plain".to_owned(),
    }
}

/// The path of `name` inside the directory `dir`.
pub fn join(dir: &[u8], name: &[u8]) -> (r: Vec<u8>)
    ensures
        r@ == joined(dir@, name@),
{
    let mut out: Vec<u8> = Vec::new();
    if dir.len() == 0 {
        out.push(DOT);
        out.push(SLASH);
    } else {
        append(&mut out, dir);
        if dir[dir.len() - 1] != SLASH {
            out.push(SLASH);
        }
    }
    append(&mut out, name);
    out
}

/// Joining well-formed UTF-8 gives well-formed UTF-8.
pub proof fn lemma_joined_utf8(dir: Seq<u8>, name: Seq<u8>)
    requires
        valid_utf8(dir),
        valid_utf8(name),
    ensures
        valid_utf8(joined(dir, name)),
{
    lemma_ascii_utf8(seq![SLASH]);
    lemma_ascii_utf8(seq![DOT, SLASH]);
    valid_utf8_concat(dir, seq![SLASH]);
    valid_utf8_concat(dir + seq![SLASH], name);
    valid_utf8_concat(dir, name);
    valid_utf8_concat(seq![DOT, SLASH], name);
}

/// An override sets the content type of the files with its own extension and
/// of no others.
pub proof fn lemma_override_is_exact(
    table: Map<Seq<u8>, Seq<u8>>,
    ext: Seq<u8>,
    mime: Seq<u8>,
    path: Seq<u8>,
)
    ensures
        extension(path) == ext ==> content_type(table.insert(ext, mime), path) == mime,
        extension(path) != ext ==> content_type(table.insert(ext, mime), path) == content_type(
            table,
            path,
        ),
{
}

/// What `candidate` puts behind the root and its `/`.
pub open spec fn below_root(path: Seq<u8>, is_dir: bool) -> Seq<u8> {
    if !is_dir {
        path
    } else if path.len() == 0 || path.last() == SLASH {
        path + bytes_of("index.html")
    } else {
        path + seq![SLASH] + bytes_of("index.html")
    }
}

/// The name of the index page, byte for byte.
pub proof fn lemma_index_page_name()
    ensures
        bytes_of("index.html") == seq![
            0x69u8,
            0x6eu8,
            0x64u8,
            0x65u8,
            0x78u8,
            0x2eu8,
            0x68u8,
            0x74u8,
            0x6du8,
            0x6cu8,
        ],
{
    reveal_strlit("index.html");
    let chars = "index.html"@;
    assert(is_ascii_chars(chars));
    is_ascii_chars_encode_utf8(chars);
    assert(encode_utf8(chars) =~= seq![
        0x69u8,
        0x6eu8,
        0x64u8,
        0x65u8,
        0x78u8,
        0x2eu8,
        0x68u8,
        0x74u8,
        0x6du8,
        0x6cu8,
    ]);
}

/// No request leaves the served root: the file that answers a path without a
/// `..` component is the root, a `/`, and a path without such a component.
pub proof fn lemma_candidate_stays_under_root(root: Seq<u8>, path: Seq<u8>, is_dir: bool)
    requires
        !has_parent_component(path),
    ensures
        candidate(root, path, is_dir) == joined(root, Seq::empty()) + below_root(path, is_dir),
        !has_parent_component(below_root(path, is_dir)),
{
    let base = joined(root, Seq::empty());
    assert(joined(root, path) =~= base + path);
    if is_dir {
        lemma_index_page_name();
        let index = bytes_of("index.html");
        let target = joined(root, path);
        assert(target.last() == if path.len() == 0 {
            SLASH
        } else {
            path.last()
        });
        assert(candidate(root, path, is_dir) =~= base + below_root(path, is_dir));
        let rest = below_root(path, is_dir);
        let tail = rest.skip(path.len() as int);
        assert(tail =~= if path.len() == 0 || path.last() == SLASH {
            index
        } else {
            seq![SLASH] + index
        });
        assert forall|i: int| !parent_at(rest, i) by {
            if parent_at(rest, i) {
                if i + 1 < path.len() {
                    assert(rest[i] == path[i]);
                    assert(rest[i + 1] == path[i + 1]);
                    if i > 0 {
                        assert(rest[i - 1] == path[i - 1]);
                    }
                    if i + 2 < path.len() {
                        assert(rest[i + 2] == path[i + 2]);
                    }
                    assert(parent_at(path, i));
                } else if i + 1 == path.len() {
                    assert(rest[i + 1] == tail[0]);
                } else {
                    assert(rest[i] == tail[i - path.len()]);
                    assert(rest[i + 1] == tail[i + 1 - path.len()]);
                }
            }
        }
    } else {
        assert(candidate(root, path, is_dir) =~= base + below_root(path, is_dir));
    }
}

/// Whatever a connection sends as its first line, the file opened for it lies
/// under the served root.
pub proof fn lemma_served_file_under_root(line: Seq<u8>, root: Seq<u8>, is_dir: bool)
    ensures
        request_path(line) matches Ok(path) ==> candidate(root, path, is_dir) == joined(
            root,
            Seq::empty(),
        ) + below_root(path, is_dir) && !has_parent_component(below_root(path, is_dir)),
{
    if let Ok(path) = request_path(line) {
        lemma_candidate_stays_under_root(root, path, is_dir);
    }
}

impl Request {
    /// The path under the served root that this request names: what has to
    /// be looked at first, to see whether it is a directory.
    pub fn target(&self, cfg: &Config) -> (r: String)
        ensures
            encode_utf8(r@) == joined(encode_utf8(cfg.root@), self.path_bytes()),
    {
        let target = join(cfg.root.as_str().as_bytes(), self.path.as_str().as_bytes());
        proof {
            encode_utf8_valid_utf8(cfg.root@);
            encode_utf8_valid_utf8(self.path@);
            lemma_joined_utf8(encode_utf8(cfg.root@), self.path_bytes());
        }
        utf8_string(target)
    }
}

} // verus!
