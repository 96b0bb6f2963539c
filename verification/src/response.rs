//! Responses: which one a request gets, and the bytes that go on the wire.

use vstd::prelude::*;
use vstd::utf8::*;
use crate::cfg::Config;
use crate::request::Request;
use crate::resolve::{
    candidate, content_type, content_type_of, join, lacks_slash, lemma_joined_utf8, location,
};
use crate::text::{append, bytes_of, lemma_ascii_utf8, utf8_string, NEWLINE, SLASH, SPACE};

verus! {

/// A response. `B` is where the bytes of a served file come from.
#[derive(Debug)]
pub enum Response<B> {
    Success { headers: Vec<(String, String)>, body_type: String, body_len: usize, body: B },
    NotFound,
    Moved(String),
}

/// What opening a file gave.
#[derive(Debug)]
pub enum Opened<B> {
    /// The file is open: its length in bytes, and where to read it from.
    File { len: usize, body: B },
    /// There is no such file.
    Missing,
    /// Anything else went wrong.
    Failed(std::io::Error),
}

/// How far a request has got: to its response, or to the file that has to be
/// opened for one.
#[derive(Debug)]
pub enum Step<B> {
    Reply(Response<B>),
    Open { path: String, body_type: String },
}

/// `n` in decimal digits.
pub open spec fn decimal(n: nat) -> Seq<u8>
    decreases n,
{
    if n < 10 {
        seq![(0x30 + n) as u8]
    } else {
        decimal(n / 10).push((0x30 + n % 10) as u8)
    }
}

/// One header line.
pub open spec fn header_line(name: Seq<u8>, value: Seq<u8>) -> Seq<u8> {
    name + bytes_of(": ") + value + seq![NEWLINE]
}

/// The header lines for `headers`, in their order.
pub open spec fn header_lines(headers: Seq<(Seq<u8>, Seq<u8>)>) -> Seq<u8>
    decreases headers.len(),
{
    if headers.len() == 0 {
        Seq::empty()
    } else {
        header_lines(headers.drop_last()) + header_line(headers.last().0, headers.last().1)
    }
}

/// The status line and the four headers that every response has. Every line
/// ends with a line feed alone.
pub open spec fn fixed_head(status: Seq<u8>, body_type: Seq<u8>, body_len: nat) -> Seq<u8> {
    bytes_of("HTTP/1.1 ") + status + seq![NEWLINE] + bytes_of("Cache-Control: no-cache\n")
        + bytes_of("Connection: close\n") + header_line(bytes_of("Content-Type"), body_type)
        + header_line(bytes_of("Content-Length"), decimal(body_len))
}

/// All that precedes the body: the status line and the fixed headers, the
/// response's own headers, and an empty line.
pub open spec fn head(
    status: Seq<u8>,
    body_type: Seq<u8>,
    body_len: nat,
    headers: Seq<(Seq<u8>, Seq<u8>)>,
) -> Seq<u8> {
    fixed_head(status, body_type, body_len) + header_lines(headers) + seq![NEWLINE]
}

/// The bytes of each name and value.
pub open spec fn header_bytes(headers: Seq<(String, String)>) -> Seq<(Seq<u8>, Seq<u8>)> {
    Seq::new(headers.len(), |i: int| (encode_utf8(headers[i].0@), encode_utf8(headers[i].1@)))
}

/// Appends `n` in decimal digits to `out`.
fn append_decimal(out: &mut Vec<u8>, n: usize)
    ensures
        final(out)@ == old(out)@ + decimal(n as nat),
    decreases n,
{
    if n >= 10 {
        append_decimal(out, n / 10);
    }
    out.push(0x30 + (n % 10) as u8);
}

/// Appends one header line to `out`.
fn append_header(out: &mut Vec<u8>, name: &[u8], value: &[u8])
    ensures
        final(out)@ == old(out)@ + header_line(name@, value@),
{
    append(out, name);
    append(out, ": ".as_bytes());
    append(out, value);
    out.push(NEWLINE);
}

/// The status: the code in decimal digits, a space, and the code in words.
pub open spec fn status_of(code: u16, reason: Seq<u8>) -> Seq<u8> {
    decimal(code as nat) + seq![SPACE] + reason
}

/// The status line and the fixed headers of a response.
fn start_head(code: u16, reason: &str, body_type: &[u8], body_len: usize) -> (out: Vec<u8>)
    ensures
        out@ == fixed_head(status_of(code, encode_utf8(reason@)), body_type@, body_len as nat),
{
    let mut out: Vec<u8> = Vec::new();
    append(&mut out, "HTTP/1.1 ".as_bytes());
    let ghost protocol = out@;
    append_decimal(&mut out, code as usize);
    out.push(SPACE);
    append(&mut out, reason.as_bytes());
    assert(out@ == protocol + status_of(code, encode_utf8(reason@)));
    out.push(NEWLINE);
    append(&mut out, "Cache-Control: no-cache\n".as_bytes());
    append(&mut out, "Connection: close\n".as_bytes());
    append_header(&mut out, "Content-Type".as_bytes(), body_type);
    append(&mut out, "Content-Length".as_bytes());
    append(&mut out, ": ".as_bytes());
    append_decimal(&mut out, body_len);
    out.push(NEWLINE);
    out
}

impl<B> Response<B> {
    /// The status code that goes with each kind of response.
    pub open spec fn spec_code(&self) -> u16 {
        match self {
            Response::Success { .. } => 200,
            Response::NotFound => 404,
            Response::Moved(_) => 301,
        }
    }

    /// The status code in words.
    pub open spec fn reason(&self) -> Seq<u8> {
        match self {
            Response::Success { .. } => bytes_of("OK"),
            Response::NotFound => bytes_of("Not Found"),
            Response::Moved(_) => bytes_of("Moved Permanently"),
        }
    }

    /// The status line, after the protocol's name: it shows the status code.
    pub open spec fn status(&self) -> Seq<u8> {
        status_of(self.spec_code(), self.reason())
    }

    /// The bytes sent before the body.
    pub open spec fn wire_head(&self) -> Seq<u8> {
        match self {
            Response::Success { headers, body_type, body_len, body } => head(
                self.status(),
                encode_utf8(body_type@),
                body_len as nat,
                header_bytes(headers@),
            ),
            Response::NotFound => head(self.status(), bytes_of("text/plain"), 0, Seq::empty()),
            Response::Moved(to) => head(
                self.status(),
                bytes_of("text/plain"),
                0,
                seq![(bytes_of("Location"), encode_utf8(to@))],
            ),
        }
    }

    /// Where the body is read from, for a response that has one.
    pub open spec fn body_source(self) -> Option<B> {
        match self {
            Response::Success { headers, body_type, body_len, body } => Some(body),
            _ => None,
        }
    }

    /// The status code.
    #[verifier::when_used_as_spec(spec_code)]
    pub fn code(&self) -> (r: u16)
        ensures
            r == self.spec_code(),
    {
        match self {
            Response::Success { .. } => 200,
            Response::NotFound => 404,
            Response::Moved(_) => 301,
        }
    }

    /// Answers `req`, as far as that goes without opening a file. `is_dir`
    /// says whether `req.target(cfg)` is a directory. A directory asked for
    /// without a `/` at the end is moved to the same path with one, the root
    /// excepted; any other request needs a file opened, the index page where
    /// it names a directory, and the content type that goes with that file.
    pub fn to(req: Request, cfg: &Config, is_dir: bool) -> (r: Step<B>)
        ensures
            is_dir && lacks_slash(req.path_bytes()) ==> (r matches Step::Reply(Response::Moved(to))
                && encode_utf8(to@) == location(req.path_bytes())),
            !(is_dir && lacks_slash(req.path_bytes())) ==> (r matches Step::Open { path, body_type }
                && encode_utf8(path@) == candidate(
                encode_utf8(cfg.root@),
                req.path_bytes(),
                is_dir,
            ) && encode_utf8(body_type@) == content_type(
                cfg.mappings@,
                candidate(encode_utf8(cfg.root@), req.path_bytes(), is_dir),
            )),
    {
        let path = req.path.as_str().as_bytes();
        proof {
            encode_utf8_valid_utf8(cfg.root@);
            encode_utf8_valid_utf8(req.path@);
            encode_utf8_valid_utf8("index.html"@);
            lemma_ascii_utf8(seq![SLASH]);
        }
        if is_dir && path.len() > 0 && path[path.len() - 1] != SLASH {
            let mut to: Vec<u8> = Vec::new();
            to.push(SLASH);
            append(&mut to, path);
            to.push(SLASH);
            proof {
                valid_utf8_concat(seq![SLASH], path@);
                valid_utf8_concat(seq![SLASH] + path@, seq![SLASH]);
                assert(to@ == location(path@));
            }
            return Step::Reply(Response::Moved(utf8_string(to)));
        }
        let target = join(cfg.root.as_str().as_bytes(), path);
        proof {
            lemma_joined_utf8(encode_utf8(cfg.root@), path@);
        }
        let file = if is_dir {
            proof {
                lemma_joined_utf8(target@, bytes_of("index.html"));
            }
            join(target.as_slice(), "index.html".as_bytes())
        } else {
            target
        };
        let body_type = content_type_of(&cfg.mappings, file.as_slice());
        Step::Open { path: utf8_string(file), body_type }
    }

    /// The response once the file has been tried: the file with its length
    /// and the content type found for it, `NotFound` where there is none. Any
    /// other failure is handed on and becomes no response.
    pub fn opened(body_type: String, opened: Opened<B>) -> (r: Result<Response<B>, std::io::Error>)
        ensures
            match opened {
                Opened::File { len, body } => r matches Ok(
                    Response::Success { headers, body_type: kind, body_len, body: source },
                ) && headers@.len() == 0 && kind == body_type && body_len == len && source == body,
                Opened::Missing => r matches Ok(Response::NotFound),
                Opened::Failed(e) => r matches Err(x) && x == e,
            },
    {
        match opened {
            Opened::File { len, body } => Ok(
                Response::Success { headers: Vec::new(), body_type, body_len: len, body },
            ),
            Opened::Missing => Ok(Response::NotFound),
            Opened::Failed(e) => Err(e),
        }
    }

    /// The bytes to send before the body, and the source of the `body_len`
    /// body bytes to send after them.
    pub fn write(self) -> (r: (Vec<u8>, Option<B>))
        ensures
            r.0@ == self.wire_head(),
            r.1 == self.body_source(),
    {
        let code = self.code();
        match self {
            Response::Success { headers, body_type, body_len, body } => {
                let mut out = start_head(code, "OK", body_type.as_str().as_bytes(), body_len);
                let mut i: usize = 0;
                while i < headers.len()
                    invariant
                        i <= headers@.len(),
                        out@ == fixed_head(
                            status_of(200, bytes_of("OK")),
                            encode_utf8(body_type@),
                            body_len as nat,
                        ) + header_lines(header_bytes(headers@).take(i as int)),
                    decreases headers@.len() - i,
                {
                    let ghost done = header_bytes(headers@).take(i as int);
                    let ghost next = header_bytes(headers@).take(i + 1);
                    append_header(
                        &mut out,
                        headers[i].0.as_str().as_bytes(),
                        headers[i].1.as_str().as_bytes(),
                    );
                    proof {
                        assert(next.drop_last() == done);
                        assert(next.last() == header_bytes(headers@)[i as int]);
                        assert(out@ == fixed_head(
                            status_of(200, bytes_of("OK")),
                            encode_utf8(body_type@),
                            body_len as nat,
                        ) + header_lines(next));
                    }
                    i += 1;
                }
                assert(header_bytes(headers@).take(i as int) == header_bytes(headers@));
                out.push(NEWLINE);
                (out, Some(body))
            },
            Response::NotFound => {
                let mut out = start_head(code, "Not Found", "text/plain".as_bytes(), 0);
                assert(out@ + Seq::<u8>::empty() == out@);
                out.push(NEWLINE);
                (out, None)
            },
            Response::Moved(to) => {
                let mut out = start_head(code, "Moved Permanently", "text/plain".as_bytes(), 0);
                append_header(&mut out, "Location".as_bytes(), to.as_str().as_bytes());
                proof {
                    let one = seq![(bytes_of("Location"), encode_utf8(to@))];
                    assert(one.drop_last() == Seq::<(Seq<u8>, Seq<u8>)>::empty());
                    assert(header_lines(one.drop_last()) == Seq::<u8>::empty());
                    assert(header_lines(one) == header_line(
                        bytes_of("Location"),
                        encode_utf8(to@),
                    ));
                }
                out.push(NEWLINE);
                (out, None)
            },
        }
    }
}

} // verus!
