use std::io;

use httpserv::{skip_header, Headers, HttpservFail, ReqFail, Request};

fn load(line: &str) -> Result<Request, ReqFail> {
  Request::load(Some(Ok(line.to_string())))
}

fn path_of(line: &str) -> String {
  match load(line) {
    Ok(req) => req.path,
    Err(e) => panic!("{:?} for {:?}", e, line),
  }
}

fn fail_of(line: &str) -> ReqFail {
  match load(line) {
    Ok(req) => panic!("{:?} for {:?}", req.path, line),
    Err(e) => e,
  }
}

#[test]
fn target_is_taken_from_between_the_spaces() {
  assert_eq!(path_of("GET /url/here HTTP/1.1"), "url/here");
  assert_eq!(path_of("GET /file HTTP/1.1"), "file");
  assert_eq!(path_of("POST /file whatever else follows"), "file");
  assert_eq!(path_of("GET /file "), "file");
  assert_eq!(path_of(" /file "), "file");
}

#[test]
fn empty_target_is_the_root() {
  assert_eq!(path_of("GET / HTTP/1.1"), "");
  assert_eq!(path_of("GET  HTTP/1.1"), "");
  assert_eq!(path_of("  "), "");
}

#[test]
fn only_one_leading_slash_is_dropped() {
  assert_eq!(path_of("GET //etc/passwd HTTP/1.1"), "/etc/passwd");
  assert_eq!(path_of("GET /subdir/ HTTP/1.1"), "subdir/");
}

#[test]
fn leading_slash_is_optional() {
  for target in ["file", "subdir/file", "", "a%20b", "x?y", "..", "%zz"] {
    let bare = load(&format!("GET {} HTTP/1.1", target));
    let slashed = load(&format!("GET /{} HTTP/1.1", target));
    match (bare, slashed) {
      (Ok(a), Ok(b)) => assert_eq!(a.path, b.path),
      (Err(a), Err(b)) => assert_eq!(a.message(), b.message()),
      (a, b) => panic!("{:?} and {:?} for {:?}", a.map(|r| r.path), b.map(|r| r.path), target),
    }
  }
}

#[test]
fn missing_line_is_early_end() {
  assert!(matches!(Request::load(None), Err(ReqFail::EarlyInputEnd)));
}

#[test]
fn unreadable_line_is_early_end() {
  let cause = io::Error::new(io::ErrorKind::InvalidData, "stream did not contain valid UTF-8");
  assert!(matches!(Request::load(Some(Err(cause))), Err(ReqFail::EarlyInputEnd)));
}

#[test]
fn missing_space_is_invalid_format() {
  for line in ["", "GET", "GET /file", "GET/file/HTTP/1.1", "\tGET\t/file\tHTTP/1.1"] {
    match fail_of(line) {
      ReqFail::InvalidFormat(text) => assert_eq!(text, line),
      other => panic!("{:?} for {:?}", other, line),
    }
  }
}

#[test]
fn query_and_fragment_are_cut_off() {
  assert_eq!(path_of("GET /file?../.. HTTP/1.1"), "file");
  assert_eq!(path_of("GET /file#../.. HTTP/1.1"), "file");
  assert_eq!(path_of("GET /file?a=b#c HTTP/1.1"), "file");
  assert_eq!(path_of("GET /file#c?a=b HTTP/1.1"), "file");
  assert_eq!(path_of("GET /?%zz HTTP/1.1"), "");
  assert_eq!(path_of("GET /#%2F HTTP/1.1"), "");
  assert_eq!(path_of("GET ?x HTTP/1.1"), "");
}

#[test]
fn cutting_twice_changes_nothing() {
  for target in ["file?../..", "file#../..", "file", "a/b?c#d", "a#b?c", "", "?"] {
    let once = path_of(&format!("GET /{} HTTP/1.1", target));
    let twice = path_of(&format!("GET /{} HTTP/1.1", once));
    assert_eq!(once, twice);
  }
}

#[test]
fn parent_component_is_malicious() {
  for target in [
    "/..", "..", "/../", "/subdir/../../basic_test.rs", "/a/..", "/a/../b", "/../a", "//..", "/a//../b",
  ] {
    match fail_of(&format!("GET {} HTTP/1.1", target)) {
      ReqFail::Malicious(what) => assert_eq!(what, ".. component in path"),
      other => panic!("{:?} for {:?}", other, target),
    }
  }
}

#[test]
fn escaped_parent_component_is_malicious() {
  for target in ["/%2E%2E/secret", "/%2e%2e", "/a/.%2E/b", "/a/%2E./b", "/a%2f..%2fb", "/a/%2e%2e%2fb"] {
    assert!(
      matches!(fail_of(&format!("GET {} HTTP/1.1", target)), ReqFail::Malicious(_)),
      "{:?}",
      target
    );
  }
}

#[test]
fn dots_inside_a_name_are_no_parent_component() {
  assert_eq!(path_of("GET /a..b HTTP/1.1"), "a..b");
  assert_eq!(path_of("GET /... HTTP/1.1"), "...");
  assert_eq!(path_of("GET /..a/b.. HTTP/1.1"), "..a/b..");
  assert_eq!(path_of("GET /./a HTTP/1.1"), "./a");
  assert_eq!(path_of("GET /.%20. HTTP/1.1"), ". .");
}

#[test]
fn parent_component_is_found_before_a_bad_escape() {
  assert!(matches!(fail_of("GET /../%zz HTTP/1.1"), ReqFail::Malicious(_)));
  assert!(matches!(fail_of("GET /../%2F HTTP/1.1"), ReqFail::Malicious(_)));
}

#[test]
fn bad_escape_is_invalid_percent_encode() {
  for target in ["/a%2Fb", "/%", "/%4", "/%zz", "/%ff", "/%C3", "/a%2F..%2Fb"] {
    assert!(
      matches!(fail_of(&format!("GET {} HTTP/1.1", target)), ReqFail::InvalidPercentEncode),
      "{:?}",
      target
    );
  }
}

#[test]
fn path_is_decoded() {
  assert_eq!(path_of("GET /a%20b/c%C3%A9 HTTP/1.1"), "a b/c\u{e9}");
  assert_eq!(path_of("GET /caf\u{e9} HTTP/1.1"), "caf\u{e9}");
  assert_eq!(path_of("GET /%3Fx%23 HTTP/1.1"), "?x#");
}

#[test]
fn loaded_path_never_has_a_parent_component() {
  let targets = [
    "/", "/a", "/..", "/a/..", "/%2e%2e", "/.%2e/x", "/x/%2e%2e/", "/a%2f..", "/...", "/.", "/a/./b", "/%2e",
    "/..%00", "/%2e%2e%2e",
  ];
  for target in targets {
    if let Ok(req) = load(&format!("GET {} HTTP/1.1", target)) {
      assert!(req.path.split('/').all(|part| part != ".."), "{:?}", target);
    }
  }
}

#[test]
fn req_fail_messages() {
  assert_eq!(ReqFail::EarlyInputEnd.message(), "input ended earlier than expected");
  assert_eq!(
    ReqFail::InvalidFormat("GET".into()).message(),
    "'GET' is incorrectly formatted"
  );
  assert_eq!(
    ReqFail::Malicious(".. component in path").message(),
    "Suspected maliocious request: .. component in path"
  );
  assert_eq!(ReqFail::InvalidPercentEncode.message(), "Invalid percent encoding");
  let cause = io::Error::new(io::ErrorKind::Other, "broken");
  let expected = format!("Failed to complete action because of {:?}", cause);
  assert_eq!(ReqFail::IOOpFailed(cause).message(), expected);
}

#[test]
fn headers_end_with_an_empty_line() {
  assert!(matches!(skip_header(Some(Ok(String::new()))), Ok(Headers::Done)));
  assert!(matches!(skip_header(Some(Ok("Host: localhost".into()))), Ok(Headers::More)));
  assert!(matches!(skip_header(Some(Ok(" ".into()))), Ok(Headers::More)));
}

#[test]
fn headers_end_with_the_input() {
  assert!(matches!(skip_header(None), Ok(Headers::Done)));
}

#[test]
fn header_that_cannot_be_read_fails_the_request() {
  let cause = io::Error::new(io::ErrorKind::ConnectionReset, "reset");
  match skip_header(Some(Err(cause))) {
    Err(ReqFail::IOOpFailed(e)) => assert_eq!(e.kind(), io::ErrorKind::ConnectionReset),
    other => panic!("{:?}", other),
  }
}

#[test]
fn failures_convert() {
  let cause = io::Error::new(io::ErrorKind::AddrInUse, "taken");
  match HttpservFail::from(cause) {
    HttpservFail::Io(e) => assert_eq!(e.kind(), io::ErrorKind::AddrInUse),
    other => panic!("{:?}", other),
  }
  match HttpservFail::from(ReqFail::InvalidPercentEncode) {
    HttpservFail::Request(ReqFail::InvalidPercentEncode) => {}
    other => panic!("{:?}", other),
  }
}
