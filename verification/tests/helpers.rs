use httpserv::cfg::{default_mappings, split_override};
use httpserv::percent::{hex_digit, percent_decode_bytes};
use httpserv::resolve::{after_last_index, content_type_of, extension_of, join};
use httpserv::text::{append, find_first, has_parent, same_bytes};
use httpserv::DecodeFail;

#[test]
fn hex_digits_have_their_value() {
  for (digit, value) in "0123456789abcdef".bytes().zip(0u8..) {
    assert_eq!(hex_digit(digit), Some(value));
    assert_eq!(hex_digit(digit.to_ascii_uppercase()), Some(value));
  }
  for other in [b'g', b'G', b'/', b':', b'@', b'`', b' ', b'+', b'-', 0x00, 0x80, 0xff] {
    assert_eq!(hex_digit(other), None);
  }
}

#[test]
fn bytes_are_decoded_before_utf8_is_asked_for() {
  assert_eq!(percent_decode_bytes(b"%ff%FE"), Ok(vec![0xff, 0xfe]));
  assert_eq!(percent_decode_bytes(b"\xffa%41"), Ok(vec![0xff, b'a', b'A']));
  assert_eq!(percent_decode_bytes(b"%2F"), Err(DecodeFail::EncodedSlash));
  assert_eq!(percent_decode_bytes(b"%2"), Err(DecodeFail::BadEscape));
  assert_eq!(percent_decode_bytes(b""), Ok(vec![]));
}

#[test]
fn first_hit_is_found() {
  assert_eq!(find_first(b"a?b#c", b'?', b'#'), 1);
  assert_eq!(find_first(b"a#b?c", b'?', b'#'), 1);
  assert_eq!(find_first(b"abc", b'?', b'#'), 3);
  assert_eq!(find_first(b"", b'?', b'#'), 0);
  assert_eq!(find_first(b"GET /", b' ', b' '), 3);
  assert_eq!(find_first(b"#", b'?', b'#'), 0);
}

#[test]
fn last_hit_is_found() {
  assert_eq!(after_last_index(b"a/b/c", b'/'), 4);
  assert_eq!(after_last_index(b"abc", b'/'), 0);
  assert_eq!(after_last_index(b"abc/", b'/'), 4);
  assert_eq!(after_last_index(b"/abc", b'/'), 1);
  assert_eq!(after_last_index(b"", b'/'), 0);
}

#[test]
fn parent_components_are_told_from_names() {
  for path in ["..", "../", "/..", "a/..", "a/../b", "../a", "a/b/..", "//..//"] {
    assert!(has_parent(path.as_bytes()), "{:?}", path);
  }
  for path in ["", ".", "...", "a..", "..a", "a/..b", "a../b", "a/b", "./.", ". .", ".\u{0}."] {
    assert!(!has_parent(path.as_bytes()), "{:?}", path);
  }
}

#[test]
fn bytes_compare() {
  assert!(same_bytes(b"", b""));
  assert!(same_bytes(b"jpg", b"jpg"));
  assert!(!same_bytes(b"jpg", b"jpeg"));
  assert!(!same_bytes(b"jpg", b"jpG"));
  assert!(!same_bytes(b"jpg", b""));
}

#[test]
fn bytes_append() {
  let mut out = b"ab".to_vec();
  append(&mut out, b"");
  assert_eq!(out, b"ab");
  append(&mut out, b"cd");
  assert_eq!(out, b"abcd");
}

#[test]
fn paths_join_with_one_slash() {
  assert_eq!(join(b"root", b"file"), b"root/file");
  assert_eq!(join(b"root/", b"file"), b"root/file");
  assert_eq!(join(b"root", b""), b"root/");
  assert_eq!(join(b"root/", b""), b"root/");
  assert_eq!(join(b"", b"file"), b"./file");
  assert_eq!(join(b"root", b"/file"), b"root//file");
  assert_eq!(join(b"/", b"file"), b"/file");
}

#[test]
fn extensions() {
  assert_eq!(extension_of(b"root/a.html"), b"html");
  assert_eq!(extension_of(b"root/a.tar.gz"), b"gz");
  assert_eq!(extension_of(b"root.d/a"), b"");
  assert_eq!(extension_of(b"root/a."), b"");
  assert_eq!(extension_of(b"root/.hidden"), b"hidden");
  assert_eq!(extension_of(b"a.b/"), b"");
  assert_eq!(extension_of(b""), b"");
  assert_eq!(extension_of(b"a.\xff"), b"\xff");
}

#[test]
fn content_type_by_extension() {
  let mappings = default_mappings();
  assert_eq!(content_type_of(&mappings, b"root/index.html"), "text/html");
  assert_eq!(content_type_of(&mappings, b"root/logo.svg"), "image/svg+xml");
  assert_eq!(content_type_of(&mappings, b"root/README"), "text/plain");
  assert_eq!(content_type_of(&mappings, b"root/a.\xff"), "text/plain");
}

#[test]
fn overrides_split() {
  assert_eq!(split_override("jpg=custom/type"), Some(("jpg".to_string(), "custom/type".to_string())));
  assert_eq!(split_override("="), Some((String::new(), String::new())));
  assert_eq!(split_override("a=b=c"), Some(("a".to_string(), "b=c".to_string())));
  assert_eq!(split_override("\u{e9}=\u{20ac}"), Some(("\u{e9}".to_string(), "\u{20ac}".to_string())));
  assert_eq!(split_override("jpg"), None);
  assert_eq!(split_override(""), None);
}
