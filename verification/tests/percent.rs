use httpserv::{percent_decode, DecodeFail};

#[test]
fn plain_text_is_unchanged() {
  assert_eq!(percent_decode("subdir/file.txt"), Ok("subdir/file.txt".to_string()));
  assert_eq!(percent_decode(""), Ok(String::new()));
}

#[test]
fn escapes_decode_to_their_byte() {
  assert_eq!(percent_decode("a%20b"), Ok("a b".to_string()));
  assert_eq!(percent_decode("%41%42%43"), Ok("ABC".to_string()));
  assert_eq!(percent_decode("%7e"), Ok("~".to_string()));
  assert_eq!(percent_decode("%7E"), Ok("~".to_string()));
  assert_eq!(percent_decode("x%00y"), Ok("x\0y".to_string()));
  assert_eq!(percent_decode("100%25"), Ok("100%".to_string()));
}

#[test]
fn escapes_join_into_characters() {
  assert_eq!(percent_decode("caf%C3%A9"), Ok("caf\u{e9}".to_string()));
  assert_eq!(percent_decode("%e2%82%ac"), Ok("\u{20ac}".to_string()));
  assert_eq!(percent_decode("%F0%9F%98%80"), Ok("\u{1F600}".to_string()));
  assert_eq!(percent_decode("caf\u{e9}"), Ok("caf\u{e9}".to_string()));
}

#[test]
fn decoded_percent_is_not_read_again() {
  assert_eq!(percent_decode("%252F"), Ok("%2F".to_string()));
  assert_eq!(percent_decode("%2541"), Ok("%41".to_string()));
}

#[test]
fn encoded_slash_is_refused() {
  assert_eq!(percent_decode("%2F"), Err(DecodeFail::EncodedSlash));
  assert_eq!(percent_decode("a%2Fb"), Err(DecodeFail::EncodedSlash));
  assert_eq!(percent_decode("..%2F..%2Fetc"), Err(DecodeFail::EncodedSlash));
}

#[test]
fn any_path_with_encoded_slash_fails() {
  for path in ["%2F", "x%2F", "%2Fx", "%%2F", "%2%2F", "%4%2F", "%41%2F", "%25%2F", "%%%2F"] {
    assert!(percent_decode(path).is_err(), "{}", path);
  }
}

#[test]
fn short_escape_is_refused() {
  assert_eq!(percent_decode("%"), Err(DecodeFail::BadEscape));
  assert_eq!(percent_decode("%4"), Err(DecodeFail::BadEscape));
  assert_eq!(percent_decode("abc%"), Err(DecodeFail::BadEscape));
  assert_eq!(percent_decode("abc%2"), Err(DecodeFail::BadEscape));
}

#[test]
fn escape_needs_two_hex_digits() {
  assert_eq!(percent_decode("%zz"), Err(DecodeFail::BadEscape));
  assert_eq!(percent_decode("%4g"), Err(DecodeFail::BadEscape));
  assert_eq!(percent_decode("%g4"), Err(DecodeFail::BadEscape));
  assert_eq!(percent_decode("%+A"), Err(DecodeFail::BadEscape));
  assert_eq!(percent_decode("%-1"), Err(DecodeFail::BadEscape));
  assert_eq!(percent_decode("% 1"), Err(DecodeFail::BadEscape));
  assert_eq!(percent_decode("%\u{e9}"), Err(DecodeFail::BadEscape));
  assert_eq!(percent_decode("%a\u{e9}"), Err(DecodeFail::BadEscape));
}

#[test]
fn first_fault_from_the_left_is_reported() {
  assert_eq!(percent_decode("%zz%2F"), Err(DecodeFail::BadEscape));
  assert_eq!(percent_decode("%2F%zz"), Err(DecodeFail::EncodedSlash));
  assert_eq!(percent_decode("%ff%2F"), Err(DecodeFail::EncodedSlash));
  assert_eq!(percent_decode("%ff%"), Err(DecodeFail::BadEscape));
}

#[test]
fn decoded_bytes_must_be_utf8() {
  assert_eq!(percent_decode("%ff"), Err(DecodeFail::NotUtf8));
  assert_eq!(percent_decode("%C3"), Err(DecodeFail::NotUtf8));
  assert_eq!(percent_decode("%C3%28"), Err(DecodeFail::NotUtf8));
  assert_eq!(percent_decode("%ED%A0%80"), Err(DecodeFail::NotUtf8));
  assert_eq!(percent_decode("%C0%AF"), Err(DecodeFail::NotUtf8));
  assert_eq!(percent_decode("a%80"), Err(DecodeFail::NotUtf8));
}

#[test]
fn lower_case_escape_of_slash_decodes() {
  assert_eq!(percent_decode("a%2fb"), Ok("a/b".to_string()));
}
