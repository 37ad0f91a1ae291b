use bytes::{Bytes, BytesMut};
use respite::split;
use std::collections::VecDeque;

fn split_all(input: &[u8]) -> (bool, Vec<Bytes>) {
    let mut arguments = VecDeque::default();
    let ok = split(BytesMut::from(input), &mut arguments);
    (ok, arguments.iter().cloned().collect())
}

fn assert_split(input: &[u8], expected: &[&[u8]]) {
    let (ok, actual) = split_all(input);
    assert!(ok);
    let expected: Vec<Bytes> = expected.iter().map(|x| Bytes::copy_from_slice(x)).collect();
    assert_eq!(actual, expected);
}

fn assert_no_split(input: &[u8]) {
    let (ok, actual) = split_all(input);
    assert!(!ok);
    assert!(actual.is_empty());
}

#[test]
fn split_empty() {
    assert_split(b"", &[]);
    assert_split(b"  ", &[]);
}

#[test]
fn split_trim() {
    assert_split(b"     get   y ", &[b"get", b"y"]);
    assert_split(b"   y ", &[b"y"]);
    assert_split(b"   \"y\" ", &[b"y"]);
    assert_split(b"\t\r   \"y\"\r\n", &[b"y"]);
    assert_split(b" \"x\"  'y'   z ", &[b"x", b"y", b"z"]);
}

#[test]
fn split_one_argument() {
    assert_split(b"get", &[b"get"]);
}

#[test]
fn split_multiple_arguments() {
    assert_split(b"get x y", &[b"get", b"x", b"y"]);
    assert_split(b" x y", &[b"x", b"y"]);
}

#[test]
fn split_single_quotes() {
    assert_split(b" 'x' ", &[b"x"]);
    assert_split(b" '\\'' ", &[b"'"]);
    assert_split(b" '\\x' ", &[b"\\x"]);

    assert_no_split(b" 'x'y ");
}

#[test]
fn split_double_quotes() {
    assert_split(b" \"\\\"\\r\\n\\t\" ", &[b"\"\r\n\t"]);
    assert_split(b"\"x\"", &[b"x"]);
    assert_split(b"\"\\x11\"", &[b"\x11"]);
    assert_split(b"\"\\xzz\"", &[b"xzz"]);

    assert_no_split(b" \"x\"y");
}

#[test]
fn split_alarm() {
    assert_split(b" \"\\a\" ", &[b"\x07"]);
}

#[test]
fn split_backspace() {
    assert_split(b" \"\\b\" ", &[b"\x08"]);
}

#[test]
fn split_unquoted_after_escaped_quote() {
    assert_split(b"'\\'' ab", &[b"'", b"ab"]);
    assert_split(b"\"\\x41\\n\" bc  d", &[b"A\n", b"bc", b"d"]);
}

#[test]
fn split_keeps_earlier_arguments() {
    let mut arguments = VecDeque::default();
    assert!(split(BytesMut::from(&b"a b"[..]), &mut arguments));
    assert!(split(BytesMut::from(&b"c"[..]), &mut arguments));
    let actual: Vec<Bytes> = arguments.iter().cloned().collect();
    assert_eq!(actual, vec![Bytes::from("a"), Bytes::from("b"), Bytes::from("c")]);
    assert!(!split(BytesMut::from(&b"d 'e"[..]), &mut arguments));
    assert!(arguments.is_empty());
}

#[test]
fn split_unterminated_quotes() {
    assert_no_split(b"'abc");
    assert_no_split(b"\"abc");
    assert_no_split(b"get \"abc\\");
    assert_no_split(b"get 'abc\\'");
}

#[test]
fn split_hex_escapes() {
    assert_split(b"\"\\xff\\x00\\xAb\"", &[b"\xff\x00\xab"]);
    assert_split(b"\"\\x+f\"", &[b"x+f"]);
    assert_no_split(b"\"\\x1\"");
    assert_split(b"\"\\x1\" \"", &[b"x1\" "]);
    assert_split(b"\"\\x\"", &[b"x"]);
    assert_split(b"\"\\xg0 \"", &[b"xg0 "]);
}

#[test]
fn split_other_escapes() {
    assert_split(b"\"\\q\\\\\\'\"", &[b"q\\'"]);
    assert_split(b"'a\\nb'", &[b"a\\nb"]);
    assert_split(b"a\\ b", &[b"a\\", b"b"]);
    assert_split(b"a'b\"c", &[b"a'b\"c"]);
}

#[test]
fn split_empty_quoted_arguments() {
    assert_split(b"'' \"\"", &[b"", b""]);
    assert_split(b"''", &[b""]);
}

#[test]
fn split_whitespace_kinds() {
    assert_split(b"a\tb\nc\x0cd\re f", &[b"a", b"b", b"c", b"d", b"e", b"f"]);
    assert_split(b"a\x0bb", &[b"a\x0bb"]);
}

#[test]
fn split_escape_swallows_quote() {
    assert_split(b"\"\\x\"", &[b"x"]);
    assert_no_split(b"\"\\x\" ");
    assert_no_split(b"\"\\x4\"");
    assert_split(b"  \"\\x\"", &[b"x"]);
    assert_no_split(b"  \"\\x\"\t");
}

#[test]
fn split_ignores_outer_whitespace() {
    for line in [&b"get x"[..], b"'a b' c", b"\"a\\tb\"", b"'unclosed", b"a'b", b""] {
        let mut padded = b" \t".to_vec();
        padded.extend_from_slice(line);
        padded.extend_from_slice(b"\r\n ");
        assert_eq!(split_all(&padded), split_all(line));
    }
}

#[test]
fn split_clean_arguments() {
    for argument in [&b"get"[..], b"a'b\"c", b"\\x41", b"x'", b"\x00\xff"] {
        assert_split(argument, &[argument]);
    }
}
