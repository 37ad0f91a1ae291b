use bytes::Bytes;
use respite::Splitter;

fn drain(splitter: &mut Splitter) -> Vec<Bytes> {
    let mut actual = Vec::new();
    while let Some(argument) = splitter.next() {
        actual.push(argument);
    }
    actual
}

fn assert_splits(input: &[u8], expected: &[&[u8]]) {
    let mut splitter = Splitter::default();
    assert!(splitter.split(input));
    let actual = drain(&mut splitter);
    let expected: Vec<Bytes> = expected.iter().map(|x| Bytes::copy_from_slice(x)).collect();
    assert_eq!(actual, expected);
}

fn assert_does_not_split(input: &[u8]) {
    let mut splitter = Splitter::default();
    assert!(!splitter.split(input));
    assert_eq!(None, splitter.next());
}

#[test]
fn splitter_empty() {
    assert_splits(b"", &[]);
    assert_splits(b"  ", &[]);
}

#[test]
fn splitter_trim() {
    assert_splits(b"     get   y ", &[b"get", b"y"]);
    assert_splits(b"   y ", &[b"y"]);
    assert_splits(b"   \"y\" ", &[b"y"]);
    assert_splits(b"\t\r   \"y\"\r\n", &[b"y"]);
    assert_splits(b" \"x\"  'y'   z ", &[b"x", b"y", b"z"]);
}

#[test]
fn splitter_one_argument() {
    assert_splits(b"get", &[b"get"]);
}

#[test]
fn splitter_multiple_arguments() {
    assert_splits(b"get x y", &[b"get", b"x", b"y"]);
    assert_splits(b" x y", &[b"x", b"y"]);
}

#[test]
fn splitter_single_quotes() {
    assert_splits(b" 'x' ", &[b"x"]);
    assert_splits(b" '\\'' ", &[b"'"]);
    assert_splits(b" '\\x' ", &[b"\\x"]);

    assert_does_not_split(b" 'x'y ");
}

#[test]
fn splitter_double_quotes() {
    assert_splits(b" \"\\\"\\r\\n\\t\" ", &[b"\"\r\n\t"]);
    assert_splits(b"\"x\"", &[b"x"]);
    assert_splits(b"\"\\x11\"", &[b"\x11"]);
    assert_splits(b"\"\\xzz\"", &[b"xzz"]);

    assert_does_not_split(b" \"x\"y");
}

#[test]
fn splitter_alarm() {
    assert_splits(b" \"\\a\" ", &[b"\x07"]);
}

#[test]
fn splitter_backspace() {
    assert_splits(b" \"\\b\" ", &[b"\x08"]);
}

#[test]
fn splitter_reuse_after_invalid_line() {
    let mut splitter = Splitter::new();
    assert!(splitter.split(b"one two"));
    assert!(!splitter.split(b"three 'four"));
    assert_eq!(None, splitter.next());
    assert!(splitter.split(b"five \"six seven\""));
    assert_eq!(drain(&mut splitter), vec![Bytes::from("five"), Bytes::from("six seven")]);
}

#[test]
fn splitter_queues_lines_in_order() {
    let mut splitter = Splitter::new();
    assert!(splitter.split(b"a b"));
    assert_eq!(splitter.next(), Some(Bytes::from("a")));
    assert!(splitter.split(b"c"));
    assert_eq!(drain(&mut splitter), vec![Bytes::from("b"), Bytes::from("c")]);
}
