use respite::scan::{peek, pop, read_exact, read_line, read_size, require};
use respite::{RespError, Scan};

#[test]
fn read_size_valid() {
    assert!(matches!(read_size(b"1234\r\n", 0, true), Scan::Done(1234, 6)));
    assert!(matches!(read_size(b"0\r\n", 0, true), Scan::Done(0, 3)));
    assert!(matches!(read_size(b"007\r\nrest", 0, false), Scan::Done(7, 5)));
    assert!(matches!(read_size(b"xx12\r\n", 2, false), Scan::Done(12, 6)));
}

#[test]
fn read_size_invalid() {
    assert!(matches!(
        read_size(b"invalid\r\n", 0, true),
        Scan::Fail(RespError::InvalidBlobLength, 1)
    ));
    assert!(matches!(read_size(b"\r\n", 0, true), Scan::Fail(RespError::InvalidBlobLength, 0)));
    assert!(matches!(read_size(b"-1\r\n", 0, true), Scan::Fail(RespError::InvalidBlobLength, 1)));
    assert!(matches!(read_size(b"12a\r\n", 0, true), Scan::Fail(RespError::InvalidBlobLength, 3)));
    assert!(matches!(read_size(b"12\rx", 0, true), Scan::Fail(RespError::Unexpected(b'\n', b'x'), 4)));
}

#[test]
fn read_size_overflow() {
    let max = format!("{}\r\n", usize::MAX);
    assert!(matches!(read_size(max.as_bytes(), 0, true), Scan::Done(usize::MAX, _)));
    let more = format!("{}0\r\n", usize::MAX);
    assert!(matches!(
        read_size(more.as_bytes(), 0, true),
        Scan::Fail(RespError::InvalidBlobLength, _)
    ));
    let next = format!("{}\r\n", usize::MAX as u128 + 1);
    assert!(matches!(
        read_size(next.as_bytes(), 0, true),
        Scan::Fail(RespError::InvalidBlobLength, _)
    ));
}

#[test]
fn read_size_end_of_input() {
    assert!(matches!(read_size(b"12", 0, true), Scan::Fail(RespError::EndOfInput, 2)));
    assert!(matches!(read_size(b"12", 0, false), Scan::More));
    assert!(matches!(read_size(b"12\r", 0, false), Scan::More));
    assert!(matches!(read_size(b"", 0, false), Scan::More));
    assert!(matches!(read_size(b"", 0, true), Scan::Fail(RespError::EndOfInput, 0)));
}

#[test]
fn pop_each_byte() {
    let input = b"abcde";
    assert!(matches!(pop(input, 0, true), Scan::Done(b'a', 1)));
    assert!(matches!(pop(input, 1, true), Scan::Done(b'b', 2)));
    assert!(matches!(pop(input, 2, true), Scan::Done(b'c', 3)));
    assert!(matches!(pop(input, 3, true), Scan::Done(b'd', 4)));
    assert!(matches!(pop(input, 4, true), Scan::Done(b'e', 5)));
    assert!(matches!(pop(input, 5, true), Scan::Fail(RespError::EndOfInput, 5)));
    assert!(matches!(pop(input, 5, false), Scan::More));
}

#[test]
fn require_bytes() {
    let input = b"abcf";
    assert!(matches!(require(input, 0, b"ab", true), Scan::Done((), 2)));
    assert!(matches!(
        require(input, 2, b"cd", true),
        Scan::Fail(RespError::Unexpected(b'd', b'f'), 4)
    ));
    assert!(matches!(require(input, 2, b"cfg", false), Scan::More));
    assert!(matches!(require(input, 2, b"cfg", true), Scan::Fail(RespError::EndOfInput, 4)));
    assert!(matches!(require(input, 2, b"", true), Scan::Done((), 2)));
    assert!(matches!(
        require(input, 2, b"xfg", false),
        Scan::Fail(RespError::Unexpected(b'x', b'c'), 3)
    ));
}

#[test]
fn read_line_whole() {
    match read_line(b"abcdefg\r\n", 0, 65536, true) {
        Scan::Done(line, 9) => assert_eq!(line, b"abcdefg"),
        other => panic!("unexpected {:?}", other),
    }
    match read_line(b"+\r\nrest", 1, 65536, false) {
        Scan::Done(line, 3) => assert_eq!(line, b""),
        other => panic!("unexpected {:?}", other),
    }
}

#[test]
fn read_line_malformed_crlf() {
    assert!(matches!(
        read_line(b"abcdefg\rxxxxx", 0, 65536, true),
        Scan::Fail(RespError::Unexpected(b'\n', b'x'), 9)
    ));
}

#[test]
fn read_line_limit() {
    assert!(matches!(read_line(b"1234\r\n", 0, 5, true), Scan::Done(_, 6)));
    assert!(matches!(read_line(b"12345\r\n", 0, 5, true), Scan::Fail(RespError::TooBigInline, 0)));
    assert!(matches!(read_line(b"123456", 0, 5, false), Scan::Fail(RespError::TooBigInline, 0)));
    assert!(matches!(read_line(b"12345", 0, 5, false), Scan::More));
    assert!(matches!(read_line(b"12345", 0, 5, true), Scan::Fail(RespError::EndOfInput, 0)));
    assert!(matches!(read_line(b"xx1234\r\n", 2, 5, true), Scan::Done(_, 8)));
    assert!(matches!(read_line(b"\r\n", 0, 0, true), Scan::Fail(RespError::TooBigInline, 0)));
    assert!(matches!(read_line(b"", 0, 0, true), Scan::Fail(RespError::EndOfInput, 0)));
}

#[test]
fn read_line_end_of_input() {
    assert!(matches!(read_line(b"abc", 0, 65536, true), Scan::Fail(RespError::EndOfInput, 0)));
    assert!(matches!(read_line(b"abc\r", 0, 65536, true), Scan::Fail(RespError::EndOfInput, 4)));
    assert!(matches!(read_line(b"abc\r", 0, 65536, false), Scan::More));
}

#[test]
fn read_exact_bytes() {
    match read_exact(b"abcdefgxxxxxxxxxxxxxx", 0, 7, true) {
        Scan::Done(bytes, 7) => assert_eq!(bytes, b"abcdefg"),
        other => panic!("unexpected {:?}", other),
    }
    match read_exact(b"abcdefg", 3, 0, true) {
        Scan::Done(bytes, 3) => assert_eq!(bytes, b""),
        other => panic!("unexpected {:?}", other),
    }
}

#[test]
fn read_exact_end_of_input() {
    assert!(matches!(read_exact(b"abcd", 0, 7, true), Scan::Fail(RespError::EndOfInput, 0)));
    assert!(matches!(read_exact(b"abcd", 0, 7, false), Scan::More));
    assert!(matches!(read_exact(b"abcd", 2, usize::MAX, false), Scan::More));
}

#[test]
fn peek_byte() {
    assert!(matches!(peek(b"a", 0, true), Scan::Done(Some(b'a'), 0)));
    assert!(matches!(pop(b"a", 0, true), Scan::Done(b'a', 1)));
    assert!(matches!(peek(b"a", 1, true), Scan::Done(None, 1)));
    assert!(matches!(peek(b"a", 1, false), Scan::More));
}
