use bytes::Bytes;
use respite::{RespConfig, RespError, RespFrame, RespPoll, RespReader};

fn read_frame_from(input: &str, config: RespConfig) -> Result<Option<RespFrame>, RespError> {
    let mut reader = RespReader::new(config);
    reader.feed(input.as_bytes());
    reader.finish();
    match reader.frame() {
        RespPoll::Ready(result) => result,
        RespPoll::Pending => panic!("a reader whose source has ended cannot be pending"),
    }
}

fn frame_of(input: &str) -> RespFrame {
    read_frame_from(input, RespConfig::default())
        .expect("must be Ok(…)")
        .expect("must be Some(_)")
}

fn frame_error(input: &str) -> RespError {
    read_frame_from(input, RespConfig::default()).expect_err("must be Err(…)")
}

fn frame_error_with(input: &str, config: RespConfig) -> RespError {
    read_frame_from(input, config).expect_err("must be Err(…)")
}

fn double_of(input: &str) -> f64 {
    match frame_of(input) {
        RespFrame::Double(text) => std::str::from_utf8(&text).unwrap().parse().unwrap(),
        other => panic!("expected a double but got {:?}", other),
    }
}

#[test]
fn returns_none() {
    let mut reader = RespReader::new(RespConfig::default());
    reader.feed("+OK\r\n".as_bytes());
    reader.finish();
    match reader.frame() {
        RespPoll::Ready(Ok(frame)) => {
            assert_eq!(frame, Some(RespFrame::SimpleString("OK".into())))
        }
        other => panic!("unexpected {:?}", other),
    }
    assert!(matches!(reader.frame(), RespPoll::Ready(Ok(None))));
    assert!(matches!(reader.frame(), RespPoll::Ready(Ok(None))));
}

#[test]
fn array_frame() {
    assert_eq!(frame_of("*0\r\n"), RespFrame::Array(0));
    assert_eq!(frame_of("*1\r\n"), RespFrame::Array(1));
    assert_eq!(frame_of("*-1\r\n"), RespFrame::Nil);
    assert!(matches!(frame_error("*\r\n"), RespError::InvalidBlobLength));
    assert!(matches!(frame_error("*1"), RespError::EndOfInput));
}

#[test]
fn bignum_frame() {
    assert_eq!(frame_of("(123\r\n"), RespFrame::Bignum("123".into()));
    assert!(matches!(frame_error("(123"), RespError::EndOfInput));
}

#[test]
fn boolean_frame() {
    assert_eq!(frame_of("#t\r\n"), RespFrame::Boolean(true));
    assert_eq!(frame_of("#f\r\n"), RespFrame::Boolean(false));
    assert!(matches!(frame_error("#x\r\n"), RespError::InvalidBoolean));
    assert!(matches!(frame_error("#t"), RespError::EndOfInput));
    assert!(matches!(frame_error("#tx"), RespError::Unexpected(b'\r', b'x')));
}

#[test]
fn blob_string_frame() {
    assert_eq!(frame_of("$5\r\nabcde\r\n"), RespFrame::BlobString("abcde".into()));
    assert_eq!(frame_of("$-1\r\n"), RespFrame::Nil);
    assert!(matches!(frame_error("$-1"), RespError::EndOfInput));
    assert!(matches!(frame_error("$2"), RespError::EndOfInput));
    assert!(matches!(frame_error("$\r\n\r\n"), RespError::InvalidBlobLength));
    let mut config = RespConfig::default();
    config.set_blob_limit(5);
    assert!(matches!(
        frame_error_with("$10\r\n1234567890\r\n", config),
        RespError::InvalidBlobLength
    ));
}

#[test]
fn double_frame() {
    assert_eq!(double_of(",5.4\r\n"), 5.4f64);
    assert_eq!(double_of(",5.4e1\r\n"), 54f64);
    assert_eq!(double_of(",5.4e+1\r\n"), 54f64);
    assert_eq!(double_of(",5.4e-1\r\n"), 0.54f64);
    assert_eq!(double_of(",5.4E1\r\n"), 54f64);
    assert_eq!(double_of(",5.4E+1\r\n"), 54f64);
    assert_eq!(double_of(",5.4E-1\r\n"), 0.54f64);
    assert_eq!(double_of(",inf\r\n"), f64::INFINITY);
    assert_eq!(double_of(",-inf\r\n"), f64::NEG_INFINITY);
    assert!(double_of(",nan\r\n").is_nan());
    assert!(matches!(frame_error(",invalid\r\n"), RespError::InvalidDouble));
    assert!(matches!(frame_error(",5.4"), RespError::EndOfInput));
}

#[test]
fn double_frame_keeps_its_text() {
    assert_eq!(frame_of(",5.4e1\r\n"), RespFrame::Double("5.4e1".into()));
    assert_eq!(frame_of(",-INF\r\n"), RespFrame::Double("-INF".into()));
}

#[test]
fn double_text_is_what_the_float_parser_takes() {
    let cases: [&str; 40] = [
        "0", "7", "007", "3.14", "-3.14", "+3.14", "2.5E10", "2.5e10", "2.5E-10", "2.5e+10", "5.",
        ".5", "-.5", "+5.", "inf", "-inf", "+inf", "Inf", "INFINITY", "+infinity", "NaN", "nan",
        "-nan", "", "+", "-", ".", "e5", "1e", "1e+", "1.e5", ".e5", "1..2", "1.2.3", " 1", "1 ",
        "1_000", "0x10", "infinit", "1e5.0",
    ];
    for text in cases {
        let input = format!(",{}\r\n", text);
        let library = matches!(
            read_frame_from(&input, RespConfig::default()),
            Ok(Some(RespFrame::Double(_)))
        );
        assert_eq!(library, text.parse::<f64>().is_ok(), "{:?}", text);
    }
}

#[test]
fn error_frame() {
    assert_eq!(frame_of("-ERR x\r\n"), RespFrame::SimpleError("ERR x".into()));
    assert!(matches!(frame_error("-ERR x"), RespError::EndOfInput));
}

#[test]
fn integer_frame() {
    assert_eq!(frame_of(":4\r\n"), RespFrame::Integer(4i64));
    assert_eq!(frame_of(":-4\r\n"), RespFrame::Integer(-4i64));
    assert!(matches!(frame_error(":invalid\r\n"), RespError::InvalidInteger));
    assert!(matches!(frame_error(":4"), RespError::EndOfInput));
}

#[test]
fn integer_text_is_what_the_integer_parser_takes() {
    let cases: [&str; 22] = [
        "0", "-0", "+0", "+4", "0004", "-0004", "9223372036854775807", "9223372036854775808",
        "-9223372036854775808", "-9223372036854775809", "00000000000000000000000000001",
        "99999999999999999999999999", "", "+", "-", "--1", "+-1", " 1", "1 ", "1.0", "0x10", "१",
    ];
    for text in cases {
        let input = format!(":{}\r\n", text);
        let library = match read_frame_from(&input, RespConfig::default()) {
            Ok(Some(RespFrame::Integer(value))) => Some(value),
            Err(RespError::InvalidInteger) => None,
            other => panic!("unexpected {:?} for {:?}", other, text),
        };
        assert_eq!(library, text.parse::<i64>().ok(), "{:?}", text);
    }
}

#[test]
fn map_frame() {
    assert_eq!(frame_of("%4\r\n"), RespFrame::Mapping(4));
    assert!(matches!(frame_error("%invalid\r\n"), RespError::InvalidBlobLength));
    assert!(matches!(frame_error("%4"), RespError::EndOfInput));
}

#[test]
fn attribute_frame() {
    assert_eq!(frame_of("|4\r\n"), RespFrame::Attribute(4));
    assert!(matches!(frame_error("|invalid\r\n"), RespError::InvalidBlobLength));
    assert!(matches!(frame_error("|4"), RespError::EndOfInput));
}

#[test]
fn nil_frame() {
    assert_eq!(frame_of("_\r\n"), RespFrame::Nil);
    assert!(matches!(frame_error("_"), RespError::EndOfInput));
}

#[test]
fn push_frame() {
    assert_eq!(frame_of(">3\r\n"), RespFrame::Push(3));
    assert_eq!(frame_of(">32\r\n"), RespFrame::Push(32));
    assert!(matches!(frame_error(">invalid\r\n"), RespError::InvalidBlobLength));
    assert!(matches!(frame_error(">3"), RespError::EndOfInput));
}

#[test]
fn set_frame() {
    assert_eq!(frame_of("~2\r\n"), RespFrame::Members(2));
    assert_eq!(frame_of("~32\r\n"), RespFrame::Members(32));
    assert!(matches!(frame_error("~invalid\r\n"), RespError::InvalidBlobLength));
    assert!(matches!(frame_error("~3"), RespError::EndOfInput));
}

#[test]
fn simple_string_frame() {
    assert_eq!(frame_of("+abc\r\n"), RespFrame::SimpleString("abc".into()));
    assert_eq!(frame_of("+\r\n"), RespFrame::SimpleString("".into()));
    assert!(matches!(frame_error("+"), RespError::EndOfInput));
}

#[test]
fn verbatim_frame() {
    assert_eq!(
        frame_of("=7\r\ntxt:abc\r\n"),
        RespFrame::Verbatim("txt".into(), "abc".into())
    );
    assert!(matches!(frame_error("=2\r\ntx\r\n"), RespError::InvalidVerbatim));
    assert!(matches!(frame_error("=5\r\ntxt x\r\n"), RespError::InvalidVerbatim));
    assert!(matches!(frame_error("=invalid\r\ntxt x\r\n"), RespError::InvalidBlobLength));
    assert!(matches!(frame_error("=5\r\ntxt:x"), RespError::EndOfInput));
    assert!(matches!(frame_error("=5"), RespError::EndOfInput));
    let mut config = RespConfig::default();
    config.set_blob_limit(5);
    assert!(matches!(
        frame_error_with("=10\r\ntxt:123456\r\n", config),
        RespError::InvalidBlobLength
    ));
}

#[test]
fn verbatim_frame_with_empty_text() {
    assert_eq!(frame_of("=4\r\ntxt:\r\n"), RespFrame::Verbatim("txt".into(), Bytes::new()));
}

#[test]
fn blob_error_frame() {
    assert_eq!(frame_of("!4\r\ntest\r\n"), RespFrame::BlobError("test".into()));
    assert!(matches!(frame_error("!invalid\r\ntx\r\n"), RespError::InvalidBlobLength));
    assert!(matches!(frame_error("!4\r\n"), RespError::EndOfInput));
    assert!(matches!(frame_error("!4"), RespError::EndOfInput));
    let mut config = RespConfig::default();
    config.set_blob_limit(5);
    assert!(matches!(
        frame_error_with("!10\r\n1234567890\r\n", config),
        RespError::InvalidBlobLength
    ));
}

#[test]
fn unknown_type_is_not_consumed() {
    let mut reader = RespReader::new(RespConfig::default());
    reader.feed(b"?x\r\n");
    assert!(matches!(reader.frame(), RespPoll::Ready(Err(RespError::UnknownType(b'?')))));
    assert_eq!(reader.buffered(), 4);
    assert!(matches!(reader.frame(), RespPoll::Ready(Err(RespError::UnknownType(b'?')))));
}

#[test]
fn blob_limit_is_checked_before_the_payload_arrives() {
    let mut config = RespConfig::default();
    config.set_blob_limit(5);
    for header in ["$6\r\n", "!6\r\n", "=6\r\n", "$10\r\nabc"] {
        let mut reader = RespReader::new(config.clone());
        reader.feed(header.as_bytes());
        assert!(
            matches!(reader.frame(), RespPoll::Ready(Err(RespError::InvalidBlobLength))),
            "{:?}",
            header
        );
    }
    let mut reader = RespReader::new(config.clone());
    reader.feed(b"$5\r\nabc");
    assert!(matches!(reader.frame(), RespPoll::Pending));
    reader.feed(b"de\r\n");
    match reader.frame() {
        RespPoll::Ready(Ok(Some(frame))) => assert_eq!(frame, RespFrame::BlobString("abcde".into())),
        other => panic!("unexpected {:?}", other),
    }
}

#[test]
fn limits_are_shared_with_clones() {
    let mut config = RespConfig::default();
    assert_eq!(config.blob_limit(), 512 * 1024 * 1024);
    assert_eq!(config.inline_limit(), 64 * 1024);
    let mut reader = RespReader::new(config.clone());
    config.set_blob_limit(2);
    config.set_inline_limit(3);
    assert_eq!(reader.config().blob_limit(), 2);
    assert_eq!(reader.config().inline_limit(), 3);
    reader.feed(b"$3\r\nabc\r\n");
    assert!(matches!(reader.frame(), RespPoll::Ready(Err(RespError::InvalidBlobLength))));
}

#[test]
fn frame_with_exact_limits() {
    let mut reader = RespReader::new(RespConfig::default());
    reader.feed(b"$3\r\nabc\r\n+abc\r\n+abc\r\n");
    match reader.frame_with(3, 100) {
        RespPoll::Ready(Ok(Some(frame))) => assert_eq!(frame, RespFrame::BlobString("abc".into())),
        other => panic!("unexpected {:?}", other),
    }
    match reader.frame_with(0, 4) {
        RespPoll::Ready(Ok(Some(frame))) => assert_eq!(frame, RespFrame::SimpleString("abc".into())),
        other => panic!("unexpected {:?}", other),
    }
    assert!(matches!(reader.frame_with(0, 3), RespPoll::Ready(Err(RespError::TooBigInline))));
}

#[test]
fn frames_cancel_safety() {
    let mut reader = RespReader::new(RespConfig::default());
    reader.feed(b":1234");
    assert!(matches!(reader.frame(), RespPoll::Pending));
    assert!(matches!(reader.frame(), RespPoll::Pending));
    reader.feed(b"5678\r\n");
    match reader.frame() {
        RespPoll::Ready(Ok(Some(frame))) => assert_eq!(frame, RespFrame::Integer(12345678)),
        other => panic!("unexpected {:?}", other),
    }
}

#[test]
fn frames_arrive_byte_by_byte() {
    let input = b"*2\r\n$5\r\nhello\r\n=7\r\ntxt:abc\r\n#t\r\n_\r\n,1.5\r\n";
    let mut reader = RespReader::new(RespConfig::default());
    let mut frames = Vec::new();
    for byte in input.iter() {
        reader.feed(&[*byte]);
        loop {
            match reader.frame() {
                RespPoll::Ready(Ok(Some(frame))) => frames.push(frame),
                RespPoll::Ready(other) => panic!("unexpected {:?}", other),
                RespPoll::Pending => break,
            }
        }
    }
    reader.finish();
    assert!(matches!(reader.frame(), RespPoll::Ready(Ok(None))));
    assert_eq!(
        frames,
        vec![
            RespFrame::Array(2),
            RespFrame::BlobString("hello".into()),
            RespFrame::Verbatim("txt".into(), "abc".into()),
            RespFrame::Boolean(true),
            RespFrame::Nil,
            RespFrame::Double("1.5".into()),
        ]
    );
}

#[test]
fn an_error_consumes_up_to_the_offending_byte() {
    let mut reader = RespReader::new(RespConfig::default());
    reader.feed(b"#x\r\n:1\r\n");
    assert!(matches!(reader.frame(), RespPoll::Ready(Err(RespError::InvalidBoolean))));
    assert_eq!(reader.buffered(), 6);
}
