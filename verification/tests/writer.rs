use respite::{RespConfig, RespError, RespFrame, RespPoll, RespReader, RespVersion, RespWriter};

fn writer(version: RespVersion) -> RespWriter {
    let mut writer = RespWriter::new();
    writer.set_version(version);
    writer
}

fn written(result: Result<(), RespError>, mut writer: RespWriter) -> Vec<u8> {
    result.expect("must be Ok(…)");
    writer.take()
}

fn refused(result: Result<(), RespError>, mut writer: RespWriter) -> RespError {
    let error = result.expect_err("got Ok(_)");
    assert!(writer.take().is_empty());
    error
}

fn v2() -> RespWriter {
    writer(RespVersion::V2)
}

fn v3() -> RespWriter {
    writer(RespVersion::V3)
}

#[test]
fn write_nil() {
    let mut w = v2();
    assert_eq!(written(w.write_nil(), w), b"$-1\r\n");
    let mut w = v3();
    assert_eq!(written(w.write_nil(), w), b"_\r\n");
}

#[test]
fn write_array() {
    for version in [RespVersion::V2, RespVersion::V3] {
        let mut w = writer(version);
        assert_eq!(written(w.write_array(0), w), b"*0\r\n");
        let mut w = writer(version);
        assert_eq!(written(w.write_array(1), w), b"*1\r\n");
        let mut w = writer(version);
        assert_eq!(written(w.write_array(73), w), b"*73\r\n");
    }
}

#[test]
fn write_attribute() {
    let mut w = v2();
    assert!(matches!(refused(w.write_attribute(4), w), RespError::Version));
    let mut w = v3();
    assert_eq!(written(w.write_attribute(4), w), b"|4\r\n");
}

#[test]
fn write_bignum() {
    let mut w = v2();
    assert_eq!(written(w.write_bignum("12345".as_bytes()), w), b"+12345\r\n");
    let mut w = v2();
    assert!(matches!(refused(w.write_bignum("123\n45".as_bytes()), w), RespError::Newline));
    let mut w = v3();
    assert_eq!(written(w.write_bignum("12345".as_bytes()), w), b"(12345\r\n");
    let mut w = v3();
    assert!(matches!(refused(w.write_bignum("123\n45".as_bytes()), w), RespError::Newline));
}

#[test]
fn write_blob_error() {
    let mut w = v2();
    assert!(matches!(refused(w.write_blob_error("ERR x".as_bytes()), w), RespError::Version));
    let mut w = v3();
    assert_eq!(written(w.write_blob_error("ERR x".as_bytes()), w), b"!5\r\nERR x\r\n");
}

#[test]
fn write_blob_string() {
    let mut w = v2();
    assert_eq!(written(w.write_blob_string("12345".as_bytes()), w), b"$5\r\n12345\r\n");
    let mut w = v3();
    assert_eq!(written(w.write_blob_string("12345".as_bytes()), w), b"$5\r\n12345\r\n");
    let mut w = v3();
    assert_eq!(written(w.write_blob_string(b"a\r\nb\n"), w), b"$5\r\na\r\nb\n\r\n");
    let mut w = v3();
    assert_eq!(written(w.write_blob_string(b""), w), b"$0\r\n\r\n");
}

#[test]
fn write_boolean() {
    let mut w = v2();
    assert_eq!(written(w.write_boolean(true), w), b":1\r\n");
    let mut w = v2();
    assert_eq!(written(w.write_boolean(false), w), b":0\r\n");
    let mut w = v3();
    assert_eq!(written(w.write_boolean(true), w), b"#t\r\n");
    let mut w = v3();
    assert_eq!(written(w.write_boolean(false), w), b"#f\r\n");
}

#[test]
fn write_double() {
    let text = format!("{}", 1.23f64);
    let mut w = v2();
    assert_eq!(written(w.write_double(text.as_bytes()), w), b"+1.23\r\n");
    let mut w = v3();
    assert_eq!(written(w.write_double(text.as_bytes()), w), b",1.23\r\n");
}

#[test]
fn write_double_takes_what_floats_print_as() {
    for value in [0.0f64, -0.0, 1e300, -1e-300, f64::MAX, f64::MIN_POSITIVE, f64::INFINITY, f64::NEG_INFINITY, f64::NAN] {
        let text = format!("{}", value);
        let mut w = v3();
        let mut expected = vec![b','];
        expected.extend_from_slice(text.as_bytes());
        expected.extend_from_slice(b"\r\n");
        assert_eq!(written(w.write_double(text.as_bytes()), w), expected);
    }
}

#[test]
fn write_double_refuses_other_text() {
    for text in ["", "one", "1.5\r\n+OK", "1,5", "1e"] {
        let mut w = v3();
        assert!(matches!(refused(w.write_double(text.as_bytes()), w), RespError::InvalidDouble));
        let mut w = v2();
        assert!(matches!(refused(w.write_double(text.as_bytes()), w), RespError::InvalidDouble));
    }
}

#[test]
fn write_integer() {
    let mut w = v2();
    assert_eq!(written(w.write_integer(1023), w), b":1023\r\n");
    let mut w = v2();
    assert_eq!(written(w.write_integer(-15), w), b":-15\r\n");
    let mut w = v3();
    assert_eq!(written(w.write_integer(1023), w), b":1023\r\n");
    let mut w = v3();
    assert_eq!(written(w.write_integer(-15), w), b":-15\r\n");
}

#[test]
fn write_integer_extremes() {
    let mut w = v3();
    assert_eq!(written(w.write_integer(0), w), b":0\r\n");
    let mut w = v3();
    assert_eq!(written(w.write_integer(i64::MAX), w), b":9223372036854775807\r\n");
    let mut w = v3();
    assert_eq!(written(w.write_integer(i64::MIN), w), b":-9223372036854775808\r\n");
}

#[test]
fn write_map() {
    let mut w = v2();
    assert_eq!(written(w.write_map(1023), w), b"*2046\r\n");
    let mut w = v2();
    assert_eq!(written(w.write_map(15), w), b"*30\r\n");
    let mut w = v3();
    assert_eq!(written(w.write_map(1023), w), b"%1023\r\n");
    let mut w = v3();
    assert_eq!(written(w.write_map(15), w), b"%15\r\n");
}

#[test]
fn write_map_of_any_size() {
    let mut w = v2();
    let expected = format!("*{}\r\n", 2 * (usize::MAX as u128));
    assert_eq!(written(w.write_map(usize::MAX), w), expected.as_bytes());
}

#[test]
fn write_push() {
    let mut w = v2();
    assert_eq!(written(w.write_push(1023), w), b"*1023\r\n");
    let mut w = v2();
    assert_eq!(written(w.write_push(15), w), b"*15\r\n");
    let mut w = v3();
    assert_eq!(written(w.write_push(1023), w), b">1023\r\n");
    let mut w = v3();
    assert_eq!(written(w.write_push(15), w), b">15\r\n");
}

#[test]
fn write_set() {
    let mut w = v2();
    assert_eq!(written(w.write_set(1023), w), b"*1023\r\n");
    let mut w = v2();
    assert_eq!(written(w.write_set(15), w), b"*15\r\n");
    let mut w = v3();
    assert_eq!(written(w.write_set(1023), w), b"~1023\r\n");
    let mut w = v3();
    assert_eq!(written(w.write_set(15), w), b"~15\r\n");
}

#[test]
fn write_simple_error() {
    let mut w = v2();
    assert_eq!(written(w.write_simple_error("ERR x".as_bytes()), w), b"-ERR x\r\n");
    let mut w = v3();
    assert_eq!(written(w.write_simple_error("ERR x".as_bytes()), w), b"-ERR x\r\n");
    let mut w = v2();
    assert!(matches!(refused(w.write_simple_error("ERR\nx".as_bytes()), w), RespError::Newline));
    let mut w = v3();
    assert!(matches!(refused(w.write_simple_error("ERR\nx".as_bytes()), w), RespError::Newline));
}

#[test]
fn write_simple_string() {
    let mut w = v2();
    assert_eq!(written(w.write_simple_string("foo".as_bytes()), w), b"+foo\r\n");
    let mut w = v3();
    assert_eq!(written(w.write_simple_string("foo".as_bytes()), w), b"+foo\r\n");
    let mut w = v2();
    assert!(matches!(refused(w.write_simple_string("new\nline".as_bytes()), w), RespError::Newline));
    let mut w = v3();
    assert!(matches!(refused(w.write_simple_string("new\nline".as_bytes()), w), RespError::Newline));
}

#[test]
fn write_verbatim() {
    let mut w = v2();
    assert_eq!(
        written(w.write_verbatim("txt".as_bytes(), "1234567890".as_bytes()), w),
        b"$10\r\n1234567890\r\n"
    );
    let mut w = v3();
    assert_eq!(
        written(w.write_verbatim("txt".as_bytes(), "1234567890".as_bytes()), w),
        b"=14\r\ntxt:1234567890\r\n"
    );
}

#[test]
fn writes_follow_each_other() {
    let mut w = RespWriter::new();
    assert_eq!(w.version(), RespVersion::V2);
    w.write_array(2).unwrap();
    w.write_blob_string(b"GET").unwrap();
    assert!(w.write_blob_error(b"no").is_err());
    assert!(w.write_simple_string(b"a\nb").is_err());
    w.write_blob_string(b"key").unwrap();
    assert_eq!(w.written(), b"*2\r\n$3\r\nGET\r\n$3\r\nkey\r\n");
    assert_eq!(w.take(), b"*2\r\n$3\r\nGET\r\n$3\r\nkey\r\n");
    assert_eq!(w.written(), b"");
    w.set_version(RespVersion::V3);
    w.write_nil().unwrap();
    assert_eq!(w.take(), b"_\r\n");
}

fn decode_all(bytes: &[u8]) -> Vec<RespFrame> {
    let mut reader = RespReader::new(RespConfig::default());
    reader.feed(bytes);
    reader.finish();
    let mut frames = Vec::new();
    loop {
        match reader.frame() {
            RespPoll::Ready(Ok(Some(frame))) => frames.push(frame),
            RespPoll::Ready(Ok(None)) => return frames,
            other => panic!("unexpected {:?}", other),
        }
    }
}

#[test]
fn what_is_written_in_v3_is_read_back() {
    let mut w = v3();
    w.write_array(3).unwrap();
    w.write_attribute(1).unwrap();
    w.write_bignum(b"12345678901234567890123").unwrap();
    w.write_blob_error(b"ERR\r\nx").unwrap();
    w.write_blob_string(b"a\r\nb").unwrap();
    w.write_boolean(true).unwrap();
    w.write_boolean(false).unwrap();
    w.write_double(b"-1.5e3").unwrap();
    w.write_integer(i64::MIN).unwrap();
    w.write_map(7).unwrap();
    w.write_nil().unwrap();
    w.write_push(usize::MAX).unwrap();
    w.write_set(0).unwrap();
    w.write_simple_error(b"ERR x").unwrap();
    w.write_simple_string(b"").unwrap();
    w.write_verbatim(b"txt", b"a:b").unwrap();
    assert_eq!(
        decode_all(&w.take()),
        vec![
            RespFrame::Array(3),
            RespFrame::Attribute(1),
            RespFrame::Bignum("12345678901234567890123".into()),
            RespFrame::BlobError("ERR\r\nx".into()),
            RespFrame::BlobString("a\r\nb".into()),
            RespFrame::Boolean(true),
            RespFrame::Boolean(false),
            RespFrame::Double("-1.5e3".into()),
            RespFrame::Integer(i64::MIN),
            RespFrame::Mapping(7),
            RespFrame::Nil,
            RespFrame::Push(usize::MAX),
            RespFrame::Members(0),
            RespFrame::SimpleError("ERR x".into()),
            RespFrame::SimpleString("".into()),
            RespFrame::Verbatim("txt".into(), "a:b".into()),
        ]
    );
}

#[test]
fn what_is_written_in_v2_is_read_back_as_its_stand_in() {
    let mut w = v2();
    w.write_array(3).unwrap();
    w.write_bignum(b"123").unwrap();
    w.write_blob_string(b"ab").unwrap();
    w.write_boolean(true).unwrap();
    w.write_boolean(false).unwrap();
    w.write_double(b"2.5").unwrap();
    w.write_integer(-7).unwrap();
    w.write_map(7).unwrap();
    w.write_nil().unwrap();
    w.write_push(4).unwrap();
    w.write_set(5).unwrap();
    w.write_simple_error(b"ERR x").unwrap();
    w.write_simple_string(b"OK").unwrap();
    w.write_verbatim(b"txt", b"abc").unwrap();
    assert_eq!(
        decode_all(&w.take()),
        vec![
            RespFrame::Array(3),
            RespFrame::SimpleString("123".into()),
            RespFrame::BlobString("ab".into()),
            RespFrame::Integer(1),
            RespFrame::Integer(0),
            RespFrame::SimpleString("2.5".into()),
            RespFrame::Integer(-7),
            RespFrame::Array(14),
            RespFrame::Nil,
            RespFrame::Array(4),
            RespFrame::Array(5),
            RespFrame::SimpleError("ERR x".into()),
            RespFrame::SimpleString("OK".into()),
            RespFrame::BlobString("abc".into()),
        ]
    );
}

#[test]
fn version_numbers() {
    assert_eq!(u8::from(RespVersion::V2), 2);
    assert_eq!(u8::from(RespVersion::V3), 3);
    assert_eq!(RespVersion::V2.to_string(), "2");
    assert_eq!(RespVersion::V3.to_string(), "3");
}
