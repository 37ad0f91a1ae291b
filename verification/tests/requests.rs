use bytes::Bytes;
use respite::{RequestState, RespConfig, RespError, RespPoll, RespReader, RespRequest};

#[derive(Debug, PartialEq)]
enum Piece {
    Argument(Vec<u8>),
    InvalidArgument,
    Error(String),
    End,
}

fn piece(request: RespRequest) -> Piece {
    match request {
        RespRequest::Argument(bytes) => Piece::Argument(bytes.to_vec()),
        RespRequest::InvalidArgument => Piece::InvalidArgument,
        RespRequest::Error(error) => Piece::Error(format!("{:?}", error)),
        RespRequest::End => Piece::End,
    }
}

fn argument(bytes: &[u8]) -> Piece {
    Piece::Argument(bytes.to_vec())
}

fn error(error: RespError) -> Piece {
    Piece::Error(format!("{:?}", error))
}

fn requests_of(config: RespConfig, input: &[u8]) -> Vec<Piece> {
    let mut reader = RespReader::new(config);
    reader.feed(input);
    reader.finish();
    let pieces: Vec<Piece> = reader.requests().into_iter().map(piece).collect();
    assert!(reader.requests().is_empty());
    assert!(reader.requests().is_empty());
    assert_eq!(reader.request_state(), RequestState::Done);
    pieces
}

#[test]
fn read_array_requests() {
    assert_eq!(
        requests_of(RespConfig::default(), b"*2\r\n$1\r\nx\r\n$2\r\nab\r\n*1\r\n$1\r\nz\r\n"),
        vec![argument(b"x"), argument(b"ab"), Piece::End, argument(b"z"), Piece::End]
    );
}

#[test]
fn read_inline_request() {
    assert_eq!(
        requests_of(RespConfig::default(), b"foo bar\r\nbaz bam\r\n"),
        vec![
            argument(b"foo"),
            argument(b"bar"),
            Piece::End,
            argument(b"baz"),
            argument(b"bam"),
            Piece::End
        ]
    );
}

#[test]
fn read_invalid_argument() {
    assert_eq!(
        requests_of(RespConfig::default(), b"foo 'bar\r\nbaz bam\r\nfoo\r\n"),
        vec![
            Piece::InvalidArgument,
            argument(b"baz"),
            argument(b"bam"),
            Piece::End,
            argument(b"foo"),
            Piece::End
        ]
    );
}

#[test]
fn read_invalid_blob_string() {
    assert_eq!(
        requests_of(RespConfig::default(), b"*2\r\n$1\r\nx\r\n$invalid\r\nasdf\r\n"),
        vec![argument(b"x"), error(RespError::InvalidBlobLength)]
    );
}

#[test]
fn read_invalid_end_of_input() {
    assert_eq!(
        requests_of(RespConfig::default(), b"*2\r\n$1\r\nx\r\n$1\r\ny"),
        vec![argument(b"x"), error(RespError::EndOfInput)]
    );
}

#[test]
fn read_too_long_blob_string() {
    let mut config = RespConfig::default();
    config.set_blob_limit(5);
    assert_eq!(
        requests_of(config, b"*2\r\n$1\r\nx\r\n$10\r\n1234567890\r\n"),
        vec![argument(b"x"), error(RespError::InvalidBlobLength)]
    );
}

#[test]
fn read_too_long_inline() {
    let mut config = RespConfig::default();
    config.set_inline_limit(5);
    assert_eq!(requests_of(config, b"1234567890\r\n"), vec![error(RespError::TooBigInline)]);
}

#[test]
fn inline_limit_does_not_bound_array_requests() {
    let mut config = RespConfig::default();
    config.set_inline_limit(5);
    assert_eq!(
        requests_of(config, b"*1\r\n$10\r\n1234567890\r\n"),
        vec![argument(b"1234567890"), Piece::End]
    );
}

#[test]
fn read_empty_requests() {
    assert_eq!(requests_of(RespConfig::default(), b""), vec![]);
    assert_eq!(requests_of(RespConfig::default(), b"*0\r\n"), vec![Piece::End]);
    assert_eq!(requests_of(RespConfig::default(), b"\r\n  \r\n"), vec![Piece::End, Piece::End]);
}

#[test]
fn array_request_takes_no_nil() {
    assert_eq!(
        requests_of(RespConfig::default(), b"*-1\r\n"),
        vec![error(RespError::InvalidBlobLength)]
    );
    assert_eq!(
        requests_of(RespConfig::default(), b"*1\r\n$-1\r\n"),
        vec![error(RespError::InvalidBlobLength)]
    );
    assert_eq!(
        requests_of(RespConfig::default(), b"*1\r\n:1\r\n"),
        vec![error(RespError::Unexpected(b'$', b':'))]
    );
}

#[test]
fn nothing_follows_an_error() {
    let mut reader = RespReader::new(RespConfig::default());
    reader.feed(b"*1\r\n$x\r\nGET a\r\n");
    let pieces: Vec<Piece> = reader.requests().into_iter().map(piece).collect();
    assert_eq!(pieces, vec![error(RespError::InvalidBlobLength)]);
    assert!(reader.buffered() > 0);
    reader.feed(b"GET b\r\n");
    assert!(reader.requests().is_empty());
    assert!(matches!(reader.request(), RespPoll::Ready(Ok(None))));
}

#[test]
fn request_by_request() {
    let mut reader = RespReader::new(RespConfig::default());
    assert!(matches!(reader.request(), RespPoll::Pending));
    reader.feed(b"*2\r\n$3\r\nGE");
    assert!(matches!(reader.request(), RespPoll::Pending));
    assert_eq!(reader.request_state(), RequestState::Args(2));
    assert!(matches!(reader.request(), RespPoll::Pending));
    reader.feed(b"T\r\n$1\r\n");
    match reader.request() {
        RespPoll::Ready(Ok(Some(RespRequest::Argument(bytes)))) => assert_eq!(bytes, Bytes::from("GET")),
        other => panic!("unexpected {:?}", other),
    }
    assert_eq!(reader.request_state(), RequestState::Args(1));
    assert!(matches!(reader.request(), RespPoll::Pending));
    reader.feed(b"k\r\nPING\r");
    match reader.request() {
        RespPoll::Ready(Ok(Some(RespRequest::Argument(bytes)))) => assert_eq!(bytes, Bytes::from("k")),
        other => panic!("unexpected {:?}", other),
    }
    assert!(matches!(reader.request(), RespPoll::Ready(Ok(Some(RespRequest::End)))));
    assert_eq!(reader.request_state(), RequestState::Init);
    assert!(matches!(reader.request(), RespPoll::Pending));
    reader.feed(b"\n");
    match reader.request() {
        RespPoll::Ready(Ok(Some(RespRequest::Argument(bytes)))) => assert_eq!(bytes, Bytes::from("PING")),
        other => panic!("unexpected {:?}", other),
    }
    assert_eq!(reader.request_state(), RequestState::Splitting);
    assert!(matches!(reader.request(), RespPoll::Ready(Ok(Some(RespRequest::End)))));
    assert!(matches!(reader.request(), RespPoll::Pending));
    reader.finish();
    assert!(matches!(reader.request(), RespPoll::Ready(Ok(None))));
    assert_eq!(reader.request_state(), RequestState::Done);
    assert!(matches!(reader.request(), RespPoll::Ready(Ok(None))));
}

#[test]
fn requests_arrive_byte_by_byte() {
    let input = b"*2\r\n$1\r\nx\r\n$2\r\nab\r\nset 'a b' \"\\x41\"\r\n*1\r\n$1\r\nz\r\n";
    let mut reader = RespReader::new(RespConfig::default());
    let mut pieces = Vec::new();
    for byte in input.iter() {
        reader.feed(&[*byte]);
        pieces.extend(reader.requests().into_iter().map(piece));
    }
    reader.finish();
    pieces.extend(reader.requests().into_iter().map(piece));
    assert_eq!(
        pieces,
        vec![
            argument(b"x"),
            argument(b"ab"),
            Piece::End,
            argument(b"set"),
            argument(b"a b"),
            argument(b"A"),
            Piece::End,
            argument(b"z"),
            Piece::End
        ]
    );
}

#[test]
fn request_from_a_bytes_handle() {
    assert!(matches!(
        RespRequest::from(Bytes::from("abc")),
        RespRequest::Argument(bytes) if bytes == "abc"
    ));
}

#[test]
fn requests_with_exact_limits() {
    let mut reader = RespReader::new(RespConfig::default());
    reader.feed(b"*1\r\n$3\r\nabc\r\nget k\r\n*1\r\n$4\r\nabcd\r\n");
    let pieces: Vec<Piece> = reader.requests_with(3, 6).into_iter().map(piece).collect();
    assert_eq!(
        pieces,
        vec![
            argument(b"abc"),
            Piece::End,
            argument(b"get"),
            argument(b"k"),
            Piece::End,
            error(RespError::InvalidBlobLength)
        ]
    );
    assert_eq!(reader.request_state(), RequestState::Done);

    let mut reader = RespReader::new(RespConfig::default());
    reader.feed(b"get k\r\n");
    assert!(matches!(
        reader.request_with(100, 5),
        RespPoll::Ready(Err(RespError::TooBigInline))
    ));
    assert_eq!(reader.request_state(), RequestState::Init);
    assert_eq!(reader.buffered(), 7);
    assert!(matches!(
        reader.request_with(100, 6),
        RespPoll::Ready(Ok(Some(RespRequest::Argument(_))))
    ));
}

#[test]
fn a_closed_reader_hands_out_no_request() {
    let mut reader = RespReader::new(RespConfig::default());
    reader.feed(b"get k\r\nget j\r\n");
    assert!(matches!(reader.request(), RespPoll::Ready(Ok(Some(RespRequest::Argument(_))))));
    reader.close();
    assert!(matches!(reader.request(), RespPoll::Ready(Ok(None))));
    assert!(reader.requests().is_empty());
    assert!(!reader.is_finished());
    reader.finish();
    assert!(reader.is_finished());
}
