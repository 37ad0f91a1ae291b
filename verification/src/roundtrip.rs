//! What is written is read back: the reader undoes the writer.

use crate::decode::{
    blob_at, frame_at, minus_one, ARRAY, ATTRIBUTE, BIGNUM, BLOB_ERROR, BLOB_STRING, BOOLEAN,
    DOUBLE, INTEGER, MAP, NIL, PUSH, SET, SIMPLE_ERROR, SIMPLE_STRING, VERBATIM,
};
use crate::error::RespError;
use crate::frame::FrameView;
use crate::reader::argument_at;
use crate::scan::{
    exact_at, lemma_line_read, lemma_require_read, lemma_size_read, line_at, require_at, size_at,
    Parsed,
};
use crate::text::{
    crlf, decimal_digits, decimal_value, integer_text, integer_value, is_digit,
    lemma_decimal_digits, lemma_double_text, lemma_integer_text, CR, LF,
};
use crate::version::RespVersion;
use crate::writer::{blob, encode, header, line};
use vstd::prelude::*;

verus! {

/// What a frame that was written in `version` is read back as: itself in version
/// 3, and in version 2 the frame that stands in for it.
pub open spec fn stand_in(frame: FrameView, version: RespVersion) -> FrameView {
    if version == RespVersion::V3 {
        frame
    } else {
        match frame {
            FrameView::Bignum(digits) => FrameView::SimpleString(digits),
            FrameView::Boolean(value) => FrameView::Integer(
                if value {
                    1
                } else {
                    0
                },
            ),
            FrameView::Double(text) => FrameView::SimpleString(text),
            FrameView::Mapping(count) => FrameView::Array((2 * count) as usize),
            FrameView::Push(count) => FrameView::Array(count),
            FrameView::Members(count) => FrameView::Array(count),
            FrameView::Verbatim(_, text) => FrameView::BlobString(text),
            other => other,
        }
    }
}

/// Whether a reader with these limits can read `frame` back as it was written in
/// `version`: a payload is within the blob limit and a line shorter than the
/// inline limit, a line holds no carriage return, a verbatim string has a format
/// of three bytes, and twice the size of a map is a size.
pub open spec fn readable(
    frame: FrameView,
    version: RespVersion,
    blob_limit: usize,
    inline_limit: usize,
) -> bool {
    let current = version == RespVersion::V3;
    match frame {
        FrameView::Bignum(text) => !text.contains(CR) && text.len() < inline_limit,
        FrameView::SimpleError(text) => !text.contains(CR) && text.len() < inline_limit,
        FrameView::SimpleString(text) => !text.contains(CR) && text.len() < inline_limit,
        FrameView::Double(text) => text.len() < inline_limit,
        FrameView::Integer(value) => integer_text(value as int).len() < inline_limit,
        FrameView::Boolean(_) => current || 1 < inline_limit,
        FrameView::BlobError(bytes) => bytes.len() <= blob_limit,
        FrameView::BlobString(bytes) => bytes.len() <= blob_limit,
        FrameView::Verbatim(format, text) => if current {
            format.len() == 3 && format.len() + 1 + text.len() <= blob_limit
        } else {
            text.len() <= blob_limit
        },
        FrameView::Mapping(count) => current || 2 * count <= usize::MAX,
        _ => true,
    }
}

/// A header is read as the number that was written.
proof fn lemma_header_read(marker: u8, number: nat, rest: Seq<u8>, eof: bool)
    requires
        number <= usize::MAX,
    ensures
        size_at(header(marker, number) + rest, 1, eof) == Parsed::Done(
            number as usize,
            header(marker, number).len(),
        ),
        header(marker, number).len() == decimal_digits(number).len() + 3,
        (header(marker, number) + rest)[0] == marker,
        (header(marker, number) + rest)[1] != 45,
{
    let digits = decimal_digits(number);
    let buf = header(marker, number) + rest;
    lemma_decimal_digits(number);
    let n = digits.len() as int;
    assert(buf.subrange(1, 1 + n) =~= digits);
    assert(buf[1 + n] == CR);
    assert(buf[2 + n] == LF);
    assert(buf[1] == digits[0]);
    assert(is_digit(digits[0]));
    lemma_size_read(buf, 1, digits, eof);
}

/// A line is read as the text that was written.
proof fn lemma_text_read(marker: u8, text: Seq<u8>, rest: Seq<u8>, inline_limit: usize, eof: bool)
    requires
        !text.contains(CR),
        text.len() < inline_limit,
    ensures
        line_at(line(marker, text) + rest, 1, inline_limit as nat, eof) == Parsed::Done(
            text,
            line(marker, text).len(),
        ),
        (line(marker, text) + rest)[0] == marker,
{
    let buf = line(marker, text) + rest;
    let n = text.len() as int;
    assert(buf.subrange(1, 1 + n) =~= text);
    assert(buf[1 + n] == CR);
    assert(buf[2 + n] == LF);
    lemma_line_read(buf, 1, text, inline_limit as nat, eof);
}

/// A blob is read as the payload that was written.
proof fn lemma_blob_read(marker: u8, payload: Seq<u8>, rest: Seq<u8>, blob_limit: usize, eof: bool)
    requires
        payload.len() <= blob_limit,
    ensures
        blob_at(blob(marker, payload) + rest, 1, blob_limit, eof) == Parsed::Done(
            payload,
            blob(marker, payload).len(),
        ),
        size_at(blob(marker, payload) + rest, 1, eof) == Parsed::Done(
            payload.len() as usize,
            header(marker, payload.len()).len(),
        ),
        exact_at(
            blob(marker, payload) + rest,
            header(marker, payload.len()).len(),
            payload.len(),
            eof,
        ) == Parsed::Done(payload, header(marker, payload.len()).len() + payload.len()),
        require_at(
            blob(marker, payload) + rest,
            header(marker, payload.len()).len() + payload.len(),
            crlf(),
            eof,
        ) == Parsed::Done((), blob(marker, payload).len()),
        (blob(marker, payload) + rest)[0] == marker,
        (blob(marker, payload) + rest)[1] != 45,
{
    let head = header(marker, payload.len());
    let buf = blob(marker, payload) + rest;
    let tail = payload + crlf() + rest;
    assert(buf =~= head + tail);
    lemma_header_read(marker, payload.len(), tail, eof);
    let start = head.len() as int;
    let end = start + payload.len();
    assert(buf.subrange(start, end) =~= payload);
    assert(buf.subrange(end, end + 2) =~= crlf());
    lemma_require_read(buf, end as nat, crlf(), eof);
}

/// What is written is read back, for the heads of aggregates.
proof fn lemma_round_trip_counts(
    frame: FrameView,
    version: RespVersion,
    rest: Seq<u8>,
    blob_limit: usize,
    inline_limit: usize,
    eof: bool,
)
    requires
        encode(frame, version) is Ok,
        readable(frame, version, blob_limit, inline_limit),
        frame is Array || frame is Attribute || frame is Mapping || frame is Push || frame is Members,
    ensures
        frame_at(encode(frame, version).unwrap() + rest, 0, blob_limit, inline_limit, eof)
            == Parsed::Done(
            Some(stand_in(frame, version)),
            encode(frame, version).unwrap().len(),
        ),
{
    let current = version == RespVersion::V3;
    let bytes = encode(frame, version).unwrap();
    let buf = bytes + rest;
    match frame {
        FrameView::Array(count) => {
            lemma_header_read(ARRAY, count as nat, rest, eof);
        },
        FrameView::Attribute(count) => {
            lemma_header_read(ATTRIBUTE, count as nat, rest, eof);
        },
        FrameView::Mapping(count) => {
            if current {
                lemma_header_read(MAP, count as nat, rest, eof);
            } else {
                lemma_header_read(ARRAY, (2 * count) as nat, rest, eof);
            }
        },
        FrameView::Push(count) => {
            if current {
                lemma_header_read(PUSH, count as nat, rest, eof);
            } else {
                lemma_header_read(ARRAY, count as nat, rest, eof);
            }
        },
        FrameView::Members(count) => {
            if current {
                lemma_header_read(SET, count as nat, rest, eof);
            } else {
                lemma_header_read(ARRAY, count as nat, rest, eof);
            }
        },
        _ => {},
    }
}

/// What is written is read back, for frames of one line of text.
proof fn lemma_round_trip_texts(
    frame: FrameView,
    version: RespVersion,
    rest: Seq<u8>,
    blob_limit: usize,
    inline_limit: usize,
    eof: bool,
)
    requires
        encode(frame, version) is Ok,
        readable(frame, version, blob_limit, inline_limit),
        frame is Bignum || frame is SimpleError || frame is SimpleString,
    ensures
        frame_at(encode(frame, version).unwrap() + rest, 0, blob_limit, inline_limit, eof)
            == Parsed::Done(
            Some(stand_in(frame, version)),
            encode(frame, version).unwrap().len(),
        ),
{
    let current = version == RespVersion::V3;
    let bytes = encode(frame, version).unwrap();
    let buf = bytes + rest;
    match frame {
        FrameView::Bignum(digits) => {
            if current {
                lemma_text_read(BIGNUM, digits, rest, inline_limit, eof);
            } else {
                lemma_text_read(SIMPLE_STRING, digits, rest, inline_limit, eof);
            }
        },
        FrameView::SimpleError(message) => {
            lemma_text_read(SIMPLE_ERROR, message, rest, inline_limit, eof);
        },
        FrameView::SimpleString(text) => {
            lemma_text_read(SIMPLE_STRING, text, rest, inline_limit, eof);
        },
        _ => {},
    }
}

/// What is written is read back, for doubles and integers.
proof fn lemma_round_trip_numbers(
    frame: FrameView,
    version: RespVersion,
    rest: Seq<u8>,
    blob_limit: usize,
    inline_limit: usize,
    eof: bool,
)
    requires
        encode(frame, version) is Ok,
        readable(frame, version, blob_limit, inline_limit),
        frame is Double || frame is Integer,
    ensures
        frame_at(encode(frame, version).unwrap() + rest, 0, blob_limit, inline_limit, eof)
            == Parsed::Done(
            Some(stand_in(frame, version)),
            encode(frame, version).unwrap().len(),
        ),
{
    let current = version == RespVersion::V3;
    let bytes = encode(frame, version).unwrap();
    let buf = bytes + rest;
    match frame {
        FrameView::Double(text) => {
            lemma_double_text(text);
            if current {
                lemma_text_read(DOUBLE, text, rest, inline_limit, eof);
            } else {
                lemma_text_read(SIMPLE_STRING, text, rest, inline_limit, eof);
            }
        },
        FrameView::Integer(value) => {
            lemma_integer_text(value);
            lemma_text_read(INTEGER, integer_text(value as int), rest, inline_limit, eof);
        },
        _ => {},
    }
}

/// What is written is read back, for blob strings and blob errors.
proof fn lemma_round_trip_blobs(
    frame: FrameView,
    version: RespVersion,
    rest: Seq<u8>,
    blob_limit: usize,
    inline_limit: usize,
    eof: bool,
)
    requires
        encode(frame, version) is Ok,
        readable(frame, version, blob_limit, inline_limit),
        frame is BlobError || frame is BlobString,
    ensures
        frame_at(encode(frame, version).unwrap() + rest, 0, blob_limit, inline_limit, eof)
            == Parsed::Done(
            Some(stand_in(frame, version)),
            encode(frame, version).unwrap().len(),
        ),
{
    let current = version == RespVersion::V3;
    let bytes = encode(frame, version).unwrap();
    let buf = bytes + rest;
    match frame {
        FrameView::BlobError(message) => {
            lemma_blob_read(BLOB_ERROR, message, rest, blob_limit, eof);
        },
        FrameView::BlobString(payload) => {
            lemma_blob_read(BLOB_STRING, payload, rest, blob_limit, eof);
        },
        _ => {},
    }
}

/// What is written is read back, for booleans.
proof fn lemma_round_trip_boolean(
    frame: FrameView,
    version: RespVersion,
    rest: Seq<u8>,
    blob_limit: usize,
    inline_limit: usize,
    eof: bool,
)
    requires
        encode(frame, version) is Ok,
        readable(frame, version, blob_limit, inline_limit),
        frame is Boolean,
    ensures
        frame_at(encode(frame, version).unwrap() + rest, 0, blob_limit, inline_limit, eof)
            == Parsed::Done(
            Some(stand_in(frame, version)),
            encode(frame, version).unwrap().len(),
        ),
{
    let current = version == RespVersion::V3;
    let bytes = encode(frame, version).unwrap();
    let buf = bytes + rest;
    let value = frame->Boolean_0;
    if current {
        let text = if value {
            seq![116u8]
        } else {
            seq![102u8]
        };
        assert(buf[0] == BOOLEAN);
        assert(buf[1] == text[0]);
        assert(buf.subrange(2, 4) =~= crlf());
        lemma_require_read(buf, 2, crlf(), eof);
    } else {
        let text = if value {
            seq![49u8]
        } else {
            seq![48u8]
        };
        assert(!text.contains(CR));
        lemma_text_read(INTEGER, text, rest, inline_limit, eof);
        assert(text.drop_last() =~= Seq::<u8>::empty());
        assert(decimal_value(text.drop_last()) == 0);
        assert(is_digit(text[0]));
        assert(integer_value(text) == Some(
            if value {
                1int
            } else {
                0int
            },
        ));
    }
}

/// What is written is read back, for nil.
proof fn lemma_round_trip_nil(
    frame: FrameView,
    version: RespVersion,
    rest: Seq<u8>,
    blob_limit: usize,
    inline_limit: usize,
    eof: bool,
)
    requires
        encode(frame, version) is Ok,
        readable(frame, version, blob_limit, inline_limit),
        frame is Nil,
    ensures
        frame_at(encode(frame, version).unwrap() + rest, 0, blob_limit, inline_limit, eof)
            == Parsed::Done(
            Some(stand_in(frame, version)),
            encode(frame, version).unwrap().len(),
        ),
{
    let current = version == RespVersion::V3;
    let bytes = encode(frame, version).unwrap();
    let buf = bytes + rest;
    if current {
        assert(buf[0] == NIL);
        assert(buf.subrange(1, 3) =~= crlf());
        lemma_require_read(buf, 1, crlf(), eof);
    } else {
        assert(buf[0] == BLOB_STRING);
        assert(buf[1] == 45);
        assert(buf.subrange(1, 5) =~= minus_one());
        lemma_require_read(buf, 1, minus_one(), eof);
    }
}

/// What is written is read back, for verbatim strings.
proof fn lemma_round_trip_verbatim(
    frame: FrameView,
    version: RespVersion,
    rest: Seq<u8>,
    blob_limit: usize,
    inline_limit: usize,
    eof: bool,
)
    requires
        encode(frame, version) is Ok,
        readable(frame, version, blob_limit, inline_limit),
        frame is Verbatim,
    ensures
        frame_at(encode(frame, version).unwrap() + rest, 0, blob_limit, inline_limit, eof)
            == Parsed::Done(
            Some(stand_in(frame, version)),
            encode(frame, version).unwrap().len(),
        ),
{
    let current = version == RespVersion::V3;
    let bytes = encode(frame, version).unwrap();
    let buf = bytes + rest;
    let format = frame->Verbatim_0;
    let text = frame->Verbatim_1;
    if current {
        let payload = format + seq![58u8] + text;
        lemma_blob_read(VERBATIM, payload, rest, blob_limit, eof);
        assert(payload[3] == 58);
        assert(payload.subrange(0, 3) =~= format);
        assert(payload.subrange(4, payload.len() as int) =~= text);
    } else {
        lemma_blob_read(BLOB_STRING, text, rest, blob_limit, eof);
    }
}

/// What is written is read back. A frame that the writer writes in `version`,
/// with whatever follows it, is read as that frame or as the frame that stands in
/// for it in version 2, and no byte more or less is consumed than was written.
///
/// Left out are the frames that the limits of the reader do not admit, a line
/// that holds a carriage return, a verbatim string whose format is not of three
/// bytes, and a map in version 2 of more than half the largest size.
pub proof fn lemma_round_trip(
    frame: FrameView,
    version: RespVersion,
    rest: Seq<u8>,
    blob_limit: usize,
    inline_limit: usize,
    eof: bool,
)
    requires
        encode(frame, version) is Ok,
        readable(frame, version, blob_limit, inline_limit),
    ensures
        frame_at(encode(frame, version).unwrap() + rest, 0, blob_limit, inline_limit, eof)
            == Parsed::Done(
            Some(stand_in(frame, version)),
            encode(frame, version).unwrap().len(),
        ),
{
    match frame {
        FrameView::Array(_) | FrameView::Attribute(_) | FrameView::Mapping(_) | FrameView::Push(_)
        | FrameView::Members(_) => {
            lemma_round_trip_counts(frame, version, rest, blob_limit, inline_limit, eof);
        },
        FrameView::Bignum(_) | FrameView::SimpleError(_) | FrameView::SimpleString(_) => {
            lemma_round_trip_texts(frame, version, rest, blob_limit, inline_limit, eof);
        },
        FrameView::Double(_) | FrameView::Integer(_) => {
            lemma_round_trip_numbers(frame, version, rest, blob_limit, inline_limit, eof);
        },
        FrameView::BlobError(_) | FrameView::BlobString(_) => {
            lemma_round_trip_blobs(frame, version, rest, blob_limit, inline_limit, eof);
        },
        FrameView::Boolean(_) => {
            lemma_round_trip_boolean(frame, version, rest, blob_limit, inline_limit, eof);
        },
        FrameView::Nil => {
            lemma_round_trip_nil(frame, version, rest, blob_limit, inline_limit, eof);
        },
        FrameView::Verbatim(_, _) => {
            lemma_round_trip_verbatim(frame, version, rest, blob_limit, inline_limit, eof);
        },
    }
}

/// An attribute and a blob error have nothing that stands in for them in version
/// 2: they are refused there, and only there.
pub proof fn lemma_no_stand_in(frame: FrameView, version: RespVersion)
    ensures
        encode(frame, version) == Err::<Seq<u8>, RespError>(RespError::Version) <==> version
            == RespVersion::V2 && (frame is Attribute || frame is BlobError),
{
}

/// A boolean that was written in version 2 is read as the integer 1 or 0, and no
/// integer is ever read as a boolean: whatever starts with the marker of an
/// integer is no boolean frame.
pub proof fn lemma_boolean_is_written_as_integer(
    value: bool,
    rest: Seq<u8>,
    buf: Seq<u8>,
    blob_limit: usize,
    inline_limit: usize,
    eof: bool,
)
    requires
        1 < inline_limit,
    ensures
        encode(FrameView::Boolean(value), RespVersion::V2) == Ok::<Seq<u8>, RespError>(
            seq![INTEGER, if value {
                49u8
            } else {
                48u8
            }, CR, LF],
        ),
        frame_at(
            encode(FrameView::Boolean(value), RespVersion::V2).unwrap() + rest,
            0,
            blob_limit,
            inline_limit,
            eof,
        ) == Parsed::Done(
            Some(
                FrameView::Integer(
                    if value {
                        1
                    } else {
                        0
                    },
                ),
            ),
            4,
        ),
        buf.len() > 0 && buf[0] == INTEGER ==> !(frame_at(buf, 0, blob_limit, inline_limit, eof)
            matches Parsed::Done(Some(FrameView::Boolean(_)), _)),
{
    lemma_round_trip(
        FrameView::Boolean(value),
        RespVersion::V2,
        rest,
        blob_limit,
        inline_limit,
        eof,
    );
    let bytes = encode(FrameView::Boolean(value), RespVersion::V2).unwrap();
    assert(bytes =~= seq![INTEGER, if value {
        49u8
    } else {
        48u8
    }, CR, LF]);
}

/// A declared length beyond the blob limit is an invalid blob length, whatever
/// follows its line and however much of it has arrived: no byte behind the line
/// of the length is looked at.
pub proof fn lemma_blob_limit_refuses(
    marker: u8,
    length: nat,
    tail: Seq<u8>,
    blob_limit: usize,
    inline_limit: usize,
    eof: bool,
)
    requires
        marker == BLOB_STRING || marker == BLOB_ERROR || marker == VERBATIM,
        length > blob_limit,
    ensures
        frame_at(header(marker, length) + tail, 0, blob_limit, inline_limit, eof) matches Parsed::Fail(
            RespError::InvalidBlobLength,
            at,
        ) && at <= header(marker, length).len(),
        marker == BLOB_STRING ==> (argument_at(header(marker, length) + tail, 0, blob_limit, eof)
            matches Parsed::Fail(RespError::InvalidBlobLength, at) && at <= header(
            marker,
            length,
        ).len()),
{
    let digits = decimal_digits(length);
    let buf = header(marker, length) + tail;
    lemma_decimal_digits(length);
    let n = digits.len() as int;
    assert(buf.subrange(1, 1 + n) =~= digits);
    assert(buf[1 + n] == CR);
    assert(buf[2 + n] == LF);
    assert(buf[0] == marker);
    assert(buf[1] == digits[0]);
    assert(is_digit(digits[0]));
    lemma_size_read(buf, 1, digits, eof);
    assert(buf.subrange(0, 1) =~= seq![marker]);
    lemma_require_read(buf, 0, seq![marker], eof);
}

} // verus!
