//! Decoding frames from the bytes that were received.

use crate::error::RespError;
use crate::frame::{FrameView, RespFrame};
use crate::octets::bytes_from_slice;
use crate::scan::{
    exact_at, lemma_digits_within, lemma_line_within, lemma_require_within, line_at, peek_at, pop,
    pop_at, read_exact, read_line, read_size, require, require_at, size_at, Parsed, Scan,
};
use crate::text::{
    check_double, crlf, integer_value, is_double, parse_integer, slice_subrange, CR, LF,
};
use vstd::prelude::*;

verus! {

/// `*`
pub const ARRAY: u8 = 42;

/// `|`
pub const ATTRIBUTE: u8 = 124;

/// `(`
pub const BIGNUM: u8 = 40;

/// `!`
pub const BLOB_ERROR: u8 = 33;

/// `$`
pub const BLOB_STRING: u8 = 36;

/// `#`
pub const BOOLEAN: u8 = 35;

/// `,`
pub const DOUBLE: u8 = 44;

/// `:`
pub const INTEGER: u8 = 58;

/// `%`
pub const MAP: u8 = 37;

/// `_`
pub const NIL: u8 = 95;

/// `>`
pub const PUSH: u8 = 62;

/// `~`
pub const SET: u8 = 126;

/// `-`
pub const SIMPLE_ERROR: u8 = 45;

/// `+`
pub const SIMPLE_STRING: u8 = 43;

/// `=`
pub const VERBATIM: u8 = 61;

/// What stands for nil in place of a length, with its line ending: `-1`.
pub open spec fn minus_one() -> Seq<u8> {
    seq![45u8, 49, CR, LF]
}

/// A length at `pos`, or `-1` for nil.
pub open spec fn length_at(buf: Seq<u8>, pos: nat, eof: bool) -> Parsed<Option<usize>> {
    if pos < buf.len() && buf[pos as int] == 45 {
        match require_at(buf, pos, minus_one(), eof) {
            Parsed::Done(_, next) => Parsed::Done(None, next),
            other => other.carry(),
        }
    } else {
        match size_at(buf, pos, eof) {
            Parsed::Done(size, next) => Parsed::Done(Some(size), next),
            other => other.carry(),
        }
    }
}

/// The payload of `size` bytes at `pos` with its line ending, where `size` is
/// within `blob_limit`. A larger size is refused before any byte of the payload is
/// looked at.
pub open spec fn payload_at(buf: Seq<u8>, pos: nat, size: usize, blob_limit: usize, eof: bool)
    -> Parsed<Seq<u8>> {
    if size > blob_limit {
        Parsed::Fail(RespError::InvalidBlobLength, pos)
    } else {
        match exact_at(buf, pos, size as nat, eof) {
            Parsed::Done(bytes, end) => match require_at(buf, end, crlf(), eof) {
                Parsed::Done(_, next) => Parsed::Done(bytes, next),
                other => other.carry(),
            },
            other => other.carry(),
        }
    }
}

/// A length and a payload of that many bytes at `pos`.
pub open spec fn blob_at(buf: Seq<u8>, pos: nat, blob_limit: usize, eof: bool) -> Parsed<Seq<u8>> {
    match size_at(buf, pos, eof) {
        Parsed::Done(size, start) => payload_at(buf, start, size, blob_limit, eof),
        other => other.carry(),
    }
}

/// What follows the marker of an array: a count, or `-1` for nil.
pub open spec fn array_at(buf: Seq<u8>, pos: nat, eof: bool) -> Parsed<FrameView> {
    match length_at(buf, pos, eof) {
        Parsed::Done(Some(count), next) => Parsed::Done(FrameView::Array(count), next),
        Parsed::Done(None, next) => Parsed::Done(FrameView::Nil, next),
        other => other.carry(),
    }
}

/// What follows the marker of a blob string: a length and that many bytes, or `-1`
/// for nil.
pub open spec fn blob_string_at(buf: Seq<u8>, pos: nat, blob_limit: usize, eof: bool) -> Parsed<
    FrameView,
> {
    match length_at(buf, pos, eof) {
        Parsed::Done(Some(size), start) => match payload_at(buf, start, size, blob_limit, eof) {
            Parsed::Done(bytes, next) => Parsed::Done(FrameView::BlobString(bytes), next),
            other => other.carry(),
        },
        Parsed::Done(None, next) => Parsed::Done(FrameView::Nil, next),
        other => other.carry(),
    }
}

/// What follows the marker of a blob error: a length and that many bytes.
pub open spec fn blob_error_at(buf: Seq<u8>, pos: nat, blob_limit: usize, eof: bool) -> Parsed<
    FrameView,
> {
    match blob_at(buf, pos, blob_limit, eof) {
        Parsed::Done(bytes, next) => Parsed::Done(FrameView::BlobError(bytes), next),
        other => other.carry(),
    }
}

/// What follows the marker of a verbatim string: a length within `blob_limit` and
/// of at least four, then a format of three bytes, a colon and the text.
pub open spec fn verbatim_at(buf: Seq<u8>, pos: nat, blob_limit: usize, eof: bool) -> Parsed<
    FrameView,
> {
    match size_at(buf, pos, eof) {
        Parsed::Done(size, start) => if size > blob_limit {
            Parsed::Fail(RespError::InvalidBlobLength, start)
        } else if size < 4 {
            Parsed::Fail(RespError::InvalidVerbatim, start)
        } else {
            match exact_at(buf, start, size as nat, eof) {
                Parsed::Done(bytes, end) => if bytes[3] != 58 {
                    Parsed::Fail(RespError::InvalidVerbatim, end)
                } else {
                    match require_at(buf, end, crlf(), eof) {
                        Parsed::Done(_, next) => Parsed::Done(
                            FrameView::Verbatim(
                                bytes.subrange(0, 3),
                                bytes.subrange(4, bytes.len() as int),
                            ),
                            next,
                        ),
                        other => other.carry(),
                    }
                },
                other => other.carry(),
            }
        },
        other => other.carry(),
    }
}

/// What follows the marker of a boolean: `t` or `f`.
pub open spec fn boolean_at(buf: Seq<u8>, pos: nat, eof: bool) -> Parsed<FrameView> {
    match pop_at(buf, pos, eof) {
        Parsed::Done(byte, end) => if byte != 116 && byte != 102 {
            Parsed::Fail(RespError::InvalidBoolean, end)
        } else {
            match require_at(buf, end, crlf(), eof) {
                Parsed::Done(_, next) => Parsed::Done(FrameView::Boolean(byte == 116), next),
                other => other.carry(),
            }
        },
        other => other.carry(),
    }
}

/// What follows the marker of a double: a line that is the text of a double.
pub open spec fn double_at(buf: Seq<u8>, pos: nat, inline_limit: usize, eof: bool) -> Parsed<
    FrameView,
> {
    match line_at(buf, pos, inline_limit as nat, eof) {
        Parsed::Done(line, next) => if is_double(line) {
            Parsed::Done(FrameView::Double(line), next)
        } else {
            Parsed::Fail(RespError::InvalidDouble, next)
        },
        other => other.carry(),
    }
}

/// What follows the marker of an integer: a line that is the text of a signed
/// 64-bit integer.
pub open spec fn integer_at(buf: Seq<u8>, pos: nat, inline_limit: usize, eof: bool) -> Parsed<
    FrameView,
> {
    match line_at(buf, pos, inline_limit as nat, eof) {
        Parsed::Done(line, next) => match integer_value(line) {
            Some(value) => Parsed::Done(FrameView::Integer(value as i64), next),
            None => Parsed::Fail(RespError::InvalidInteger, next),
        },
        other => other.carry(),
    }
}

/// What follows the marker of a frame that is one line of text.
pub open spec fn text_at(buf: Seq<u8>, pos: nat, marker: u8, inline_limit: usize, eof: bool)
    -> Parsed<FrameView> {
    match line_at(buf, pos, inline_limit as nat, eof) {
        Parsed::Done(line, next) => Parsed::Done(
            if marker == BIGNUM {
                FrameView::Bignum(line)
            } else if marker == SIMPLE_ERROR {
                FrameView::SimpleError(line)
            } else {
                FrameView::SimpleString(line)
            },
            next,
        ),
        other => other.carry(),
    }
}

/// What follows the marker of an aggregate other than an array: a count.
pub open spec fn count_at(buf: Seq<u8>, pos: nat, marker: u8, eof: bool) -> Parsed<FrameView> {
    match size_at(buf, pos, eof) {
        Parsed::Done(count, next) => Parsed::Done(
            if marker == ATTRIBUTE {
                FrameView::Attribute(count)
            } else if marker == MAP {
                FrameView::Mapping(count)
            } else if marker == PUSH {
                FrameView::Push(count)
            } else {
                FrameView::Members(count)
            },
            next,
        ),
        other => other.carry(),
    }
}

/// What follows the marker of nil: the end of the line.
pub open spec fn nil_at(buf: Seq<u8>, pos: nat, eof: bool) -> Parsed<FrameView> {
    match require_at(buf, pos, crlf(), eof) {
        Parsed::Done(_, next) => Parsed::Done(FrameView::Nil, next),
        other => other.carry(),
    }
}

/// Whether `byte` is the marker of a frame type.
pub open spec fn is_marker(byte: u8) -> bool {
    byte == ARRAY || byte == ATTRIBUTE || byte == BIGNUM || byte == BLOB_ERROR || byte
        == BLOB_STRING || byte == BOOLEAN || byte == DOUBLE || byte == INTEGER || byte == MAP
        || byte == NIL || byte == PUSH || byte == SET || byte == SIMPLE_ERROR || byte
        == SIMPLE_STRING || byte == VERBATIM
}

/// What follows `marker`, whose place is just before `pos`.
pub open spec fn body_at(
    buf: Seq<u8>,
    pos: nat,
    marker: u8,
    blob_limit: usize,
    inline_limit: usize,
    eof: bool,
) -> Parsed<FrameView> {
    if marker == ARRAY {
        array_at(buf, pos, eof)
    } else if marker == BLOB_STRING {
        blob_string_at(buf, pos, blob_limit, eof)
    } else if marker == BLOB_ERROR {
        blob_error_at(buf, pos, blob_limit, eof)
    } else if marker == VERBATIM {
        verbatim_at(buf, pos, blob_limit, eof)
    } else if marker == BOOLEAN {
        boolean_at(buf, pos, eof)
    } else if marker == DOUBLE {
        double_at(buf, pos, inline_limit, eof)
    } else if marker == INTEGER {
        integer_at(buf, pos, inline_limit, eof)
    } else if marker == NIL {
        nil_at(buf, pos, eof)
    } else if marker == BIGNUM || marker == SIMPLE_ERROR || marker == SIMPLE_STRING {
        text_at(buf, pos, marker, inline_limit, eof)
    } else {
        count_at(buf, pos, marker, eof)
    }
}

/// The frame at `pos`: `None` where the source has ended there, else what the
/// marker at `pos` stands for. A byte that is no marker is an unknown type, and is
/// not passed over.
pub open spec fn frame_at(
    buf: Seq<u8>,
    pos: nat,
    blob_limit: usize,
    inline_limit: usize,
    eof: bool,
) -> Parsed<Option<FrameView>> {
    match peek_at(buf, pos, eof) {
        Parsed::Done(Some(marker), _) => if is_marker(marker) {
            match body_at(buf, pos + 1, marker, blob_limit, inline_limit, eof) {
                Parsed::Done(frame, next) => Parsed::Done(Some(frame), next),
                other => other.carry(),
            }
        } else {
            Parsed::Fail(RespError::UnknownType(marker), pos)
        },
        Parsed::Done(None, _) => Parsed::Done(None, pos),
        other => other.carry(),
    }
}

/// A frame ends between the marker and the end of the bytes, and after the marker
/// where there is a frame.
pub proof fn lemma_frame_within(
    buf: Seq<u8>,
    pos: nat,
    blob_limit: usize,
    inline_limit: usize,
    eof: bool,
)
    requires
        pos <= buf.len(),
    ensures
        frame_at(buf, pos, blob_limit, inline_limit, eof).within(pos, buf.len()),
        frame_at(buf, pos, blob_limit, inline_limit, eof) matches Parsed::Done(Some(_), next)
            ==> pos < next,
{
    if pos < buf.len() {
        let from = pos + 1;
        lemma_require_within(buf, from as nat, minus_one(), eof);
        lemma_require_within(buf, from as nat, crlf(), eof);
        lemma_digits_within(buf, from as nat, 0, eof);
        lemma_line_within(buf, from as nat, inline_limit as nat, eof);
        match size_at(buf, from as nat, eof) {
            Parsed::Done(size, start) => {
                if start + size <= buf.len() {
                    lemma_require_within(buf, (start + size) as nat, crlf(), eof);
                }
            },
            _ => {},
        }
        if from < buf.len() {
            lemma_require_within(buf, (from + 1) as nat, crlf(), eof);
        }
    }
}

/// Reads a length at `pos`, or `-1` for nil.
fn read_length(buf: &[u8], pos: usize, eof: bool) -> (scan: Scan<Option<usize>>)
    requires
        pos <= buf.len(),
    ensures
        scan.deep_view() == length_at(buf@, pos as nat, eof),
        scan.deep_view().within(pos as nat, buf@.len()),
{
    if pos < buf.len() && buf[pos] == 45 {
        let nil: [u8; 4] = [45, 49, CR, LF];
        assert(nil@ =~= minus_one());
        match require(buf, pos, nil.as_slice(), eof) {
            Scan::Done(_, next) => Scan::Done(None, next),
            Scan::Fail(error, at) => Scan::Fail(error, at),
            Scan::More => Scan::More,
        }
    } else {
        match read_size(buf, pos, eof) {
            Scan::Done(size, next) => Scan::Done(Some(size), next),
            Scan::Fail(error, at) => Scan::Fail(error, at),
            Scan::More => Scan::More,
        }
    }
}

/// Reads the end of a line at `pos`.
fn read_ending(buf: &[u8], pos: usize, eof: bool) -> (scan: Scan<()>)
    requires
        pos <= buf.len(),
    ensures
        scan.deep_view() == require_at(buf@, pos as nat, crlf(), eof),
        scan.deep_view().within(pos as nat, buf@.len()),
{
    let ending: [u8; 2] = [CR, LF];
    assert(ending@ =~= crlf());
    require(buf, pos, ending.as_slice(), eof)
}

/// Reads the payload of `size` bytes at `pos` with its line ending.
pub fn read_payload<'a>(buf: &'a [u8], pos: usize, size: usize, blob_limit: usize, eof: bool) -> (scan:
    Scan<&'a [u8]>)
    ensures
        scan.deep_view() == payload_at(buf@, pos as nat, size, blob_limit, eof),
        pos <= buf.len() ==> scan.deep_view().within(pos as nat, buf@.len()),
{
    if size > blob_limit {
        return Scan::Fail(RespError::InvalidBlobLength, pos);
    }
    match read_exact(buf, pos, size, eof) {
        Scan::Done(bytes, end) => match read_ending(buf, end, eof) {
            Scan::Done(_, next) => Scan::Done(bytes, next),
            Scan::Fail(error, at) => Scan::Fail(error, at),
            Scan::More => Scan::More,
        },
        Scan::Fail(error, at) => Scan::Fail(error, at),
        Scan::More => Scan::More,
    }
}

/// Reads a length and a payload of that many bytes at `pos`.
pub fn read_blob<'a>(buf: &'a [u8], pos: usize, blob_limit: usize, eof: bool) -> (scan: Scan<
    &'a [u8],
>)
    ensures
        scan.deep_view() == blob_at(buf@, pos as nat, blob_limit, eof),
        pos <= buf.len() ==> scan.deep_view().within(pos as nat, buf@.len()),
{
    match read_size(buf, pos, eof) {
        Scan::Done(size, start) => read_payload(buf, start, size, blob_limit, eof),
        Scan::Fail(error, at) => Scan::Fail(error, at),
        Scan::More => Scan::More,
    }
}

/// Reads what follows the marker of an array.
fn read_array(buf: &[u8], pos: usize, eof: bool) -> (scan: Scan<RespFrame>)
    requires
        pos <= buf.len(),
    ensures
        scan.deep_view() == array_at(buf@, pos as nat, eof),
        scan.deep_view().within(pos as nat, buf@.len()),
{
    match read_length(buf, pos, eof) {
        Scan::Done(Some(count), next) => Scan::Done(RespFrame::Array(count), next),
        Scan::Done(None, next) => Scan::Done(RespFrame::Nil, next),
        Scan::Fail(error, at) => Scan::Fail(error, at),
        Scan::More => Scan::More,
    }
}

/// Reads what follows the marker of a blob string.
fn read_blob_string(buf: &[u8], pos: usize, blob_limit: usize, eof: bool) -> (scan: Scan<
    RespFrame,
>)
    requires
        pos <= buf.len(),
    ensures
        scan.deep_view() == blob_string_at(buf@, pos as nat, blob_limit, eof),
        scan.deep_view().within(pos as nat, buf@.len()),
{
    match read_length(buf, pos, eof) {
        Scan::Done(Some(size), start) => match read_payload(buf, start, size, blob_limit, eof) {
            Scan::Done(bytes, next) => {
                assert(bytes.deep_view() =~= bytes@);
                Scan::Done(RespFrame::BlobString(bytes_from_slice(bytes)), next)
            },
            Scan::Fail(error, at) => Scan::Fail(error, at),
            Scan::More => Scan::More,
        },
        Scan::Done(None, next) => Scan::Done(RespFrame::Nil, next),
        Scan::Fail(error, at) => Scan::Fail(error, at),
        Scan::More => Scan::More,
    }
}

/// Reads what follows the marker of a blob error.
fn read_blob_error(buf: &[u8], pos: usize, blob_limit: usize, eof: bool) -> (scan: Scan<RespFrame>)
    requires
        pos <= buf.len(),
    ensures
        scan.deep_view() == blob_error_at(buf@, pos as nat, blob_limit, eof),
        scan.deep_view().within(pos as nat, buf@.len()),
{
    match read_blob(buf, pos, blob_limit, eof) {
        Scan::Done(bytes, next) => {
            assert(bytes.deep_view() =~= bytes@);
            Scan::Done(RespFrame::BlobError(bytes_from_slice(bytes)), next)
        },
        Scan::Fail(error, at) => Scan::Fail(error, at),
        Scan::More => Scan::More,
    }
}

/// Reads what follows the marker of a verbatim string.
fn read_verbatim(buf: &[u8], pos: usize, blob_limit: usize, eof: bool) -> (scan: Scan<RespFrame>)
    requires
        pos <= buf.len(),
    ensures
        scan.deep_view() == verbatim_at(buf@, pos as nat, blob_limit, eof),
        scan.deep_view().within(pos as nat, buf@.len()),
{
    let (size, start) = match read_size(buf, pos, eof) {
        Scan::Done(size, start) => (size, start),
        Scan::Fail(error, at) => {
            return Scan::Fail(error, at);
        },
        Scan::More => {
            return Scan::More;
        },
    };
    if size > blob_limit {
        return Scan::Fail(RespError::InvalidBlobLength, start);
    }
    if size < 4 {
        return Scan::Fail(RespError::InvalidVerbatim, start);
    }
    let (bytes, end) = match read_exact(buf, start, size, eof) {
        Scan::Done(bytes, end) => (bytes, end),
        Scan::Fail(error, at) => {
            return Scan::Fail(error, at);
        },
        Scan::More => {
            return Scan::More;
        },
    };
    assert(bytes.deep_view() =~= bytes@);
    if bytes[3] != 58 {
        return Scan::Fail(RespError::InvalidVerbatim, end);
    }
    match read_ending(buf, end, eof) {
        Scan::Done(_, next) => {
            let format = bytes_from_slice(slice_subrange(bytes, 0, 3));
            let text = bytes_from_slice(slice_subrange(bytes, 4, size));
            Scan::Done(RespFrame::Verbatim(format, text), next)
        },
        Scan::Fail(error, at) => Scan::Fail(error, at),
        Scan::More => Scan::More,
    }
}

/// Reads what follows the marker of a boolean.
fn read_boolean(buf: &[u8], pos: usize, eof: bool) -> (scan: Scan<RespFrame>)
    requires
        pos <= buf.len(),
    ensures
        scan.deep_view() == boolean_at(buf@, pos as nat, eof),
        scan.deep_view().within(pos as nat, buf@.len()),
{
    match pop(buf, pos, eof) {
        Scan::Done(byte, end) => {
            if byte != 116 && byte != 102 {
                return Scan::Fail(RespError::InvalidBoolean, end);
            }
            match read_ending(buf, end, eof) {
                Scan::Done(_, next) => Scan::Done(RespFrame::Boolean(byte == 116), next),
                Scan::Fail(error, at) => Scan::Fail(error, at),
                Scan::More => Scan::More,
            }
        },
        Scan::Fail(error, at) => Scan::Fail(error, at),
        Scan::More => Scan::More,
    }
}

/// Reads what follows the marker of a double.
fn read_double(buf: &[u8], pos: usize, inline_limit: usize, eof: bool) -> (scan: Scan<RespFrame>)
    requires
        pos <= buf.len(),
    ensures
        scan.deep_view() == double_at(buf@, pos as nat, inline_limit, eof),
        scan.deep_view().within(pos as nat, buf@.len()),
{
    match read_line(buf, pos, inline_limit, eof) {
        Scan::Done(line, next) => {
            assert(line.deep_view() =~= line@);
            if check_double(line) {
                Scan::Done(RespFrame::Double(bytes_from_slice(line)), next)
            } else {
                Scan::Fail(RespError::InvalidDouble, next)
            }
        },
        Scan::Fail(error, at) => Scan::Fail(error, at),
        Scan::More => Scan::More,
    }
}

/// Reads what follows the marker of an integer.
fn read_integer(buf: &[u8], pos: usize, inline_limit: usize, eof: bool) -> (scan: Scan<RespFrame>)
    requires
        pos <= buf.len(),
    ensures
        scan.deep_view() == integer_at(buf@, pos as nat, inline_limit, eof),
        scan.deep_view().within(pos as nat, buf@.len()),
{
    match read_line(buf, pos, inline_limit, eof) {
        Scan::Done(line, next) => {
            assert(line.deep_view() =~= line@);
            match parse_integer(line) {
                Some(value) => Scan::Done(RespFrame::Integer(value), next),
                None => Scan::Fail(RespError::InvalidInteger, next),
            }
        },
        Scan::Fail(error, at) => Scan::Fail(error, at),
        Scan::More => Scan::More,
    }
}

/// Reads what follows the marker of a frame that is one line of text.
fn read_text(buf: &[u8], pos: usize, marker: u8, inline_limit: usize, eof: bool) -> (scan: Scan<
    RespFrame,
>)
    requires
        pos <= buf.len(),
    ensures
        scan.deep_view() == text_at(buf@, pos as nat, marker, inline_limit, eof),
        scan.deep_view().within(pos as nat, buf@.len()),
{
    match read_line(buf, pos, inline_limit, eof) {
        Scan::Done(line, next) => {
            assert(line.deep_view() =~= line@);
            let text = bytes_from_slice(line);
            let frame = if marker == BIGNUM {
                RespFrame::Bignum(text)
            } else if marker == SIMPLE_ERROR {
                RespFrame::SimpleError(text)
            } else {
                RespFrame::SimpleString(text)
            };
            Scan::Done(frame, next)
        },
        Scan::Fail(error, at) => Scan::Fail(error, at),
        Scan::More => Scan::More,
    }
}

/// Reads what follows the marker of an aggregate other than an array.
fn read_count(buf: &[u8], pos: usize, marker: u8, eof: bool) -> (scan: Scan<RespFrame>)
    requires
        pos <= buf.len(),
    ensures
        scan.deep_view() == count_at(buf@, pos as nat, marker, eof),
        scan.deep_view().within(pos as nat, buf@.len()),
{
    match read_size(buf, pos, eof) {
        Scan::Done(count, next) => {
            let frame = if marker == ATTRIBUTE {
                RespFrame::Attribute(count)
            } else if marker == MAP {
                RespFrame::Mapping(count)
            } else if marker == PUSH {
                RespFrame::Push(count)
            } else {
                RespFrame::Members(count)
            };
            Scan::Done(frame, next)
        },
        Scan::Fail(error, at) => Scan::Fail(error, at),
        Scan::More => Scan::More,
    }
}

/// Reads what follows the marker of nil.
fn read_nil(buf: &[u8], pos: usize, eof: bool) -> (scan: Scan<RespFrame>)
    requires
        pos <= buf.len(),
    ensures
        scan.deep_view() == nil_at(buf@, pos as nat, eof),
        scan.deep_view().within(pos as nat, buf@.len()),
{
    match read_ending(buf, pos, eof) {
        Scan::Done(_, next) => Scan::Done(RespFrame::Nil, next),
        Scan::Fail(error, at) => Scan::Fail(error, at),
        Scan::More => Scan::More,
    }
}

/// Whether `byte` is the marker of a frame type.
fn marker(byte: u8) -> (yes: bool)
    ensures
        yes == is_marker(byte),
{
    byte == ARRAY || byte == ATTRIBUTE || byte == BIGNUM || byte == BLOB_ERROR || byte
        == BLOB_STRING || byte == BOOLEAN || byte == DOUBLE || byte == INTEGER || byte == MAP
        || byte == NIL || byte == PUSH || byte == SET || byte == SIMPLE_ERROR || byte
        == SIMPLE_STRING || byte == VERBATIM
}

/// Reads the frame at `pos` of `buf`, the bytes that were received and not yet
/// consumed. `eof` says that the source has ended, so that no more bytes will
/// follow those of `buf`.
pub fn read_frame(buf: &[u8], pos: usize, blob_limit: usize, inline_limit: usize, eof: bool) -> (scan:
    Scan<Option<RespFrame>>)
    ensures
        scan.deep_view() == frame_at(buf@, pos as nat, blob_limit, inline_limit, eof),
        pos <= buf.len() ==> scan.deep_view().within(pos as nat, buf@.len()),
        scan matches Scan::Done(Some(_), next) ==> pos < next,
{
    if pos >= buf.len() {
        return if eof {
            Scan::Done(None, pos)
        } else {
            Scan::More
        };
    }
    let byte = buf[pos];
    if !marker(byte) {
        return Scan::Fail(RespError::UnknownType(byte), pos);
    }
    let from = pos + 1;
    let body = if byte == ARRAY {
        read_array(buf, from, eof)
    } else if byte == BLOB_STRING {
        read_blob_string(buf, from, blob_limit, eof)
    } else if byte == BLOB_ERROR {
        read_blob_error(buf, from, blob_limit, eof)
    } else if byte == VERBATIM {
        read_verbatim(buf, from, blob_limit, eof)
    } else if byte == BOOLEAN {
        read_boolean(buf, from, eof)
    } else if byte == DOUBLE {
        read_double(buf, from, inline_limit, eof)
    } else if byte == INTEGER {
        read_integer(buf, from, inline_limit, eof)
    } else if byte == NIL {
        read_nil(buf, from, eof)
    } else if byte == BIGNUM || byte == SIMPLE_ERROR || byte == SIMPLE_STRING {
        read_text(buf, from, byte, inline_limit, eof)
    } else {
        read_count(buf, from, byte, eof)
    };
    match body {
        Scan::Done(frame, next) => Scan::Done(Some(frame), next),
        Scan::Fail(error, at) => Scan::Fail(error, at),
        Scan::More => Scan::More,
    }
}

} // verus!
