//! Writing frames in either version of the protocol.
//!
//! The writer does no output of its own: it puts the bytes of each frame behind
//! those it has written before, and whoever owns the sink takes them from it.
//! A frame that cannot be written leaves the writer as it was.

use crate::decode::{
    ARRAY, ATTRIBUTE, BIGNUM, BLOB_ERROR, BLOB_STRING, BOOLEAN, DOUBLE, INTEGER, MAP, NIL, PUSH,
    SET, SIMPLE_ERROR, SIMPLE_STRING, VERBATIM,
};
use crate::error::RespError;
use crate::frame::FrameView;
use crate::text::{
    check_double, crlf, decimal_digits, integer_text, is_double, push_decimal, push_integer, CR,
    LF,
};
use crate::version::RespVersion;
use vstd::prelude::*;

verus! {

/// A marker, a number and the end of the line.
pub open spec fn header(marker: u8, number: nat) -> Seq<u8> {
    seq![marker] + decimal_digits(number) + crlf()
}

/// A marker, a text and the end of the line.
pub open spec fn line(marker: u8, text: Seq<u8>) -> Seq<u8> {
    seq![marker] + text + crlf()
}

/// A marker, the length of a payload, and the payload on a line of its own.
pub open spec fn blob(marker: u8, payload: Seq<u8>) -> Seq<u8> {
    header(marker, payload.len()) + payload + crlf()
}

/// The bytes of `frame` in `version`, or why it cannot be written.
///
/// What version 2 lacks is written as what comes nearest: a boolean as the
/// integer 1 or 0, a double and a big number as a simple string, nil as a blob
/// string of length -1, a map as an array of twice its size, a push and a set as
/// an array, a verbatim string as a blob string without its format. An attribute
/// and a blob error have no such stand-in. A frame of one line cannot hold a
/// line feed.
pub open spec fn encode(frame: FrameView, version: RespVersion) -> Result<Seq<u8>, RespError> {
    let current = version == RespVersion::V3;
    match frame {
        FrameView::Array(count) => Ok(header(ARRAY, count as nat)),
        FrameView::Attribute(count) => if current {
            Ok(header(ATTRIBUTE, count as nat))
        } else {
            Err(RespError::Version)
        },
        FrameView::Bignum(digits) => if digits.contains(LF) {
            Err(RespError::Newline)
        } else if current {
            Ok(line(BIGNUM, digits))
        } else {
            Ok(line(SIMPLE_STRING, digits))
        },
        FrameView::BlobError(message) => if current {
            Ok(blob(BLOB_ERROR, message))
        } else {
            Err(RespError::Version)
        },
        FrameView::BlobString(bytes) => Ok(blob(BLOB_STRING, bytes)),
        FrameView::Boolean(value) => Ok(
            if current {
                line(
                    BOOLEAN,
                    if value {
                        seq![116u8]
                    } else {
                        seq![102u8]
                    },
                )
            } else {
                line(
                    INTEGER,
                    if value {
                        seq![49u8]
                    } else {
                        seq![48u8]
                    },
                )
            },
        ),
        FrameView::Double(text) => if !is_double(text) {
            Err(RespError::InvalidDouble)
        } else if current {
            Ok(line(DOUBLE, text))
        } else {
            Ok(line(SIMPLE_STRING, text))
        },
        FrameView::Integer(value) => Ok(line(INTEGER, integer_text(value as int))),
        FrameView::Mapping(count) => if current {
            Ok(header(MAP, count as nat))
        } else {
            Ok(header(ARRAY, (2 * count) as nat))
        },
        FrameView::Nil => if current {
            Ok(line(NIL, Seq::empty()))
        } else {
            Ok(line(BLOB_STRING, seq![45u8, 49]))
        },
        FrameView::Push(count) => if current {
            Ok(header(PUSH, count as nat))
        } else {
            Ok(header(ARRAY, count as nat))
        },
        FrameView::Members(count) => if current {
            Ok(header(SET, count as nat))
        } else {
            Ok(header(ARRAY, count as nat))
        },
        FrameView::SimpleError(message) => if message.contains(LF) {
            Err(RespError::Newline)
        } else {
            Ok(line(SIMPLE_ERROR, message))
        },
        FrameView::SimpleString(text) => if text.contains(LF) {
            Err(RespError::Newline)
        } else {
            Ok(line(SIMPLE_STRING, text))
        },
        FrameView::Verbatim(format, text) => if current {
            Ok(blob(VERBATIM, format + seq![58u8] + text))
        } else {
            Ok(blob(BLOB_STRING, text))
        },
    }
}

/// A writer of RESP frames.
#[derive(Debug)]
pub struct RespWriter {
    /// The bytes that were written and not yet taken.
    buffer: Vec<u8>,
    /// The current version.
    version: RespVersion,
}

/// What a writer holds.
pub struct WriterView {
    /// The bytes that were written and not yet taken.
    pub written: Seq<u8>,
    /// The version that the writer writes.
    pub version: RespVersion,
}

impl WriterView {
    /// The writer after it has written `bytes`.
    pub open spec fn with(self, bytes: Seq<u8>) -> WriterView {
        WriterView { written: self.written + bytes, ..self }
    }
}

impl View for RespWriter {
    type V = WriterView;

    closed spec fn view(&self) -> WriterView {
        WriterView { written: self.buffer@, version: self.version }
    }
}

/// Whether `value` holds a line feed.
fn has_newline(value: &[u8]) -> (yes: bool)
    ensures
        yes == value@.contains(LF),
{
    let mut i: usize = 0;
    while i < value.len()
        invariant
            i <= value.len(),
            forall|j: int| 0 <= j < i ==> value@[j] != LF,
        decreases value.len() - i,
    {
        if value[i] == LF {
            return true;
        }
        i += 1;
    }
    false
}

impl RespWriter {
    /// Whether a writer that held `before` and was told to write `frame` has done
    /// so: it holds the bytes of the frame behind those it held and reports
    /// success, or holds what it held and reports why the frame cannot be written.
    pub open spec fn wrote(
        before: WriterView,
        after: WriterView,
        frame: FrameView,
        result: Result<(), RespError>,
    ) -> bool {
        match encode(frame, before.version) {
            Ok(bytes) => result is Ok && after == before.with(bytes),
            Err(error) => result == Err::<(), RespError>(error) && after == before,
        }
    }

    /// Create a new [`RespWriter`], which has written nothing and writes version
    /// 2.
    pub fn new() -> (writer: Self)
        ensures
            writer@ == (WriterView { written: Seq::empty(), version: RespVersion::V2 }),
    {
        RespWriter { buffer: Vec::new(), version: RespVersion::V2 }
    }

    /// Hands out the bytes that were written since the last call.
    pub fn take(&mut self) -> (bytes: Vec<u8>)
        ensures
            bytes@ == old(self)@.written,
            final(self)@ == (WriterView { written: Seq::empty(), ..old(self)@ }),
    {
        let mut bytes: Vec<u8> = Vec::new();
        core::mem::swap(&mut self.buffer, &mut bytes);
        bytes
    }

    /// The bytes that were written and not yet taken.
    pub fn written(&self) -> (bytes: &[u8])
        ensures
            bytes@ == self@.written,
    {
        self.buffer.as_slice()
    }

    /// The version that the writer writes.
    pub fn version(&self) -> (version: RespVersion)
        ensures
            version == self@.version,
    {
        self.version
    }

    /// Makes the writer write `version` from now on.
    pub fn set_version(&mut self, version: RespVersion)
        ensures
            final(self)@ == (WriterView { version, ..old(self)@ }),
    {
        self.version = version;
    }

    /// Is the current version V2?
    fn v2(&self) -> (yes: bool)
        ensures
            yes == (self@.version == RespVersion::V2),
    {
        self.version == RespVersion::V2
    }

    /// Is the current version V3?
    fn v3(&self) -> (yes: bool)
        ensures
            yes == (self@.version == RespVersion::V3),
    {
        self.version == RespVersion::V3
    }

    /// Writes the end of a line.
    fn put_ending(&mut self)
        ensures
            final(self)@ == old(self)@.with(crlf()),
    {
        self.buffer.push(CR);
        self.buffer.push(LF);
        assert(self@.written =~= old(self)@.written + crlf());
    }

    /// Writes a marker, a number and the end of the line.
    fn put_header(&mut self, marker: u8, number: u128)
        ensures
            final(self)@ == old(self)@.with(header(marker, number as nat)),
    {
        self.buffer.push(marker);
        push_decimal(&mut self.buffer, number);
        self.put_ending();
        assert(self@.written =~= old(self)@.written + header(marker, number as nat));
    }

    /// Writes a marker, a text and the end of the line.
    fn put_line(&mut self, marker: u8, text: &[u8])
        ensures
            final(self)@ == old(self)@.with(line(marker, text@)),
    {
        self.buffer.push(marker);
        self.buffer.extend_from_slice(text);
        self.put_ending();
        assert(self@.written =~= old(self)@.written + line(marker, text@));
    }

    /// Writes a marker, the length of a payload, and the payload on a line of its
    /// own.
    fn put_blob(&mut self, marker: u8, payload: &[u8])
        ensures
            final(self)@ == old(self)@.with(blob(marker, payload@)),
    {
        self.put_header(marker, payload.len() as u128);
        self.buffer.extend_from_slice(payload);
        self.put_ending();
        assert(self@.written =~= old(self)@.written + blob(marker, payload@));
    }

    /// Write an array frame.
    pub fn write_array(&mut self, len: usize) -> (result: Result<(), RespError>)
        ensures
            Self::wrote(old(self)@, final(self)@, FrameView::Array(len), result),
    {
        self.put_header(ARRAY, len as u128);
        Ok(())
    }

    /// Write an attribute frame.
    pub fn write_attribute(&mut self, len: usize) -> (result: Result<(), RespError>)
        ensures
            Self::wrote(old(self)@, final(self)@, FrameView::Attribute(len), result),
    {
        if self.v2() {
            return Err(RespError::Version);
        }
        self.put_header(ATTRIBUTE, len as u128);
        Ok(())
    }

    /// Write a bignum frame.
    pub fn write_bignum(&mut self, value: &[u8]) -> (result: Result<(), RespError>)
        ensures
            Self::wrote(old(self)@, final(self)@, FrameView::Bignum(value@), result),
    {
        if has_newline(value) {
            return Err(RespError::Newline);
        }
        if self.v3() {
            self.put_line(BIGNUM, value);
        } else {
            self.put_line(SIMPLE_STRING, value);
        }
        Ok(())
    }

    /// Write a blob error frame.
    pub fn write_blob_error(&mut self, value: &[u8]) -> (result: Result<(), RespError>)
        ensures
            Self::wrote(old(self)@, final(self)@, FrameView::BlobError(value@), result),
    {
        if self.v2() {
            return Err(RespError::Version);
        }
        self.put_blob(BLOB_ERROR, value);
        Ok(())
    }

    /// Write a blob string frame.
    pub fn write_blob_string(&mut self, value: &[u8]) -> (result: Result<(), RespError>)
        ensures
            Self::wrote(old(self)@, final(self)@, FrameView::BlobString(value@), result),
    {
        self.put_blob(BLOB_STRING, value);
        Ok(())
    }

    /// Write a boolean frame.
    pub fn write_boolean(&mut self, value: bool) -> (result: Result<(), RespError>)
        ensures
            Self::wrote(old(self)@, final(self)@, FrameView::Boolean(value), result),
    {
        let text: [u8; 1] = if self.v3() {
            if value {
                [116]
            } else {
                [102]
            }
        } else {
            if value {
                [49]
            } else {
                [48]
            }
        };
        assert(text@ =~= seq![text@[0]]);
        if self.v3() {
            self.put_line(BOOLEAN, text.as_slice());
        } else {
            self.put_line(INTEGER, text.as_slice());
        }
        Ok(())
    }

    /// Write a double frame, given the text of the double.
    pub fn write_double(&mut self, value: &[u8]) -> (result: Result<(), RespError>)
        ensures
            Self::wrote(old(self)@, final(self)@, FrameView::Double(value@), result),
    {
        if !check_double(value) {
            return Err(RespError::InvalidDouble);
        }
        if self.v3() {
            self.put_line(DOUBLE, value);
        } else {
            self.put_line(SIMPLE_STRING, value);
        }
        Ok(())
    }

    /// Write an integer frame.
    pub fn write_integer(&mut self, value: i64) -> (result: Result<(), RespError>)
        ensures
            Self::wrote(old(self)@, final(self)@, FrameView::Integer(value), result),
    {
        self.buffer.push(INTEGER);
        push_integer(&mut self.buffer, value);
        self.put_ending();
        assert(self@.written =~= old(self)@.written + line(INTEGER, integer_text(value as int)));
        Ok(())
    }

    /// Write a nil frame.
    pub fn write_nil(&mut self) -> (result: Result<(), RespError>)
        ensures
            Self::wrote(old(self)@, final(self)@, FrameView::Nil, result),
    {
        if self.v3() {
            let nothing: [u8; 0] = [];
            assert(nothing@ =~= Seq::<u8>::empty());
            self.put_line(NIL, nothing.as_slice());
        } else {
            let minus_one: [u8; 2] = [45, 49];
            assert(minus_one@ =~= seq![45u8, 49]);
            self.put_line(BLOB_STRING, minus_one.as_slice());
        }
        Ok(())
    }

    /// Write a map frame.
    pub fn write_map(&mut self, len: usize) -> (result: Result<(), RespError>)
        ensures
            Self::wrote(old(self)@, final(self)@, FrameView::Mapping(len), result),
    {
        if self.v3() {
            self.put_header(MAP, len as u128);
        } else {
            self.put_header(ARRAY, 2 * (len as u128));
        }
        Ok(())
    }

    /// Write a push frame.
    pub fn write_push(&mut self, len: usize) -> (result: Result<(), RespError>)
        ensures
            Self::wrote(old(self)@, final(self)@, FrameView::Push(len), result),
    {
        if self.v3() {
            self.put_header(PUSH, len as u128);
        } else {
            self.put_header(ARRAY, len as u128);
        }
        Ok(())
    }

    /// Write a set frame.
    pub fn write_set(&mut self, len: usize) -> (result: Result<(), RespError>)
        ensures
            Self::wrote(old(self)@, final(self)@, FrameView::Members(len), result),
    {
        if self.v3() {
            self.put_header(SET, len as u128);
        } else {
            self.put_header(ARRAY, len as u128);
        }
        Ok(())
    }

    /// Write a simple error frame.
    pub fn write_simple_error(&mut self, value: &[u8]) -> (result: Result<(), RespError>)
        ensures
            Self::wrote(old(self)@, final(self)@, FrameView::SimpleError(value@), result),
    {
        if has_newline(value) {
            return Err(RespError::Newline);
        }
        self.put_line(SIMPLE_ERROR, value);
        Ok(())
    }

    /// Write a simple string frame.
    pub fn write_simple_string(&mut self, value: &[u8]) -> (result: Result<(), RespError>)
        ensures
            Self::wrote(old(self)@, final(self)@, FrameView::SimpleString(value@), result),
    {
        if has_newline(value) {
            return Err(RespError::Newline);
        }
        self.put_line(SIMPLE_STRING, value);
        Ok(())
    }

    /// Write a verbatim frame.
    pub fn write_verbatim(&mut self, format: &[u8], value: &[u8]) -> (result: Result<
        (),
        RespError,
    >)
        ensures
            Self::wrote(old(self)@, final(self)@, FrameView::Verbatim(format@, value@), result),
    {
        if self.v3() {
            let length = format.len() as u128 + 1 + value.len() as u128;
            self.put_header(VERBATIM, length);
            self.buffer.extend_from_slice(format);
            self.buffer.push(58);
            self.buffer.extend_from_slice(value);
            self.put_ending();
            assert(self@.written =~= old(self)@.written + blob(VERBATIM, format@ + seq![58u8] + value@));
        } else {
            self.put_blob(BLOB_STRING, value);
        }
        Ok(())
    }
}

} // verus!
