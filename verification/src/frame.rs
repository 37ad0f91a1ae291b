//! The flat unit of the wire format.

use crate::octets::contents;
use bytes::Bytes;
use vstd::prelude::*;

verus! {

/// A single frame in a RESP stream: a type marker with its own payload, or with
/// the number of frames that an aggregate is made of. Those follow as frames of
/// their own.
#[derive(Debug, Eq, PartialEq)]
pub enum RespFrame {
    /// The head of an array of so many frames.
    Array(usize),
    /// The head of an attribute of so many pairs.
    Attribute(usize),
    /// The digits of a big number.
    Bignum(Bytes),
    /// An error of any bytes.
    BlobError(Bytes),
    /// A string of any bytes.
    BlobString(Bytes),
    /// A boolean.
    Boolean(bool),
    /// The text of a double.
    Double(Bytes),
    /// A signed integer.
    Integer(i64),
    /// The head of a map of so many pairs.
    Mapping(usize),
    /// The absent value.
    Nil,
    /// The head of a push of so many frames.
    Push(usize),
    /// The head of a set of so many frames.
    Members(usize),
    /// An error on one line.
    SimpleError(Bytes),
    /// A string on one line.
    SimpleString(Bytes),
    /// A format of three bytes and a string of any bytes.
    Verbatim(Bytes, Bytes),
}

/// What a frame holds.
pub enum FrameView {
    Array(usize),
    Attribute(usize),
    Bignum(Seq<u8>),
    BlobError(Seq<u8>),
    BlobString(Seq<u8>),
    Boolean(bool),
    Double(Seq<u8>),
    Integer(i64),
    Mapping(usize),
    Nil,
    Push(usize),
    Members(usize),
    SimpleError(Seq<u8>),
    SimpleString(Seq<u8>),
    Verbatim(Seq<u8>, Seq<u8>),
}

impl View for RespFrame {
    type V = FrameView;

    open spec fn view(&self) -> FrameView {
        match self {
            RespFrame::Array(count) => FrameView::Array(*count),
            RespFrame::Attribute(count) => FrameView::Attribute(*count),
            RespFrame::Bignum(digits) => FrameView::Bignum(contents(*digits)),
            RespFrame::BlobError(message) => FrameView::BlobError(contents(*message)),
            RespFrame::BlobString(bytes) => FrameView::BlobString(contents(*bytes)),
            RespFrame::Boolean(value) => FrameView::Boolean(*value),
            RespFrame::Double(text) => FrameView::Double(contents(*text)),
            RespFrame::Integer(value) => FrameView::Integer(*value),
            RespFrame::Mapping(count) => FrameView::Mapping(*count),
            RespFrame::Nil => FrameView::Nil,
            RespFrame::Push(count) => FrameView::Push(*count),
            RespFrame::Members(count) => FrameView::Members(*count),
            RespFrame::SimpleError(message) => FrameView::SimpleError(contents(*message)),
            RespFrame::SimpleString(text) => FrameView::SimpleString(contents(*text)),
            RespFrame::Verbatim(format, text) => FrameView::Verbatim(
                contents(*format),
                contents(*text),
            ),
        }
    }
}

impl DeepView for RespFrame {
    type V = FrameView;

    open spec fn deep_view(&self) -> FrameView {
        self.view()
    }
}

} // verus!
