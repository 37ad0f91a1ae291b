//! The pieces that a request is handed out in.

use crate::error::RespError;
use crate::octets::contents;
use bytes::Bytes;
use vstd::prelude::*;
use vstd::std_specs::convert::FromSpecImpl;

verus! {

/// One piece of a RESP request. A request is a run of pieces that ends with
/// `End`; an `Error` ends the whole stream.
#[derive(Debug)]
pub enum RespRequest {
    /// One argument in a RESP request.
    Argument(Bytes),
    /// An inline request that could not be split into arguments.
    InvalidArgument,
    /// A RESP protocol error, after which nothing follows.
    Error(RespError),
    /// Notification of the end of a request.
    End,
}

/// What a piece of a request holds.
pub enum RequestView {
    Argument(Seq<u8>),
    InvalidArgument,
    Error(RespError),
    End,
}

impl View for RespRequest {
    type V = RequestView;

    open spec fn view(&self) -> RequestView {
        match self {
            RespRequest::Argument(bytes) => RequestView::Argument(contents(*bytes)),
            RespRequest::InvalidArgument => RequestView::InvalidArgument,
            RespRequest::Error(error) => RequestView::Error(*error),
            RespRequest::End => RequestView::End,
        }
    }
}

impl DeepView for RespRequest {
    type V = RequestView;

    open spec fn deep_view(&self) -> RequestView {
        self.view()
    }
}

impl From<Bytes> for RespRequest {
    fn from(value: Bytes) -> (request: RespRequest) {
        RespRequest::Argument(value)
    }
}

impl FromSpecImpl<Bytes> for RespRequest {
    open spec fn obeys_from_spec() -> bool {
        true
    }

    open spec fn from_spec(value: Bytes) -> RespRequest {
        RespRequest::Argument(value)
    }
}

} // verus!
