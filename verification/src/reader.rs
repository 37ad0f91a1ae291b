//! A reader that is fed the bytes of a RESP stream and hands out what they make
//! up, mainly in three ways.
//!
//! * Read each frame.
//! * Read values, possibly made up of multiple frames.
//! * Read requests like a Redis server.
//!
//! The reader does no input of its own. Whoever owns the source feeds it the
//! bytes that arrive and tells it when the source has ended. A step that finds
//! too few bytes is `Pending` and leaves the reader as it was, so that it can be
//! made again when more bytes have been fed, at any later time and however the
//! source cut the stream into pieces.

use crate::builder::value_at;
use crate::config::RespConfig;
use crate::decode::{blob_at, frame_at, read_blob, read_frame, ARRAY, BLOB_STRING};
use crate::error::RespError;
use crate::frame::{FrameView, RespFrame};
use crate::octets::{
    buffer_advance, buffer_as_slice, buffer_extend, buffer_len, buffer_new, bytes_from_slice,
    pending,
};
use crate::pile::read_value;
use crate::request::{RequestView, RespRequest};
use crate::scan::{
    lemma_digits_within, lemma_line_within, lemma_require_within, line_at, peek_at, read_line,
    read_size, require, require_at, size_at, Parsed, Scan,
};
use crate::text::crlf;
use crate::split::split_line;
use crate::splitter::Splitter;
use crate::value::{RespValue, ValueView};
use bytes::BytesMut;
use vstd::prelude::*;

verus! {

/// What a step of a reader comes to.
#[derive(Debug)]
pub enum RespPoll<T> {
    /// The step is done, and this is its result.
    Ready(T),
    /// The bytes received so far are too few. The step is to be made again when
    /// more have been fed or the source has ended.
    Pending,
}

/// The state of a reader when reading a stream of requests.
#[derive(Clone, Copy, Debug, PartialEq, Eq, Structural)]
pub enum RequestState {
    /// Reading the arguments of a request, of which so many are still to come.
    Args(usize),
    /// No more requests are in the stream.
    Done,
    /// The initial state, waiting for a request.
    Init,
    /// Handing out the arguments of an inline request.
    Splitting,
}

/// A reader of RESP frames, values and requests.
#[derive(Debug)]
pub struct RespReader {
    /// The bytes that were fed and not yet consumed.
    buffer: BytesMut,
    /// Reader config.
    config: RespConfig,
    /// A `Splitter` for splitting arguments.
    splitter: Splitter,
    /// The current request state.
    request_state: RequestState,
    /// Whether the source has ended.
    ended: bool,
}

/// What a reader holds.
pub struct ReaderView {
    /// The bytes that were fed and not yet consumed.
    pub buffer: Seq<u8>,
    /// Whether the source has ended.
    pub ended: bool,
    /// Where the reader stands in a stream of requests.
    pub state: RequestState,
    /// The arguments of an inline request that were not handed out yet.
    pub arguments: Seq<Seq<u8>>,
}

impl<V> Parsed<V> {
    /// The number of bytes that the scan consumes: none where it calls for more.
    pub open spec fn end(self) -> nat {
        match self {
            Parsed::Done(_, next) => next,
            Parsed::Fail(_, at) => at,
            Parsed::More => 0,
        }
    }

    /// What a step that makes the scan comes to.
    pub open spec fn poll(self) -> RespPoll<Result<V, RespError>> {
        match self {
            Parsed::Done(value, _) => RespPoll::Ready(Ok(value)),
            Parsed::Fail(error, _) => RespPoll::Ready(Err(error)),
            Parsed::More => RespPoll::Pending,
        }
    }
}

impl<T: DeepView> DeepView for RespPoll<Result<T, RespError>> {
    type V = RespPoll<Result<T::V, RespError>>;

    open spec fn deep_view(&self) -> RespPoll<Result<T::V, RespError>> {
        match self {
            RespPoll::Ready(Ok(value)) => RespPoll::Ready(Ok(value.deep_view())),
            RespPoll::Ready(Err(error)) => RespPoll::Ready(Err(*error)),
            RespPoll::Pending => RespPoll::Pending,
        }
    }
}

impl ReaderView {
    /// The reader without the first `count` bytes of its buffer.
    pub open spec fn consume(self, count: nat) -> ReaderView {
        ReaderView { buffer: self.buffer.skip(count as int), ..self }
    }

    /// The reader after it was fed `bytes`.
    pub open spec fn fed(self, bytes: Seq<u8>) -> ReaderView {
        ReaderView { buffer: self.buffer + bytes, ..self }
    }

    /// The reader after the source has ended.
    pub open spec fn finished(self) -> ReaderView {
        ReaderView { ended: true, ..self }
    }

    /// The reader in another state.
    pub open spec fn at(self, state: RequestState) -> ReaderView {
        ReaderView { state, ..self }
    }

    /// What bounds the number of steps that hand out a piece of a request: each
    /// such step makes the first smaller, or leaves it and makes the second
    /// smaller.
    pub open spec fn rank(self) -> (nat, nat) {
        (
            self.buffer.len(),
            if self.state is Init {
                self.arguments.len()
            } else {
                self.arguments.len() + 1
            },
        )
    }
}

/// What reading `parsed` from the start of the buffer comes to, and the reader
/// after it: what the scan has passed over is consumed, which is nothing where it
/// calls for more bytes.
pub open spec fn step<V>(pre: ReaderView, parsed: Parsed<V>) -> (
    ReaderView,
    RespPoll<Result<V, RespError>>,
) {
    (pre.consume(parsed.end()), parsed.poll())
}

/// What a step towards the next frame comes to, and the reader after it.
pub open spec fn frame_step(pre: ReaderView, blob_limit: usize, inline_limit: usize) -> (
    ReaderView,
    RespPoll<Result<Option<FrameView>, RespError>>,
) {
    step(pre, frame_at(pre.buffer, 0, blob_limit, inline_limit, pre.ended))
}

/// What a step towards the next value comes to, and the reader after it.
pub open spec fn value_step(pre: ReaderView, blob_limit: usize, inline_limit: usize) -> (
    ReaderView,
    RespPoll<Result<Option<ValueView>, RespError>>,
) {
    step(pre, value_at(pre.buffer, 0, blob_limit, inline_limit, pre.ended))
}

/// The head of an array-style request at `pos`: the marker of an array and the
/// number of arguments.
pub open spec fn head_at(buf: Seq<u8>, pos: nat, eof: bool) -> Parsed<usize> {
    match require_at(buf, pos, seq![ARRAY], eof) {
        Parsed::Done(_, start) => size_at(buf, start, eof),
        other => other.carry(),
    }
}

/// An argument of an array-style request at `pos`: the marker of a blob string, a
/// length within `blob_limit` and that many bytes.
pub open spec fn argument_at(buf: Seq<u8>, pos: nat, blob_limit: usize, eof: bool) -> Parsed<
    Seq<u8>,
> {
    match require_at(buf, pos, seq![BLOB_STRING], eof) {
        Parsed::Done(_, start) => blob_at(buf, start, blob_limit, eof),
        other => other.carry(),
    }
}

/// What a step towards the next piece of a request comes to, and the reader after
/// it, for a reader that is within a request or has closed.
pub open spec fn serve(pre: ReaderView, blob_limit: usize) -> (
    ReaderView,
    RespPoll<Result<Option<RequestView>, RespError>>,
) {
    match pre.state {
        RequestState::Args(left) => if left == 0 {
            (pre.at(RequestState::Init), RespPoll::Ready(Ok(Some(RequestView::End))))
        } else {
            match argument_at(pre.buffer, 0, blob_limit, pre.ended) {
                Parsed::Done(bytes, next) => (
                    pre.consume(next).at(RequestState::Args((left - 1) as usize)),
                    RespPoll::Ready(Ok(Some(RequestView::Argument(bytes)))),
                ),
                Parsed::Fail(error, at) => (pre.consume(at), RespPoll::Ready(Err(error))),
                Parsed::More => (pre, RespPoll::Pending),
            }
        },
        RequestState::Splitting => if pre.arguments.len() > 0 {
            (
                ReaderView { arguments: pre.arguments.skip(1), ..pre },
                RespPoll::Ready(Ok(Some(RequestView::Argument(pre.arguments[0])))),
            )
        } else {
            (pre.at(RequestState::Init), RespPoll::Ready(Ok(Some(RequestView::End))))
        },
        RequestState::Done => (pre, RespPoll::Ready(Ok(None))),
        RequestState::Init => (pre, RespPoll::Pending),
    }
}

/// What a step towards the next piece of a request comes to, and the reader after
/// it.
///
/// A reader that waits for a request closes where the source has ended. Else the
/// first byte decides: the marker of an array starts a request whose arguments
/// are counted and follow as blob strings, and anything else starts a line that
/// is split into arguments. A line that cannot be split is an invalid argument,
/// and the reader waits for the next request.
pub open spec fn request_step(pre: ReaderView, blob_limit: usize, inline_limit: usize) -> (
    ReaderView,
    RespPoll<Result<Option<RequestView>, RespError>>,
) {
    if pre.state is Init {
        match peek_at(pre.buffer, 0, pre.ended) {
            Parsed::Done(None, _) => (pre.at(RequestState::Done), RespPoll::Ready(Ok(None))),
            Parsed::Done(Some(byte), _) => if byte == ARRAY {
                match head_at(pre.buffer, 0, pre.ended) {
                    Parsed::Done(count, next) => serve(
                        pre.consume(next).at(RequestState::Args(count)),
                        blob_limit,
                    ),
                    Parsed::Fail(error, at) => (pre.consume(at), RespPoll::Ready(Err(error))),
                    Parsed::More => (pre, RespPoll::Pending),
                }
            } else {
                match line_at(pre.buffer, 0, inline_limit as nat, pre.ended) {
                    Parsed::Done(line, next) => match split_line(line) {
                        Some(arguments) => serve(
                            ReaderView {
                                arguments: pre.arguments + arguments,
                                ..pre.consume(next).at(RequestState::Splitting)
                            },
                            blob_limit,
                        ),
                        None => (
                            ReaderView { arguments: Seq::empty(), ..pre.consume(next) },
                            RespPoll::Ready(Ok(Some(RequestView::InvalidArgument))),
                        ),
                    },
                    Parsed::Fail(error, at) => (pre.consume(at), RespPoll::Ready(Err(error))),
                    Parsed::More => (pre, RespPoll::Pending),
                }
            },
            _ => (pre, RespPoll::Pending),
        }
    } else {
        serve(pre, blob_limit)
    }
}

/// A step that hands out a piece of a request leaves less to do: fewer bytes in
/// the buffer, or as many and fewer arguments to hand out or requests to end.
pub proof fn lemma_request_progress(pre: ReaderView, blob_limit: usize, inline_limit: usize)
    ensures
        request_step(pre, blob_limit, inline_limit).0.buffer.len() <= pre.buffer.len(),
        request_step(pre, blob_limit, inline_limit).1 matches RespPoll::Ready(Ok(Some(_))) ==> {
            let post = request_step(pre, blob_limit, inline_limit).0;
            post.rank().0 < pre.rank().0 || (post.rank().0 == pre.rank().0 && post.rank().1
                < pre.rank().1)
        },
{
    let buf = pre.buffer;
    let eof = pre.ended;
    let post = request_step(pre, blob_limit, inline_limit).0;
    match pre.state {
        RequestState::Init => {
            if buf.len() > 0 {
                if buf[0] == ARRAY {
                    lemma_require_within(buf, 0, seq![ARRAY], eof);
                    lemma_digits_within(buf, 1, 0, eof);
                    match head_at(buf, 0, eof) {
                        Parsed::Done(count, next) => {
                            let middle = pre.consume(next).at(RequestState::Args(count));
                            assert(middle.buffer.len() < buf.len());
                            lemma_serve_progress(middle, blob_limit);
                        },
                        _ => {},
                    }
                } else {
                    lemma_line_within(buf, 0, inline_limit as nat, eof);
                    match line_at(buf, 0, inline_limit as nat, eof) {
                        Parsed::Done(line, next) => {
                            match split_line(line) {
                                Some(arguments) => {
                                    let middle = ReaderView {
                                        arguments: pre.arguments + arguments,
                                        ..pre.consume(next).at(RequestState::Splitting)
                                    };
                                    assert(middle.buffer.len() < buf.len());
                                    lemma_serve_progress(middle, blob_limit);
                                },
                                None => {},
                            }
                        },
                        _ => {},
                    }
                }
            }
        },
        _ => {
            lemma_serve_progress(pre, blob_limit);
        },
    }
}

/// A step within a request that hands out a piece leaves less to do.
pub(crate) proof fn lemma_serve_progress(pre: ReaderView, blob_limit: usize)
    ensures
        serve(pre, blob_limit).0.buffer.len() <= pre.buffer.len(),
        serve(pre, blob_limit).1 matches RespPoll::Ready(Ok(Some(_))) ==> {
            let post = serve(pre, blob_limit).0;
            post.rank().0 < pre.rank().0 || (post.rank().0 == pre.rank().0 && post.rank().1
                < pre.rank().1)
        },
{
    let buf = pre.buffer;
    let eof = pre.ended;
    lemma_require_within(buf, 0, seq![BLOB_STRING], eof);
    if buf.len() > 0 {
        lemma_blob_within(buf, 1, blob_limit, eof);
    }
}

/// A pair of a length and a payload ends between its start and the end of the
/// bytes.
pub(crate) proof fn lemma_blob_within(buf: Seq<u8>, pos: nat, blob_limit: usize, eof: bool)
    requires
        pos <= buf.len(),
    ensures
        blob_at(buf, pos, blob_limit, eof).within(pos, buf.len()),
{
    lemma_digits_within(buf, pos, 0, eof);
    match size_at(buf, pos, eof) {
        Parsed::Done(size, start) => {
            if start + size <= buf.len() {
                lemma_require_within(buf, (start + size) as nat, crlf(), eof);
            }
        },
        _ => {},
    }
}

/// What each of the pieces `items` holds.
pub open spec fn request_views(items: Seq<RespRequest>) -> Seq<RequestView> {
    Seq::new(items.len(), |i: int| items[i]@)
}

/// The pieces of requests that a reader hands out until it lacks bytes or closes,
/// and the reader after that. An error is handed out as a piece and closes the
/// reader, whatever is left in its buffer.
pub open spec fn items_from(pre: ReaderView, blob_limit: usize, inline_limit: usize) -> (
    ReaderView,
    Seq<RequestView>,
)
    decreases pre.rank().0, pre.rank().1,
{
    let (post, poll) = request_step(pre, blob_limit, inline_limit);
    match poll {
        RespPoll::Ready(Ok(Some(item))) => {
            proof {
                lemma_request_progress(pre, blob_limit, inline_limit);
            }
            let (last, rest) = items_from(post, blob_limit, inline_limit);
            (last, seq![item] + rest)
        },
        RespPoll::Ready(Ok(None)) => (post, Seq::empty()),
        RespPoll::Ready(Err(error)) => (
            post.at(RequestState::Done),
            seq![RequestView::Error(error)],
        ),
        RespPoll::Pending => (post, Seq::empty()),
    }
}

impl View for RespReader {
    type V = ReaderView;

    closed spec fn view(&self) -> ReaderView {
        ReaderView {
            buffer: pending(self.buffer),
            ended: self.ended,
            state: self.request_state,
            arguments: self.splitter@,
        }
    }
}

/// Reads the head of an array-style request at `pos`.
fn read_head(buf: &[u8], pos: usize, eof: bool) -> (scan: Scan<usize>)
    requires
        pos <= buf.len(),
    ensures
        scan.deep_view() == head_at(buf@, pos as nat, eof),
        scan.deep_view().within(pos as nat, buf@.len()),
{
    let marker: [u8; 1] = [ARRAY];
    assert(marker@ =~= seq![ARRAY]);
    match require(buf, pos, marker.as_slice(), eof) {
        Scan::Done(_, start) => read_size(buf, start, eof),
        Scan::Fail(error, at) => Scan::Fail(error, at),
        Scan::More => Scan::More,
    }
}

/// Reads an argument of an array-style request at `pos`.
fn read_argument<'a>(buf: &'a [u8], pos: usize, blob_limit: usize, eof: bool) -> (scan: Scan<
    &'a [u8],
>)
    requires
        pos <= buf.len(),
    ensures
        scan.deep_view() == argument_at(buf@, pos as nat, blob_limit, eof),
        scan.deep_view().within(pos as nat, buf@.len()),
{
    let marker: [u8; 1] = [BLOB_STRING];
    assert(marker@ =~= seq![BLOB_STRING]);
    match require(buf, pos, marker.as_slice(), eof) {
        Scan::Done(_, start) => read_blob(buf, start, blob_limit, eof),
        Scan::Fail(error, at) => Scan::Fail(error, at),
        Scan::More => Scan::More,
    }
}

impl RespReader {
    /// The handle to the limits that this reader goes by.
    pub closed spec fn limits(&self) -> RespConfig {
        self.config
    }

    /// Create a new [`RespReader`] with a [`RespConfig`]. It has received nothing
    /// yet and waits for a request.
    pub fn new(config: RespConfig) -> (reader: Self)
        ensures
            reader.limits() == config,
            reader@ == (ReaderView {
                buffer: Seq::empty(),
                ended: false,
                state: RequestState::Init,
                arguments: Seq::empty(),
            }),
    {
        RespReader {
            buffer: buffer_new(),
            config,
            splitter: Splitter::new(),
            request_state: RequestState::Init,
            ended: false,
        }
    }

    /// The limits that this reader goes by.
    pub fn config(&self) -> (config: &RespConfig)
        ensures
            *config == self.limits(),
    {
        &self.config
    }

    /// Takes the bytes that the source has delivered.
    pub fn feed(&mut self, bytes: &[u8])
        ensures
            final(self)@ == old(self)@.fed(bytes@),
    {
        buffer_extend(&mut self.buffer, bytes);
    }

    /// Takes note that the source has ended: no more bytes will be fed.
    pub fn finish(&mut self)
        ensures
            final(self)@ == old(self)@.finished(),
    {
        self.ended = true;
    }

    /// Closes the reader as a reader of requests: it hands out no piece of a
    /// request any more, whatever it holds. This is for an error of the source,
    /// which ends a stream of requests as an error of the protocol does.
    pub fn close(&mut self)
        ensures
            final(self)@ == old(self)@.at(RequestState::Done),
    {
        self.request_state = RequestState::Done;
    }

    /// The number of bytes that were fed and not yet consumed.
    pub fn buffered(&self) -> (count: usize)
        ensures
            count == self@.buffer.len(),
    {
        buffer_len(&self.buffer)
    }

    /// Whether the source has ended.
    pub fn is_finished(&self) -> (ended: bool)
        ensures
            ended == self@.ended,
    {
        self.ended
    }

    /// Where the reader stands in a stream of requests.
    pub fn request_state(&self) -> (state: RequestState)
        ensures
            state == self@.state,
    {
        self.request_state
    }

    /// Consumes what a scan from the start of the buffer has passed over.
    fn settle<T: DeepView>(&mut self, scan: Scan<T>) -> (poll: RespPoll<Result<T, RespError>>)
        requires
            scan.deep_view().within(0, old(self)@.buffer.len()),
        ensures
            (final(self)@, poll.deep_view()) == step(old(self)@, scan.deep_view()),
    {
        match scan {
            Scan::Done(value, next) => {
                buffer_advance(&mut self.buffer, next);
                RespPoll::Ready(Ok(value))
            },
            Scan::Fail(error, at) => {
                buffer_advance(&mut self.buffer, at);
                RespPoll::Ready(Err(error))
            },
            Scan::More => {
                assert(self@.buffer.skip(0) =~= self@.buffer);
                RespPoll::Pending
            },
        }
    }

    /// Read the next [`RespFrame`] from the bytes received, with the limits given.
    /// `None` is the end of the stream.
    pub fn frame_with(&mut self, blob_limit: usize, inline_limit: usize) -> (poll: RespPoll<
        Result<Option<RespFrame>, RespError>,
    >)
        ensures
            (final(self)@, poll.deep_view()) == frame_step(old(self)@, blob_limit, inline_limit),
    {
        let scan = read_frame(
            buffer_as_slice(&self.buffer),
            0,
            blob_limit,
            inline_limit,
            self.ended,
        );
        self.settle(scan)
    }

    /// Read the next [`RespFrame`] from the bytes received, with the limits of
    /// the reader's configuration as they are at the time of the call.
    pub fn frame(&mut self) -> (poll: RespPoll<Result<Option<RespFrame>, RespError>>)
        ensures
            exists|blob_limit: usize, inline_limit: usize|
                (final(self)@, poll.deep_view()) == #[trigger] frame_step(
                    old(self)@,
                    blob_limit,
                    inline_limit,
                ),
    {
        let blob_limit = self.config.blob_limit();
        let inline_limit = self.config.inline_limit();
        self.frame_with(blob_limit, inline_limit)
    }

    /// Read the next [`RespValue`] from the bytes received, with the limits given.
    /// `None` is the end of the stream.
    pub fn value_with(&mut self, blob_limit: usize, inline_limit: usize) -> (poll: RespPoll<
        Result<Option<RespValue>, RespError>,
    >)
        ensures
            (final(self)@, poll.deep_view()) == value_step(old(self)@, blob_limit, inline_limit),
    {
        let scan = read_value(
            buffer_as_slice(&self.buffer),
            0,
            blob_limit,
            inline_limit,
            self.ended,
        );
        self.settle(scan)
    }

    /// Read the next [`RespValue`] from the bytes received, with the limits of
    /// the reader's configuration as they are at the time of the call.
    pub fn value(&mut self) -> (poll: RespPoll<Result<Option<RespValue>, RespError>>)
        ensures
            exists|blob_limit: usize, inline_limit: usize|
                (final(self)@, poll.deep_view()) == #[trigger] value_step(
                    old(self)@,
                    blob_limit,
                    inline_limit,
                ),
    {
        let blob_limit = self.config.blob_limit();
        let inline_limit = self.config.inline_limit();
        self.value_with(blob_limit, inline_limit)
    }

    /// Makes the step of a reader that is within a request or has closed.
    fn serve(&mut self, blob_limit: usize) -> (poll: RespPoll<
        Result<Option<RespRequest>, RespError>,
    >)
        ensures
            (final(self)@, poll.deep_view()) == serve(old(self)@, blob_limit),
    {
        match self.request_state {
            RequestState::Args(left) => {
                if left == 0 {
                    self.request_state = RequestState::Init;
                    return RespPoll::Ready(Ok(Some(RespRequest::End)));
                }
                let scan = read_argument(buffer_as_slice(&self.buffer), 0, blob_limit, self.ended);
                match scan {
                    Scan::Done(bytes, next) => {
                        assert(bytes.deep_view() =~= bytes@);
                        let argument = bytes_from_slice(bytes);
                        buffer_advance(&mut self.buffer, next);
                        self.request_state = RequestState::Args(left - 1);
                        RespPoll::Ready(Ok(Some(RespRequest::Argument(argument))))
                    },
                    Scan::Fail(error, at) => {
                        buffer_advance(&mut self.buffer, at);
                        RespPoll::Ready(Err(error))
                    },
                    Scan::More => RespPoll::Pending,
                }
            },
            RequestState::Splitting => match self.splitter.next() {
                Some(argument) => RespPoll::Ready(Ok(Some(RespRequest::Argument(argument)))),
                None => {
                    self.request_state = RequestState::Init;
                    RespPoll::Ready(Ok(Some(RespRequest::End)))
                },
            },
            RequestState::Done => RespPoll::Ready(Ok(None)),
            RequestState::Init => RespPoll::Pending,
        }
    }

    /// Read the next [`RespRequest`] from the bytes received, with the limits
    /// given. `None` is the end of the stream.
    pub fn request_with(&mut self, blob_limit: usize, inline_limit: usize) -> (poll: RespPoll<
        Result<Option<RespRequest>, RespError>,
    >)
        ensures
            (final(self)@, poll.deep_view()) == request_step(old(self)@, blob_limit, inline_limit),
    {
        if let RequestState::Init = self.request_state {
            let buf = buffer_as_slice(&self.buffer);
            if buf.len() == 0 {
                if self.ended {
                    self.request_state = RequestState::Done;
                    return RespPoll::Ready(Ok(None));
                } else {
                    return RespPoll::Pending;
                }
            }
            if buf[0] == ARRAY {
                match read_head(buf, 0, self.ended) {
                    Scan::Done(count, next) => {
                        buffer_advance(&mut self.buffer, next);
                        self.request_state = RequestState::Args(count);
                    },
                    Scan::Fail(error, at) => {
                        buffer_advance(&mut self.buffer, at);
                        return RespPoll::Ready(Err(error));
                    },
                    Scan::More => {
                        return RespPoll::Pending;
                    },
                }
            } else {
                match read_line(buf, 0, inline_limit, self.ended) {
                    Scan::Done(line, next) => {
                        assert(line.deep_view() =~= line@);
                        let ok = self.splitter.split(line);
                        buffer_advance(&mut self.buffer, next);
                        if !ok {
                            assert(self@.arguments =~= Seq::<Seq<u8>>::empty());
                            return RespPoll::Ready(Ok(Some(RespRequest::InvalidArgument)));
                        }
                        self.request_state = RequestState::Splitting;
                    },
                    Scan::Fail(error, at) => {
                        buffer_advance(&mut self.buffer, at);
                        return RespPoll::Ready(Err(error));
                    },
                    Scan::More => {
                        return RespPoll::Pending;
                    },
                }
            }
        }
        self.serve(blob_limit)
    }

    /// Read the next [`RespRequest`] from the bytes received, with the limits of
    /// the reader's configuration as they are at the time of the call.
    pub fn request(&mut self) -> (poll: RespPoll<Result<Option<RespRequest>, RespError>>)
        ensures
            exists|blob_limit: usize, inline_limit: usize|
                (final(self)@, poll.deep_view()) == #[trigger] request_step(
                    old(self)@,
                    blob_limit,
                    inline_limit,
                ),
    {
        let blob_limit = self.config.blob_limit();
        let inline_limit = self.config.inline_limit();
        self.request_with(blob_limit, inline_limit)
    }

    /// Reads the pieces of requests that the bytes received make up, with the
    /// limits given, until bytes are lacking or the stream has ended. An error
    /// is the last piece that a reader ever hands out.
    pub fn requests_with(&mut self, blob_limit: usize, inline_limit: usize) -> (items: Vec<
        RespRequest,
    >)
        ensures
            (final(self)@, request_views(items@)) == items_from(
                old(self)@,
                blob_limit,
                inline_limit,
            ),
    {
        let mut items: Vec<RespRequest> = Vec::new();
        assert(request_views(items@) =~= Seq::<RequestView>::empty());
        loop
            invariant
                items_from(old(self)@, blob_limit, inline_limit).0 == items_from(
                    self@,
                    blob_limit,
                    inline_limit,
                ).0,
                items_from(old(self)@, blob_limit, inline_limit).1 == request_views(items@)
                    + items_from(self@, blob_limit, inline_limit).1,
            decreases self@.rank().0, self@.rank().1,
        {
            let ghost before = self@;
            let ghost handed = request_views(items@);
            proof {
                lemma_request_progress(before, blob_limit, inline_limit);
            }
            match self.request_with(blob_limit, inline_limit) {
                RespPoll::Ready(Ok(Some(item))) => {
                    items.push(item);
                    proof {
                        let rest = items_from(self@, blob_limit, inline_limit).1;
                        assert(request_views(items@) =~= handed.push(item@));
                        assert(handed + (seq![item@] + rest) =~= handed.push(item@) + rest);
                    }
                },
                RespPoll::Ready(Ok(None)) => {
                    assert(handed + Seq::<RequestView>::empty() =~= handed);
                    return items;
                },
                RespPoll::Ready(Err(error)) => {
                    self.request_state = RequestState::Done;
                    items.push(RespRequest::Error(error));
                    assert(request_views(items@) =~= handed + seq![RequestView::Error(error)]);
                    return items;
                },
                RespPoll::Pending => {
                    assert(handed + Seq::<RequestView>::empty() =~= handed);
                    return items;
                },
            }
        }
    }

    /// Reads the pieces of requests that the bytes received make up, with the
    /// limits of the reader's configuration as they are at the time of the call.
    pub fn requests(&mut self) -> (items: Vec<RespRequest>)
        ensures
            exists|blob_limit: usize, inline_limit: usize|
                (final(self)@, request_views(items@)) == #[trigger] items_from(
                    old(self)@,
                    blob_limit,
                    inline_limit,
                ),
    {
        let blob_limit = self.config.blob_limit();
        let inline_limit = self.config.inline_limit();
        self.requests_with(blob_limit, inline_limit)
    }
}

} // verus!
