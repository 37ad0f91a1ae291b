//! What was decided stands: a scan that has come to a value or to an error
//! comes to the same when more bytes have arrived.
//!
//! Together with the fact that a step which lacks bytes leaves the reader as it
//! was, this makes reading independent of how the source cuts the stream into
//! pieces, and of how often a step is given up and made again.

use crate::builder::{
    lemma_required_within, lemma_value_within, list_at, members_at, pairs_at, primitive_of,
    required_at, value_at,
};
use crate::decode::{
    blob_at, blob_string_at, body_at, boolean_at, frame_at, lemma_frame_within, length_at,
    minus_one, payload_at, verbatim_at, ARRAY, BLOB_STRING,
};
use crate::frame::FrameView;
use crate::primitive::PrimitiveView;
use crate::reader::{
    argument_at, frame_step, head_at, items_from, lemma_blob_within, lemma_request_progress,
    request_step, serve, value_step, ReaderView, RequestState, RespPoll,
};
use crate::request::RequestView;
use crate::scan::{
    digits_at, first_cr, lemma_digits_within, lemma_first_cr, lemma_line_within,
    lemma_require_within, line_at, require_at, size_at, Parsed,
};
use crate::split::split_line;
use crate::text::{crlf, is_digit, CR, LF};
use crate::value::ValueView;
use vstd::prelude::*;

verus! {

/// Whether what a scan came to stands when it is made again later: it had called
/// for more bytes, or it comes to the same.
pub open spec fn stands<V>(first: Parsed<V>, later: Parsed<V>) -> bool {
    first is More || later == first
}

/// What a scan for a literal decided stands.
proof fn lemma_require_stands(
    buf: Seq<u8>,
    more: Seq<u8>,
    pos: nat,
    expected: Seq<u8>,
    eof: bool,
)
    requires
        pos <= buf.len(),
    ensures
        stands(require_at(buf, pos, expected, false), require_at(buf + more, pos, expected, eof)),
    decreases expected.len(),
{
    if expected.len() > 0 && pos < buf.len() && buf[pos as int] == expected[0] {
        lemma_require_stands(buf, more, pos + 1, expected.skip(1), eof);
    }
}

/// What a scan for the digits of a size decided stands.
proof fn lemma_digits_stands(buf: Seq<u8>, more: Seq<u8>, pos: nat, acc: nat, eof: bool)
    requires
        pos <= buf.len(),
    ensures
        stands(digits_at(buf, pos, acc, false), digits_at(buf + more, pos, acc, eof)),
    decreases buf.len() - pos,
{
    if pos < buf.len() {
        if buf[pos as int] == CR {
            lemma_require_stands(buf, more, pos + 1, seq![LF], eof);
        } else if is_digit(buf[pos as int]) {
            let next = acc * 10 + (buf[pos as int] - 48) as nat;
            if next <= usize::MAX {
                lemma_digits_stands(buf, more, pos + 1, next, eof);
            }
        }
    }
}

/// What a scan for a size decided stands.
proof fn lemma_size_stands(buf: Seq<u8>, more: Seq<u8>, pos: nat, eof: bool)
    requires
        pos <= buf.len(),
    ensures
        stands(size_at(buf, pos, false), size_at(buf + more, pos, eof)),
{
    lemma_digits_stands(buf, more, pos, 0, eof);
}

/// What a scan for a line decided stands.
proof fn lemma_line_stands(buf: Seq<u8>, more: Seq<u8>, pos: nat, inline_limit: nat, eof: bool)
    requires
        pos <= buf.len(),
    ensures
        stands(line_at(buf, pos, inline_limit, false), line_at(buf + more, pos, inline_limit, eof)),
{
    let long = buf + more;
    let held = (buf.len() - pos) as nat;
    let to = if held < inline_limit {
        pos + held
    } else {
        pos + inline_limit
    };
    let long_held = (long.len() - pos) as nat;
    let long_to = if long_held < inline_limit {
        pos + long_held
    } else {
        pos + inline_limit
    };
    lemma_first_cr(buf, pos, to);
    lemma_first_cr(long, pos, long_to);
    match first_cr(buf, pos, to) {
        Some(cr) => {
            assert(long[cr as int] == CR);
            assert(first_cr(long, pos, long_to) == Some(cr)) by {
                match first_cr(long, pos, long_to) {
                    Some(other) => {
                        if other < cr {
                            assert(buf[other as int] == long[other as int]);
                        }
                    },
                    None => {},
                }
            }
            lemma_require_stands(buf, more, cr, crlf(), eof);
            assert(long.subrange(pos as int, cr as int) =~= buf.subrange(pos as int, cr as int));
        },
        None => {
            if held > inline_limit {
                match first_cr(long, pos, long_to) {
                    Some(other) => {
                        assert(buf[other as int] == long[other as int]);
                    },
                    None => {},
                }
            }
        },
    }
}

/// What a scan for a payload decided stands.
proof fn lemma_payload_stands(
    buf: Seq<u8>,
    more: Seq<u8>,
    pos: nat,
    size: usize,
    blob_limit: usize,
    eof: bool,
)
    requires
        pos <= buf.len(),
    ensures
        stands(
            payload_at(buf, pos, size, blob_limit, false),
            payload_at(buf + more, pos, size, blob_limit, eof),
        ),
{
    if size <= blob_limit && pos + size <= buf.len() {
        assert((buf + more).subrange(pos as int, (pos + size) as int) =~= buf.subrange(
            pos as int,
            (pos + size) as int,
        ));
        lemma_require_stands(buf, more, (pos + size) as nat, crlf(), eof);
    }
}

/// What a scan for a length and its payload decided stands.
proof fn lemma_blob_stands(buf: Seq<u8>, more: Seq<u8>, pos: nat, blob_limit: usize, eof: bool)
    requires
        pos <= buf.len(),
    ensures
        stands(blob_at(buf, pos, blob_limit, false), blob_at(buf + more, pos, blob_limit, eof)),
{
    lemma_size_stands(buf, more, pos, eof);
    lemma_digits_within(buf, pos, 0, false);
    match size_at(buf, pos, false) {
        Parsed::Done(size, start) => {
            lemma_payload_stands(buf, more, start, size, blob_limit, eof);
        },
        _ => {},
    }
}

/// What a scan for a length or for nil in its place decided stands.
proof fn lemma_length_stands(buf: Seq<u8>, more: Seq<u8>, pos: nat, eof: bool)
    requires
        pos <= buf.len(),
    ensures
        stands(length_at(buf, pos, false), length_at(buf + more, pos, eof)),
{
    lemma_size_stands(buf, more, pos, eof);
    lemma_require_stands(buf, more, pos, minus_one(), eof);
}

/// What a scan behind the marker of a blob string decided stands.
proof fn lemma_blob_string_stands(
    buf: Seq<u8>,
    more: Seq<u8>,
    pos: nat,
    blob_limit: usize,
    eof: bool,
)
    requires
        pos <= buf.len(),
    ensures
        stands(
            blob_string_at(buf, pos, blob_limit, false),
            blob_string_at(buf + more, pos, blob_limit, eof),
        ),
{
    lemma_length_stands(buf, more, pos, eof);
    lemma_digits_within(buf, pos, 0, false);
    lemma_require_within(buf, pos, minus_one(), false);
    match length_at(buf, pos, false) {
        Parsed::Done(Some(size), start) => {
            lemma_payload_stands(buf, more, start, size, blob_limit, eof);
        },
        _ => {},
    }
}

/// What a scan behind the marker of a verbatim string decided stands.
proof fn lemma_verbatim_stands(buf: Seq<u8>, more: Seq<u8>, pos: nat, blob_limit: usize, eof: bool)
    requires
        pos <= buf.len(),
    ensures
        stands(
            verbatim_at(buf, pos, blob_limit, false),
            verbatim_at(buf + more, pos, blob_limit, eof),
        ),
{
    lemma_size_stands(buf, more, pos, eof);
    lemma_digits_within(buf, pos, 0, false);
    match size_at(buf, pos, false) {
        Parsed::Done(size, start) => {
            if size <= blob_limit && size >= 4 && start + size <= buf.len() {
                assert((buf + more).subrange(start as int, (start + size) as int) =~= buf.subrange(
                    start as int,
                    (start + size) as int,
                ));
                lemma_require_stands(buf, more, (start + size) as nat, crlf(), eof);
            }
        },
        _ => {},
    }
}

/// What a scan behind the marker of a boolean decided stands.
proof fn lemma_boolean_stands(buf: Seq<u8>, more: Seq<u8>, pos: nat, eof: bool)
    requires
        pos <= buf.len(),
    ensures
        stands(boolean_at(buf, pos, false), boolean_at(buf + more, pos, eof)),
{
    if pos < buf.len() {
        lemma_require_stands(buf, more, pos + 1, crlf(), eof);
    }
}

/// What a scan behind a marker decided stands.
proof fn lemma_body_stands(
    buf: Seq<u8>,
    more: Seq<u8>,
    pos: nat,
    marker: u8,
    blob_limit: usize,
    inline_limit: usize,
    eof: bool,
)
    requires
        pos <= buf.len(),
    ensures
        stands(
            body_at(buf, pos, marker, blob_limit, inline_limit, false),
            body_at(buf + more, pos, marker, blob_limit, inline_limit, eof),
        ),
{
    lemma_length_stands(buf, more, pos, eof);
    lemma_blob_string_stands(buf, more, pos, blob_limit, eof);
    lemma_blob_stands(buf, more, pos, blob_limit, eof);
    lemma_verbatim_stands(buf, more, pos, blob_limit, eof);
    lemma_boolean_stands(buf, more, pos, eof);
    lemma_line_stands(buf, more, pos, inline_limit as nat, eof);
    lemma_require_stands(buf, more, pos, crlf(), eof);
    lemma_size_stands(buf, more, pos, eof);
}

/// A frame that was read, and an error that was found, stand: when more bytes
/// have arrived, and whether or not the source has ended since, reading from the
/// same place comes to the same frame or error at the same place.
pub proof fn lemma_frame_stands(
    buf: Seq<u8>,
    more: Seq<u8>,
    pos: nat,
    blob_limit: usize,
    inline_limit: usize,
    eof: bool,
)
    ensures
        stands(
            frame_at(buf, pos, blob_limit, inline_limit, false),
            frame_at(buf + more, pos, blob_limit, inline_limit, eof),
        ),
{
    if pos <= buf.len() {
        if pos < buf.len() {
            lemma_body_stands(buf, more, pos + 1, buf[pos as int], blob_limit, inline_limit, eof);
        }
    }
}

/// A value that was read, and an error that was found, stand when more bytes have
/// arrived.
pub proof fn lemma_value_stands(
    buf: Seq<u8>,
    more: Seq<u8>,
    pos: nat,
    blob_limit: usize,
    inline_limit: usize,
    eof: bool,
)
    ensures
        stands(
            value_at(buf, pos, blob_limit, inline_limit, false),
            value_at(buf + more, pos, blob_limit, inline_limit, eof),
        ),
    decreases buf.len() - pos, 0nat,
{
    if pos <= buf.len() {
        lemma_frame_stands(buf, more, pos, blob_limit, inline_limit, eof);
        lemma_frame_within(buf, pos, blob_limit, inline_limit, false);
        match frame_at(buf, pos, blob_limit, inline_limit, false) {
            Parsed::Done(Some(frame), next) => {
                match frame {
                    FrameView::Array(count) => {
                        lemma_list_stands(
                            buf,
                            more,
                            next,
                            count as nat,
                            Seq::empty(),
                            blob_limit,
                            inline_limit,
                            eof,
                        );
                    },
                    FrameView::Push(count) => {
                        lemma_list_stands(
                            buf,
                            more,
                            next,
                            count as nat,
                            Seq::empty(),
                            blob_limit,
                            inline_limit,
                            eof,
                        );
                    },
                    FrameView::Mapping(count) => {
                        lemma_pairs_stands(
                            buf,
                            more,
                            next,
                            count as nat,
                            Map::empty(),
                            blob_limit,
                            inline_limit,
                            eof,
                        );
                    },
                    FrameView::Attribute(count) => {
                        lemma_pairs_stands(
                            buf,
                            more,
                            next,
                            count as nat,
                            Map::empty(),
                            blob_limit,
                            inline_limit,
                            eof,
                        );
                    },
                    FrameView::Members(count) => {
                        lemma_members_stands(
                            buf,
                            more,
                            next,
                            count as nat,
                            Set::empty(),
                            blob_limit,
                            inline_limit,
                            eof,
                        );
                    },
                    _ => {},
                }
            },
            _ => {},
        }
    }
}

/// What a scan for a value that is owed decided stands.
proof fn lemma_required_stands(
    buf: Seq<u8>,
    more: Seq<u8>,
    pos: nat,
    blob_limit: usize,
    inline_limit: usize,
    eof: bool,
)
    requires
        pos <= buf.len(),
    ensures
        stands(
            required_at(buf, pos, blob_limit, inline_limit, false),
            required_at(buf + more, pos, blob_limit, inline_limit, eof),
        ),
    decreases buf.len() - pos, 1nat,
{
    lemma_value_stands(buf, more, pos, blob_limit, inline_limit, eof);
}

/// What a scan for values in a row decided stands.
proof fn lemma_list_stands(
    buf: Seq<u8>,
    more: Seq<u8>,
    pos: nat,
    count: nat,
    acc: Seq<ValueView>,
    blob_limit: usize,
    inline_limit: usize,
    eof: bool,
)
    requires
        pos <= buf.len(),
    ensures
        stands(
            list_at(buf, pos, count, acc, blob_limit, inline_limit, false),
            list_at(buf + more, pos, count, acc, blob_limit, inline_limit, eof),
        ),
    decreases buf.len() - pos, 2nat,
{
    if count > 0 {
        lemma_required_stands(buf, more, pos, blob_limit, inline_limit, eof);
        lemma_required_within(buf, pos, blob_limit, inline_limit, false);
        match required_at(buf, pos, blob_limit, inline_limit, false) {
            Parsed::Done(item, next) => {
                lemma_list_stands(
                    buf,
                    more,
                    next,
                    (count - 1) as nat,
                    acc.push(item),
                    blob_limit,
                    inline_limit,
                    eof,
                );
            },
            _ => {},
        }
    }
}

/// What a scan for members in a row decided stands.
proof fn lemma_members_stands(
    buf: Seq<u8>,
    more: Seq<u8>,
    pos: nat,
    count: nat,
    acc: Set<PrimitiveView>,
    blob_limit: usize,
    inline_limit: usize,
    eof: bool,
)
    requires
        pos <= buf.len(),
    ensures
        stands(
            members_at(buf, pos, count, acc, blob_limit, inline_limit, false),
            members_at(buf + more, pos, count, acc, blob_limit, inline_limit, eof),
        ),
    decreases buf.len() - pos, 2nat,
{
    if count > 0 {
        lemma_required_stands(buf, more, pos, blob_limit, inline_limit, eof);
        lemma_required_within(buf, pos, blob_limit, inline_limit, false);
        match required_at(buf, pos, blob_limit, inline_limit, false) {
            Parsed::Done(item, next) => {
                match primitive_of(item) {
                    Some(member) => {
                        lemma_members_stands(
                            buf,
                            more,
                            next,
                            (count - 1) as nat,
                            acc.insert(member),
                            blob_limit,
                            inline_limit,
                            eof,
                        );
                    },
                    None => {},
                }
            },
            _ => {},
        }
    }
}

/// What a scan for pairs in a row decided stands.
proof fn lemma_pairs_stands(
    buf: Seq<u8>,
    more: Seq<u8>,
    pos: nat,
    count: nat,
    acc: Map<PrimitiveView, ValueView>,
    blob_limit: usize,
    inline_limit: usize,
    eof: bool,
)
    requires
        pos <= buf.len(),
    ensures
        stands(
            pairs_at(buf, pos, count, acc, blob_limit, inline_limit, false),
            pairs_at(buf + more, pos, count, acc, blob_limit, inline_limit, eof),
        ),
    decreases buf.len() - pos, 2nat,
{
    if count > 0 {
        lemma_required_stands(buf, more, pos, blob_limit, inline_limit, eof);
        lemma_required_within(buf, pos, blob_limit, inline_limit, false);
        match required_at(buf, pos, blob_limit, inline_limit, false) {
            Parsed::Done(first, middle) => {
                match primitive_of(first) {
                    Some(key) => {
                        lemma_required_stands(buf, more, middle, blob_limit, inline_limit, eof);
                        lemma_required_within(buf, middle, blob_limit, inline_limit, false);
                        match required_at(buf, middle, blob_limit, inline_limit, false) {
                            Parsed::Done(value, next) => {
                                lemma_pairs_stands(
                                    buf,
                                    more,
                                    next,
                                    (count - 1) as nat,
                                    acc.insert(key, value),
                                    blob_limit,
                                    inline_limit,
                                    eof,
                                );
                            },
                            _ => {},
                        }
                    },
                    None => {},
                }
            },
            _ => {},
        }
    }
}

/// A step that was given up for want of bytes has consumed none: the reader is
/// as it was before the step.
pub proof fn lemma_pending_step_keeps_all(pre: ReaderView, blob_limit: usize, inline_limit: usize)
    ensures
        frame_step(pre, blob_limit, inline_limit).1 is Pending ==> frame_step(
            pre,
            blob_limit,
            inline_limit,
        ).0 == pre,
        value_step(pre, blob_limit, inline_limit).1 is Pending ==> value_step(
            pre,
            blob_limit,
            inline_limit,
        ).0 == pre,
{
    assert(pre.buffer.skip(0) =~= pre.buffer);
}

/// Reading frames does not depend on how the source cuts the stream. Take a
/// reader whose source has not ended, make a step, feed it `more`, and let the
/// source end or not. If the step was given up, making it again is the step of
/// a reader that had all the bytes from the start. If it came to a frame, to the
/// end or to an error, a reader that had all the bytes from the start comes to
/// the same and is left with the same bytes.
pub proof fn lemma_frame_resumes(
    pre: ReaderView,
    more: Seq<u8>,
    ended: bool,
    blob_limit: usize,
    inline_limit: usize,
)
    requires
        !pre.ended,
    ensures
        ({
            let whole = ReaderView { ended, ..pre.fed(more) };
            let (post, poll) = frame_step(pre, blob_limit, inline_limit);
            let later = ReaderView { ended, ..post.fed(more) };
            if poll is Pending {
                frame_step(later, blob_limit, inline_limit) == frame_step(
                    whole,
                    blob_limit,
                    inline_limit,
                )
            } else {
                frame_step(whole, blob_limit, inline_limit) == (later, poll)
            }
        }),
{
    let parsed = frame_at(pre.buffer, 0, blob_limit, inline_limit, false);
    lemma_frame_stands(pre.buffer, more, 0, blob_limit, inline_limit, ended);
    lemma_frame_within(pre.buffer, 0, blob_limit, inline_limit, false);
    assert(pre.buffer.skip(0) =~= pre.buffer);
    assert(pre.buffer.skip(parsed.end() as int) + more =~= (pre.buffer + more).skip(
        parsed.end() as int,
    ));
}

/// Reading values does not depend on how the source cuts the stream, in the same
/// way as reading frames.
pub proof fn lemma_value_resumes(
    pre: ReaderView,
    more: Seq<u8>,
    ended: bool,
    blob_limit: usize,
    inline_limit: usize,
)
    requires
        !pre.ended,
    ensures
        ({
            let whole = ReaderView { ended, ..pre.fed(more) };
            let (post, poll) = value_step(pre, blob_limit, inline_limit);
            let later = ReaderView { ended, ..post.fed(more) };
            if poll is Pending {
                value_step(later, blob_limit, inline_limit) == value_step(
                    whole,
                    blob_limit,
                    inline_limit,
                )
            } else {
                value_step(whole, blob_limit, inline_limit) == (later, poll)
            }
        }),
{
    let parsed = value_at(pre.buffer, 0, blob_limit, inline_limit, false);
    lemma_value_stands(pre.buffer, more, 0, blob_limit, inline_limit, ended);
    lemma_value_within(pre.buffer, 0, blob_limit, inline_limit, false);
    assert(pre.buffer.skip(0) =~= pre.buffer);
    assert(pre.buffer.skip(parsed.end() as int) + more =~= (pre.buffer + more).skip(
        parsed.end() as int,
    ));
}

/// What a scan for the head of an array-style request decided stands.
proof fn lemma_head_stands(buf: Seq<u8>, more: Seq<u8>, pos: nat, eof: bool)
    requires
        pos <= buf.len(),
    ensures
        stands(head_at(buf, pos, false), head_at(buf + more, pos, eof)),
{
    lemma_require_stands(buf, more, pos, seq![ARRAY], eof);
    lemma_require_within(buf, pos, seq![ARRAY], false);
    match require_at(buf, pos, seq![ARRAY], false) {
        Parsed::Done(_, start) => lemma_size_stands(buf, more, start, eof),
        _ => {},
    }
}

/// What a scan for an argument of an array-style request decided stands.
proof fn lemma_argument_stands(
    buf: Seq<u8>,
    more: Seq<u8>,
    pos: nat,
    blob_limit: usize,
    eof: bool,
)
    requires
        pos <= buf.len(),
    ensures
        stands(
            argument_at(buf, pos, blob_limit, false),
            argument_at(buf + more, pos, blob_limit, eof),
        ),
{
    lemma_require_stands(buf, more, pos, seq![BLOB_STRING], eof);
    lemma_require_within(buf, pos, seq![BLOB_STRING], false);
    match require_at(buf, pos, seq![BLOB_STRING], false) {
        Parsed::Done(_, start) => lemma_blob_stands(buf, more, start, blob_limit, eof),
        _ => {},
    }
}

/// The reader `pre` after `more` has arrived, and with the source ended or not.
pub open spec fn later(pre: ReaderView, more: Seq<u8>, ended: bool) -> ReaderView {
    ReaderView { ended, ..pre.fed(more) }
}

/// A step within a request does not depend on how the source cuts the stream.
proof fn lemma_serve_resumes(pre: ReaderView, more: Seq<u8>, ended: bool, blob_limit: usize)
    requires
        !pre.ended,
        !(pre.state is Init),
    ensures
        ({
            let (post, poll) = serve(pre, blob_limit);
            if poll is Pending {
                post == pre
            } else {
                serve(later(pre, more, ended), blob_limit) == (later(post, more, ended), poll)
            }
        }),
{
    let buf = pre.buffer;
    lemma_argument_stands(buf, more, 0, blob_limit, ended);
    lemma_require_within(buf, 0, seq![BLOB_STRING], false);
    if buf.len() > 0 {
        lemma_blob_within(buf, 1, blob_limit, false);
    }
    let parsed = argument_at(buf, 0, blob_limit, false);
    assert(buf.skip(parsed.end() as int) + more =~= (buf + more).skip(parsed.end() as int));
}

/// Reading a piece of a request does not depend on how the source cuts the
/// stream. Take a reader whose source has not ended, make a step, feed it `more`,
/// and let the source end or not. If the step was given up, making it again is
/// the step of a reader that had all the bytes from the start. If it came to a
/// piece, to the end or to an error, a reader that had all the bytes from the
/// start comes to the same and is left in the same state with the same bytes.
pub proof fn lemma_request_resumes(
    pre: ReaderView,
    more: Seq<u8>,
    ended: bool,
    blob_limit: usize,
    inline_limit: usize,
)
    requires
        !pre.ended,
    ensures
        ({
            let (post, poll) = request_step(pre, blob_limit, inline_limit);
            if poll is Pending {
                request_step(later(post, more, ended), blob_limit, inline_limit) == request_step(
                    later(pre, more, ended),
                    blob_limit,
                    inline_limit,
                )
            } else {
                request_step(later(pre, more, ended), blob_limit, inline_limit) == (
                    later(post, more, ended),
                    poll,
                )
            }
        }),
{
    let buf = pre.buffer;
    let whole = later(pre, more, ended);
    if pre.state is Init {
        if buf.len() > 0 {
            assert(whole.buffer[0] == buf[0]);
            if buf[0] == ARRAY {
                lemma_head_stands(buf, more, 0, ended);
                lemma_require_within(buf, 0, seq![ARRAY], false);
                lemma_digits_within(buf, 1, 0, false);
                match head_at(buf, 0, false) {
                    Parsed::Done(count, next) => {
                        let middle = pre.consume(next).at(RequestState::Args(count));
                        assert(buf.skip(next as int) + more =~= (buf + more).skip(next as int));
                        assert(later(middle, more, ended) == whole.consume(next).at(
                            RequestState::Args(count),
                        ));
                        lemma_serve_resumes(middle, more, ended, blob_limit);
                    },
                    Parsed::Fail(_, at) => {
                        assert(buf.skip(at as int) + more =~= (buf + more).skip(at as int));
                    },
                    Parsed::More => {},
                }
            } else {
                lemma_line_stands(buf, more, 0, inline_limit as nat, ended);
                lemma_line_within(buf, 0, inline_limit as nat, false);
                match line_at(buf, 0, inline_limit as nat, false) {
                    Parsed::Done(line, next) => {
                        assert(buf.skip(next as int) + more =~= (buf + more).skip(next as int));
                        match split_line(line) {
                            Some(arguments) => {
                                let middle = ReaderView {
                                    arguments: pre.arguments + arguments,
                                    ..pre.consume(next).at(RequestState::Splitting)
                                };
                                assert(later(middle, more, ended) == (ReaderView {
                                    arguments: whole.arguments + arguments,
                                    ..whole.consume(next).at(RequestState::Splitting)
                                }));
                                lemma_serve_resumes(middle, more, ended, blob_limit);
                            },
                            None => {},
                        }
                    },
                    Parsed::Fail(_, at) => {
                        assert(buf.skip(at as int) + more =~= (buf + more).skip(at as int));
                    },
                    Parsed::More => {},
                }
            }
        }
    } else {
        lemma_serve_resumes(pre, more, ended, blob_limit);
    }
}

/// Reading requests does not depend on how the source cuts the stream. The
/// pieces that a reader hands out of what it has, and then of what it has after
/// `more` has arrived, are the pieces that a reader hands out which had all the
/// bytes from the start, and the two readers end up the same.
pub proof fn lemma_requests_resume(
    pre: ReaderView,
    more: Seq<u8>,
    ended: bool,
    blob_limit: usize,
    inline_limit: usize,
)
    requires
        !pre.ended,
    ensures
        ({
            let (middle, first) = items_from(pre, blob_limit, inline_limit);
            let (last, second) = items_from(later(middle, more, ended), blob_limit, inline_limit);
            items_from(later(pre, more, ended), blob_limit, inline_limit) == (last, first + second)
        }),
    decreases pre.rank().0, pre.rank().1,
{
    let (post, poll) = request_step(pre, blob_limit, inline_limit);
    let whole = later(pre, more, ended);
    lemma_request_resumes(pre, more, ended, blob_limit, inline_limit);
    lemma_request_progress(pre, blob_limit, inline_limit);
    match poll {
        RespPoll::Ready(Ok(Some(item))) => {
            lemma_requests_resume(post, more, ended, blob_limit, inline_limit);
            let (middle, rest) = items_from(post, blob_limit, inline_limit);
            let (last, second) = items_from(later(middle, more, ended), blob_limit, inline_limit);
            assert(seq![item] + (rest + second) =~= (seq![item] + rest) + second);
        },
        RespPoll::Ready(Ok(None)) => {
            let (last, second) = items_from(later(post, more, ended), blob_limit, inline_limit);
            assert(Seq::<RequestView>::empty() + second =~= second);
            let again = request_step(whole, blob_limit, inline_limit);
            assert(again.1 == poll);
            assert(items_from(later(post, more, ended), blob_limit, inline_limit) == (
                later(post, more, ended),
                Seq::<RequestView>::empty(),
            )) by {
                lemma_closed_hands_out_nothing(later(post, more, ended), blob_limit, inline_limit);
            }
        },
        RespPoll::Ready(Err(error)) => {
            let closed = post.at(RequestState::Done);
            lemma_closed_hands_out_nothing(later(closed, more, ended), blob_limit, inline_limit);
            assert(later(closed, more, ended) == later(post, more, ended).at(RequestState::Done));
            assert(seq![RequestView::Error(error)] + Seq::<RequestView>::empty() =~= seq![
                RequestView::Error(error),
            ]);
        },
        RespPoll::Pending => {
            let (last, second) = items_from(later(post, more, ended), blob_limit, inline_limit);
            assert(Seq::<RequestView>::empty() + second =~= second);
            lemma_items_follow_step(later(post, more, ended), whole, blob_limit, inline_limit);
        },
    }
}

/// A closed reader hands out nothing and stays as it is.
proof fn lemma_closed_hands_out_nothing(
    pre: ReaderView,
    blob_limit: usize,
    inline_limit: usize,
)
    requires
        pre.state is Done,
    ensures
        items_from(pre, blob_limit, inline_limit) == (pre, Seq::<RequestView>::empty()),
{
}

/// Readers whose next step is the same hand out the same.
proof fn lemma_items_follow_step(
    one: ReaderView,
    other: ReaderView,
    blob_limit: usize,
    inline_limit: usize,
)
    requires
        request_step(one, blob_limit, inline_limit) == request_step(
            other,
            blob_limit,
            inline_limit,
        ),
    ensures
        items_from(one, blob_limit, inline_limit) == items_from(other, blob_limit, inline_limit),
{
}

} // verus!
