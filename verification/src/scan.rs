//! Reading single bytes, literals, sizes and lines at a position of the bytes
//! that were received.
//!
//! Nothing here consumes anything: a scan starts at a position and says where it
//! ended. That may be with a value, with an error, or with the finding that the
//! bytes received so far are too few to decide while the source may still
//! deliver more. A scan that was cut short can so be made again from the same
//! position once more bytes are there.

use crate::error::RespError;
use crate::text::{all_digits, crlf, decimal_value, is_digit, slice_subrange, CR, LF};
use vstd::prelude::*;

verus! {

/// What a scan comes to, as a specification.
pub enum Parsed<V> {
    /// The value that was read and the position after it.
    Done(V, nat),
    /// The error and the position at which the scan gave up.
    Fail(RespError, nat),
    /// The bytes end too early to decide, and the source may deliver more.
    More,
}

/// What a scan comes to.
#[derive(Debug)]
pub enum Scan<T> {
    /// The value that was read and the position after it.
    Done(T, usize),
    /// The error and the position at which the scan gave up.
    Fail(RespError, usize),
    /// The bytes end too early to decide, and the source may deliver more.
    More,
}

impl<V> Parsed<V> {
    /// The same outcome for a scan of another type. For outcomes without a value.
    pub open spec fn carry<W>(self) -> Parsed<W> {
        match self {
            Parsed::Fail(error, at) => Parsed::Fail(error, at),
            _ => Parsed::More,
        }
    }

    /// Whether the scan ended between `from` and `to`.
    pub open spec fn within(self, from: nat, to: nat) -> bool {
        match self {
            Parsed::Done(_, next) => from <= next <= to,
            Parsed::Fail(_, at) => from <= at <= to,
            Parsed::More => true,
        }
    }
}

impl<T: DeepView> DeepView for Scan<T> {
    type V = Parsed<T::V>;

    open spec fn deep_view(&self) -> Parsed<T::V> {
        match self {
            Scan::Done(value, next) => Parsed::Done(value.deep_view(), *next as nat),
            Scan::Fail(error, at) => Parsed::Fail(*error, *at as nat),
            Scan::More => Parsed::More,
        }
    }
}

/// What running out of bytes at `at` comes to: an error once the source has ended,
/// else a call for more bytes.
pub open spec fn short<V>(at: nat, eof: bool) -> Parsed<V> {
    if eof {
        Parsed::Fail(RespError::EndOfInput, at)
    } else {
        Parsed::More
    }
}

/// The byte at `pos`, which stays where it is; `None` where the source has ended
/// there.
pub open spec fn peek_at(buf: Seq<u8>, pos: nat, eof: bool) -> Parsed<Option<u8>> {
    if pos < buf.len() {
        Parsed::Done(Some(buf[pos as int]), pos)
    } else if eof {
        Parsed::Done(None, pos)
    } else {
        Parsed::More
    }
}

/// The byte at `pos`.
pub open spec fn pop_at(buf: Seq<u8>, pos: nat, eof: bool) -> Parsed<u8> {
    if pos < buf.len() {
        Parsed::Done(buf[pos as int], pos + 1)
    } else {
        short(pos, eof)
    }
}

/// The bytes `expected` at `pos`, one after the other. The first byte that
/// differs is reported with the byte that was expected in its place.
pub open spec fn require_at(buf: Seq<u8>, pos: nat, expected: Seq<u8>, eof: bool) -> Parsed<()>
    decreases expected.len(),
{
    if expected.len() == 0 {
        Parsed::Done((), pos)
    } else if pos >= buf.len() {
        short(pos, eof)
    } else if buf[pos as int] != expected[0] {
        Parsed::Fail(RespError::Unexpected(expected[0], buf[pos as int]), pos + 1)
    } else {
        require_at(buf, pos + 1, expected.skip(1), eof)
    }
}

/// The `count` bytes at `pos`.
pub open spec fn exact_at(buf: Seq<u8>, pos: nat, count: nat, eof: bool) -> Parsed<Seq<u8>> {
    if pos + count <= buf.len() {
        Parsed::Done(buf.subrange(pos as int, (pos + count) as int), pos + count)
    } else {
        short(pos, eof)
    }
}

/// The first position from `from` up to `to` that holds a carriage return.
pub open spec fn first_cr(buf: Seq<u8>, from: nat, to: nat) -> Option<nat>
    decreases to - from,
{
    if from >= to || from >= buf.len() {
        None
    } else if buf[from as int] == CR {
        Some(from)
    } else {
        first_cr(buf, from + 1, to)
    }
}

/// The line at `pos`: the bytes before the first carriage return, which must be
/// among the first `inline_limit` bytes and have a line feed behind it.
pub open spec fn line_at(buf: Seq<u8>, pos: nat, inline_limit: nat, eof: bool) -> Parsed<Seq<u8>> {
    let held = if pos <= buf.len() {
        (buf.len() - pos) as nat
    } else {
        0
    };
    let to = if held < inline_limit {
        pos + held
    } else {
        pos + inline_limit
    };
    match first_cr(buf, pos, to) {
        Some(cr) => match require_at(buf, cr, crlf(), eof) {
            Parsed::Done(_, next) => Parsed::Done(buf.subrange(pos as int, cr as int), next),
            other => other.carry(),
        },
        None => if held > inline_limit {
            Parsed::Fail(RespError::TooBigInline, pos)
        } else {
            short(pos, eof)
        },
    }
}

/// The size whose digits so far make `acc` and go on at `pos`, up to the line
/// ending.
pub open spec fn digits_at(buf: Seq<u8>, pos: nat, acc: nat, eof: bool) -> Parsed<usize>
    decreases buf.len() - pos,
{
    if pos >= buf.len() {
        short(pos, eof)
    } else if buf[pos as int] == CR {
        match require_at(buf, pos + 1, seq![LF], eof) {
            Parsed::Done(_, next) => Parsed::Done(acc as usize, next),
            other => other.carry(),
        }
    } else if is_digit(buf[pos as int]) {
        let more = acc * 10 + (buf[pos as int] - 48) as nat;
        if more > usize::MAX {
            Parsed::Fail(RespError::InvalidBlobLength, pos + 1)
        } else {
            digits_at(buf, pos + 1, more, eof)
        }
    } else {
        Parsed::Fail(RespError::InvalidBlobLength, pos + 1)
    }
}

/// The size at `pos`: at least one decimal digit, then a line ending. A size that
/// is empty, holds anything but digits or does not fit is an invalid blob length.
pub open spec fn size_at(buf: Seq<u8>, pos: nat, eof: bool) -> Parsed<usize> {
    if pos < buf.len() && buf[pos as int] == CR {
        Parsed::Fail(RespError::InvalidBlobLength, pos)
    } else {
        digits_at(buf, pos, 0, eof)
    }
}

/// A scan for a literal ends between its start and the end of the bytes.
pub(crate) proof fn lemma_require_within(buf: Seq<u8>, pos: nat, expected: Seq<u8>, eof: bool)
    requires
        pos <= buf.len(),
    ensures
        require_at(buf, pos, expected, eof).within(pos, buf.len()),
        require_at(buf, pos, expected, eof) matches Parsed::Done(_, next) ==> next == pos
            + expected.len(),
    decreases expected.len(),
{
    if expected.len() > 0 && pos < buf.len() && buf[pos as int] == expected[0] {
        lemma_require_within(buf, pos + 1, expected.skip(1), eof);
    }
}

/// A carriage return that was found lies in the range that was searched, and
/// nothing before it in that range is one.
pub(crate) proof fn lemma_first_cr(buf: Seq<u8>, from: nat, to: nat)
    requires
        to <= buf.len(),
    ensures
        match first_cr(buf, from, to) {
            Some(cr) => from <= cr < to && buf[cr as int] == CR && forall|i: int|
                from <= i < cr ==> buf[i] != CR,
            None => forall|i: int| from <= i < to ==> buf[i] != CR,
        },
    decreases to - from,
{
    if from < to && buf[from as int] != CR {
        lemma_first_cr(buf, from + 1, to);
    }
}

/// A scan for a line ends between its start and the end of the bytes.
pub(crate) proof fn lemma_line_within(buf: Seq<u8>, pos: nat, inline_limit: nat, eof: bool)
    requires
        pos <= buf.len(),
    ensures
        line_at(buf, pos, inline_limit, eof).within(pos, buf.len()),
        line_at(buf, pos, inline_limit, eof) matches Parsed::Done(line, next) ==> next == pos
            + line.len() + 2,
{
    let held = (buf.len() - pos) as nat;
    let to = if held < inline_limit {
        pos + held
    } else {
        pos + inline_limit
    };
    lemma_first_cr(buf, pos, to);
    match first_cr(buf, pos, to) {
        Some(cr) => lemma_require_within(buf, cr, crlf(), eof),
        None => {},
    }
}

/// A scan for a size ends between its start and the end of the bytes, and after
/// its start where it found a size.
pub(crate) proof fn lemma_digits_within(buf: Seq<u8>, pos: nat, acc: nat, eof: bool)
    requires
        pos <= buf.len(),
    ensures
        digits_at(buf, pos, acc, eof).within(pos, buf.len()),
        digits_at(buf, pos, acc, eof) matches Parsed::Done(_, next) ==> pos < next,
    decreases buf.len() - pos,
{
    if pos < buf.len() {
        if buf[pos as int] == CR {
            lemma_require_within(buf, pos + 1, seq![LF], eof);
        } else if is_digit(buf[pos as int]) {
            let more = acc * 10 + (buf[pos as int] - 48) as nat;
            if more <= usize::MAX {
                lemma_digits_within(buf, pos + 1, more, eof);
            }
        }
    }
}

/// The number that `acc` becomes when the digits `digits` are put behind it.
pub open spec fn extended(acc: nat, digits: Seq<u8>) -> nat
    decreases digits.len(),
{
    if digits.len() == 0 {
        acc
    } else {
        extended(acc * 10 + (digits[0] - 48) as nat, digits.skip(1))
    }
}

/// Putting digits behind a number does not make it smaller.
pub(crate) proof fn lemma_extended_grows(acc: nat, digits: Seq<u8>)
    requires
        all_digits(digits),
    ensures
        acc <= extended(acc, digits),
    decreases digits.len(),
{
    if digits.len() > 0 {
        assert(is_digit(digits[0]));
        assert forall|i: int| 0 <= i < digits.skip(1).len() implies is_digit(
            #[trigger] digits.skip(1)[i],
        ) by {
            assert(is_digit(digits[i + 1]));
        }
        lemma_extended_grows(acc * 10 + (digits[0] - 48) as nat, digits.skip(1));
    }
}

/// Putting one more digit behind the digits multiplies by ten and adds it.
pub(crate) proof fn lemma_extended_push(acc: nat, digits: Seq<u8>, last: u8)
    ensures
        extended(acc, digits.push(last)) == extended(acc, digits) * 10 + (last - 48) as nat,
    decreases digits.len(),
{
    if digits.len() == 0 {
        assert(digits.push(last).skip(1) =~= Seq::<u8>::empty());
        assert(extended(acc * 10 + (last - 48) as nat, Seq::<u8>::empty()) == acc * 10 + (last
            - 48) as nat);
    } else {
        assert(digits.push(last).skip(1) =~= digits.skip(1).push(last));
        lemma_extended_push(acc * 10 + (digits[0] - 48) as nat, digits.skip(1), last);
    }
}

/// Digits put behind nothing denote their own number.
pub(crate) proof fn lemma_extended_value(digits: Seq<u8>)
    ensures
        extended(0, digits) == decimal_value(digits),
    decreases digits.len(),
{
    if digits.len() > 0 {
        lemma_extended_value(digits.drop_last());
        lemma_extended_push(0, digits.drop_last(), digits.last());
        assert(digits.drop_last().push(digits.last()) =~= digits);
    }
}

/// Digits with a line ending behind them are read as the number they denote, or
/// as an invalid blob length if that number does not fit.
pub(crate) proof fn lemma_digits_read(buf: Seq<u8>, pos: nat, acc: nat, digits: Seq<u8>, eof: bool)
    requires
        pos + digits.len() + 2 <= buf.len(),
        buf.subrange(pos as int, (pos + digits.len()) as int) == digits,
        all_digits(digits),
        buf[(pos + digits.len()) as int] == CR,
        buf[(pos + digits.len() + 1) as int] == LF,
        acc <= usize::MAX,
    ensures
        extended(acc, digits) <= usize::MAX ==> digits_at(buf, pos, acc, eof) == Parsed::Done(
            extended(acc, digits) as usize,
            pos + digits.len() + 2,
        ),
        extended(acc, digits) > usize::MAX ==> (digits_at(buf, pos, acc, eof) matches Parsed::Fail(
            RespError::InvalidBlobLength,
            at,
        ) && pos < at <= pos + digits.len()),
    decreases digits.len(),
{
    if digits.len() == 0 {
        assert(seq![LF].skip(1) =~= Seq::<u8>::empty());
        assert(require_at(buf, pos + 2, seq![LF].skip(1), eof) == Parsed::<()>::Done((), pos + 2));
    } else {
        assert(buf[pos as int] == digits[0]);
        assert(is_digit(digits[0]));
        let more = acc * 10 + (digits[0] - 48) as nat;
        let rest = digits.skip(1);
        assert(buf.subrange((pos + 1) as int, (pos + 1 + rest.len()) as int) =~= rest);
        assert forall|i: int| 0 <= i < rest.len() implies is_digit(#[trigger] rest[i]) by {
            assert(is_digit(digits[i + 1]));
        }
        lemma_extended_grows(more, rest);
        if more <= usize::MAX {
            lemma_digits_read(buf, pos + 1, more, rest, eof);
        }
    }
}

/// A size that is written as digits with a line ending behind them is read as the
/// number they denote; digits whose number does not fit are an invalid blob
/// length.
pub proof fn lemma_size_read(buf: Seq<u8>, pos: nat, digits: Seq<u8>, eof: bool)
    requires
        digits.len() > 0,
        pos + digits.len() + 2 <= buf.len(),
        buf.subrange(pos as int, (pos + digits.len()) as int) == digits,
        all_digits(digits),
        buf[(pos + digits.len()) as int] == CR,
        buf[(pos + digits.len() + 1) as int] == LF,
    ensures
        decimal_value(digits) <= usize::MAX ==> size_at(buf, pos, eof) == Parsed::Done(
            decimal_value(digits) as usize,
            pos + digits.len() + 2,
        ),
        decimal_value(digits) > usize::MAX ==> (size_at(buf, pos, eof) matches Parsed::Fail(
            RespError::InvalidBlobLength,
            at,
        ) && pos < at <= pos + digits.len()),
{
    assert(buf[pos as int] == digits[0]);
    assert(is_digit(digits[0]));
    lemma_extended_value(digits);
    lemma_digits_read(buf, pos, 0, digits, eof);
}

/// What is read as a size is at least one digit and a line ending, and the size is
/// the number that the digits denote.
pub proof fn lemma_size_accepts_digits_only(buf: Seq<u8>, pos: nat, eof: bool)
    ensures
        size_at(buf, pos, eof) matches Parsed::Done(size, next) ==> {
            &&& pos + 3 <= next <= buf.len()
            &&& all_digits(buf.subrange(pos as int, next - 2))
            &&& decimal_value(buf.subrange(pos as int, next - 2)) == size
            &&& buf[next - 2] == CR
            &&& buf[next - 1] == LF
        },
{
    if pos <= buf.len() {
        assert(buf.subrange(pos as int, pos as int) =~= Seq::<u8>::empty());
        lemma_digits_accepted(buf, pos, pos, 0, eof);
        match size_at(buf, pos, eof) {
            Parsed::Done(size, next) => {
                lemma_extended_value(buf.subrange(pos as int, next - 2));
            },
            _ => {},
        }
    }
}

/// What is read as a size after the digits from `start` up to `pos` is made of
/// those and of further digits, up to a line ending.
proof fn lemma_digits_accepted(buf: Seq<u8>, start: nat, pos: nat, acc: nat, eof: bool)
    requires
        start <= pos <= buf.len(),
        all_digits(buf.subrange(start as int, pos as int)),
        acc == extended(0, buf.subrange(start as int, pos as int)),
        acc <= usize::MAX,
    ensures
        digits_at(buf, pos, acc, eof) matches Parsed::Done(size, next) ==> {
            &&& pos + 2 <= next <= buf.len()
            &&& all_digits(buf.subrange(start as int, next - 2))
            &&& extended(0, buf.subrange(start as int, next - 2)) == size
            &&& buf[next - 2] == CR
            &&& buf[next - 1] == LF
        },
    decreases buf.len() - pos,
{
    if pos < buf.len() {
        if buf[pos as int] == CR {
            lemma_require_within(buf, pos + 1, seq![LF], eof);
            if pos + 1 < buf.len() && buf[(pos + 1) as int] == LF {
                assert(seq![LF].skip(1) =~= Seq::<u8>::empty());
            }
        } else if is_digit(buf[pos as int]) {
            let more = acc * 10 + (buf[pos as int] - 48) as nat;
            let before = buf.subrange(start as int, pos as int);
            let after = buf.subrange(start as int, (pos + 1) as int);
            assert(after =~= before.push(buf[pos as int]));
            lemma_extended_push(0, before, buf[pos as int]);
            if more <= usize::MAX {
                lemma_digits_accepted(buf, start, pos + 1, more, eof);
            }
        }
    }
}

/// Whatever else stands in the place of a size is an invalid blob length: no
/// digits at all, a byte that is neither a digit nor the carriage return behind
/// the digits, or digits whose number does not fit. `end` is the first place from
/// `pos` on that holds no digit.
pub proof fn lemma_size_rejects(buf: Seq<u8>, pos: nat, end: nat, eof: bool)
    requires
        pos <= end <= buf.len(),
        all_digits(buf.subrange(pos as int, end as int)),
        end < buf.len() ==> !is_digit(buf[end as int]),
        (end < buf.len() && buf[end as int] != CR) || (end == pos && end < buf.len())
            || decimal_value(buf.subrange(pos as int, end as int)) > usize::MAX,
    ensures
        size_at(buf, pos, eof) matches Parsed::Fail(RespError::InvalidBlobLength, _),
{
    lemma_extended_value(buf.subrange(pos as int, end as int));
    if !(pos < buf.len() && buf[pos as int] == CR) {
        lemma_digits_rejected(buf, pos, end, 0, eof);
    }
}

/// Digits that are followed by the wrong byte, or whose number does not fit, are
/// an invalid blob length.
proof fn lemma_digits_rejected(buf: Seq<u8>, pos: nat, end: nat, acc: nat, eof: bool)
    requires
        pos <= end <= buf.len(),
        all_digits(buf.subrange(pos as int, end as int)),
        acc <= usize::MAX,
        (end < buf.len() && buf[end as int] != CR && !is_digit(buf[end as int])) || extended(
            acc,
            buf.subrange(pos as int, end as int),
        ) > usize::MAX,
    ensures
        digits_at(buf, pos, acc, eof) matches Parsed::Fail(RespError::InvalidBlobLength, _),
    decreases end - pos,
{
    let digits = buf.subrange(pos as int, end as int);
    if pos < end {
        assert(digits[0] == buf[pos as int]);
        assert(is_digit(digits[0]));
        let more = acc * 10 + (buf[pos as int] - 48) as nat;
        assert(buf.subrange((pos + 1) as int, end as int) =~= digits.skip(1));
        if more <= usize::MAX {
            lemma_digits_rejected(buf, pos + 1, end, more, eof);
        }
    }
}

/// Bytes that are there are read as required.
pub(crate) proof fn lemma_require_read(buf: Seq<u8>, pos: nat, expected: Seq<u8>, eof: bool)
    requires
        pos + expected.len() <= buf.len(),
        buf.subrange(pos as int, (pos + expected.len()) as int) == expected,
    ensures
        require_at(buf, pos, expected, eof) == Parsed::Done((), pos + expected.len()),
    decreases expected.len(),
{
    if expected.len() > 0 {
        assert(buf[pos as int] == expected[0]);
        assert(buf.subrange((pos + 1) as int, (pos + 1 + expected.skip(1).len()) as int)
            =~= expected.skip(1));
        lemma_require_read(buf, pos + 1, expected.skip(1), eof);
    }
}

/// A text without a carriage return, with a line ending behind it, is read as a
/// line where it is shorter than the limit.
pub(crate) proof fn lemma_line_read(buf: Seq<u8>, pos: nat, text: Seq<u8>, inline_limit: nat, eof: bool)
    requires
        pos + text.len() + 2 <= buf.len(),
        buf.subrange(pos as int, (pos + text.len()) as int) == text,
        !text.contains(CR),
        buf[(pos + text.len()) as int] == CR,
        buf[(pos + text.len() + 1) as int] == LF,
    ensures
        text.len() < inline_limit ==> line_at(buf, pos, inline_limit, eof) == Parsed::Done(
            text,
            pos + text.len() + 2,
        ),
        text.len() >= inline_limit ==> line_at(buf, pos, inline_limit, eof) == Parsed::<
            Seq<u8>,
        >::Fail(RespError::TooBigInline, pos),
{
    let held = (buf.len() - pos) as nat;
    let to = if held < inline_limit {
        pos + held
    } else {
        pos + inline_limit
    };
    let end = pos + text.len();
    lemma_first_cr(buf, pos, to);
    assert forall|i: int| pos <= i < end implies buf[i] != CR by {
        assert(buf[i] == text[i - pos]);
    }
    if text.len() < inline_limit {
        assert(first_cr(buf, pos, to) == Some(end));
        assert(buf.subrange(end as int, (end + 2) as int) =~= crlf());
        lemma_require_read(buf, end, crlf(), eof);
    } else {
        assert(first_cr(buf, pos, to).is_none());
    }
}

/// Looks at the byte at `pos`.
pub fn peek(buf: &[u8], pos: usize, eof: bool) -> (scan: Scan<Option<u8>>)
    ensures
        scan.deep_view() == peek_at(buf@, pos as nat, eof),
{
    if pos < buf.len() {
        Scan::Done(Some(buf[pos]), pos)
    } else if eof {
        Scan::Done(None, pos)
    } else {
        Scan::More
    }
}

/// Reads the byte at `pos`.
pub fn pop(buf: &[u8], pos: usize, eof: bool) -> (scan: Scan<u8>)
    ensures
        scan.deep_view() == pop_at(buf@, pos as nat, eof),
{
    if pos < buf.len() {
        Scan::Done(buf[pos], pos + 1)
    } else if eof {
        Scan::Fail(RespError::EndOfInput, pos)
    } else {
        Scan::More
    }
}

/// Reads the bytes `expected` at `pos`.
pub fn require(buf: &[u8], pos: usize, expected: &[u8], eof: bool) -> (scan: Scan<()>)
    ensures
        scan.deep_view() == require_at(buf@, pos as nat, expected@, eof),
        pos <= buf.len() ==> scan.deep_view().within(pos as nat, buf@.len()),
{
    if pos > buf.len() {
        return if expected.len() == 0 {
            Scan::Done((), pos)
        } else if eof {
            Scan::Fail(RespError::EndOfInput, pos)
        } else {
            Scan::More
        };
    }
    proof {
        lemma_require_within(buf@, pos as nat, expected@, eof);
    }
    let mut i: usize = 0;
    assert(expected@.skip(0) =~= expected@);
    while i < expected.len()
        invariant
            i <= expected.len(),
            pos + i <= buf.len(),
            require_at(buf@, pos as nat, expected@, eof) == require_at(
                buf@,
                (pos + i) as nat,
                expected@.skip(i as int),
                eof,
            ),
        decreases expected.len() - i,
    {
        let ghost rest = expected@.skip(i as int);
        assert(rest.skip(1) =~= expected@.skip(i + 1));
        if pos + i >= buf.len() {
            if eof {
                return Scan::Fail(RespError::EndOfInput, pos + i);
            } else {
                return Scan::More;
            }
        }
        let got = buf[pos + i];
        if got != expected[i] {
            return Scan::Fail(RespError::Unexpected(expected[i], got), pos + i + 1);
        }
        i += 1;
    }
    Scan::Done((), pos + i)
}

/// Reads the `count` bytes at `pos`.
pub fn read_exact<'a>(buf: &'a [u8], pos: usize, count: usize, eof: bool) -> (scan: Scan<&'a [u8]>)
    ensures
        scan.deep_view() == exact_at(buf@, pos as nat, count as nat, eof),
        pos <= buf.len() ==> scan.deep_view().within(pos as nat, buf@.len()),
{
    if pos <= buf.len() && count <= buf.len() - pos {
        let part = slice_subrange(buf, pos, pos + count);
        assert(part.deep_view() =~= part@);
        Scan::Done(part, pos + count)
    } else if eof {
        Scan::Fail(RespError::EndOfInput, pos)
    } else {
        Scan::More
    }
}

/// Reads the line at `pos`.
pub fn read_line<'a>(buf: &'a [u8], pos: usize, inline_limit: usize, eof: bool) -> (scan: Scan<
    &'a [u8],
>)
    ensures
        scan.deep_view() == line_at(buf@, pos as nat, inline_limit as nat, eof),
        pos <= buf.len() ==> scan.deep_view().within(pos as nat, buf@.len()),
{
    if pos > buf.len() {
        return if eof {
            Scan::Fail(RespError::EndOfInput, pos)
        } else {
            Scan::More
        };
    }
    proof {
        lemma_line_within(buf@, pos as nat, inline_limit as nat, eof);
    }
    let held = buf.len() - pos;
    let to = if held < inline_limit {
        pos + held
    } else {
        pos + inline_limit
    };
    let mut i = pos;
    while i < to
        invariant
            pos <= i <= to <= buf.len(),
            held == buf.len() - pos,
            to == (if held < inline_limit {
                pos + held
            } else {
                pos + inline_limit
            }),
            first_cr(buf@, pos as nat, to as nat) == first_cr(buf@, i as nat, to as nat),
        decreases to - i,
    {
        if buf[i] == CR {
            let ending: [u8; 2] = [CR, LF];
            assert(ending@ =~= crlf());
            let line = slice_subrange(buf, pos, i);
            assert(line.deep_view() =~= line@);
            return match require(buf, i, ending.as_slice(), eof) {
                Scan::Done(_, next) => Scan::Done(line, next),
                Scan::Fail(error, at) => Scan::Fail(error, at),
                Scan::More => Scan::More,
            };
        }
        i += 1;
    }
    if held > inline_limit {
        Scan::Fail(RespError::TooBigInline, pos)
    } else if eof {
        Scan::Fail(RespError::EndOfInput, pos)
    } else {
        Scan::More
    }
}

/// Reads the size at `pos`.
pub fn read_size(buf: &[u8], pos: usize, eof: bool) -> (scan: Scan<usize>)
    ensures
        scan.deep_view() == size_at(buf@, pos as nat, eof),
        pos <= buf.len() ==> scan.deep_view().within(pos as nat, buf@.len()),
{
    if pos > buf.len() {
        return if eof {
            Scan::Fail(RespError::EndOfInput, pos)
        } else {
            Scan::More
        };
    }
    proof {
        lemma_digits_within(buf@, pos as nat, 0, eof);
    }
    if pos < buf.len() && buf[pos] == CR {
        return Scan::Fail(RespError::InvalidBlobLength, pos);
    }
    let mut size: usize = 0;
    let mut i = pos;
    loop
        invariant
            pos <= i <= buf.len(),
            size_at(buf@, pos as nat, eof) == digits_at(buf@, i as nat, size as nat, eof),
        decreases buf.len() - i,
    {
        if i >= buf.len() {
            if eof {
                return Scan::Fail(RespError::EndOfInput, i);
            } else {
                return Scan::More;
            }
        }
        let c = buf[i];
        if c == CR {
            let ending: [u8; 1] = [LF];
            assert(ending@ =~= seq![LF]);
            return match require(buf, i + 1, ending.as_slice(), eof) {
                Scan::Done(_, next) => Scan::Done(size, next),
                Scan::Fail(error, at) => Scan::Fail(error, at),
                Scan::More => Scan::More,
            };
        }
        if !(48 <= c && c <= 57) {
            return Scan::Fail(RespError::InvalidBlobLength, i + 1);
        }
        let digit = (c - 48) as usize;
        match size.checked_mul(10) {
            Some(tens) => match tens.checked_add(digit) {
                Some(more) => {
                    size = more;
                },
                None => {
                    return Scan::Fail(RespError::InvalidBlobLength, i + 1);
                },
            },
            None => {
                return Scan::Fail(RespError::InvalidBlobLength, i + 1);
            },
        }
        i += 1;
    }
}

} // verus!
