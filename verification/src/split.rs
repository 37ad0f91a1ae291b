//! Splitting one line of an inline request into its arguments.
//!
//! * Unquoted whitespace separates arguments and is discarded.
//! * An unquoted argument is read verbatim, without escapes.
//! * A single-quoted argument may hold whitespace, and `\'` for a quote.
//! * A double-quoted argument may hold whitespace and the escapes `\xHH`, `\a`,
//!   `\b`, `\n`, `\r` and `\t`; a backslash before any other byte stands for
//!   that byte.
//!
//! A closing quote must be followed by whitespace or by the end of the line, and a
//! quote that is never closed makes the whole line invalid.

use crate::octets::{
    buffer_as_slice, buffer_clear, buffer_freeze, buffer_new, buffer_put, buffer_split, contents,
    pending,
};
use crate::text::{hex_digit, hex_value, is_space, space};
use bytes::{Bytes, BytesMut};
use std::collections::VecDeque;
use vstd::prelude::*;

verus! {

/// `'`
pub const SINGLE_QUOTE: u8 = 39;

/// `"`
pub const DOUBLE_QUOTE: u8 = 34;

/// `\`
pub const BACKSLASH: u8 = 92;

/// The byte that a backslash and `c` stand for between double quotes.
pub open spec fn escaped(c: u8) -> u8 {
    if c == 97 {
        7
    } else if c == 98 {
        8
    } else if c == 110 {
        10
    } else if c == 114 {
        13
    } else if c == 116 {
        9
    } else {
        c
    }
}

/// The byte that the two hexadecimal digits `a` and `b` denote.
pub open spec fn hex_pair(a: u8, b: u8) -> Option<u8> {
    match (hex_value(a), hex_value(b)) {
        (Some(high), Some(low)) => Some((high * 16 + low) as u8),
        _ => None,
    }
}

/// An unquoted argument that has `acc` so far and goes on at `pos`: the argument,
/// and the position after it and the whitespace that ends it.
pub open spec fn unquoted(line: Seq<u8>, pos: int, acc: Seq<u8>) -> (Seq<u8>, int)
    decreases line.len() - pos,
{
    if pos < 0 || pos >= line.len() {
        (acc, pos)
    } else if is_space(line[pos]) {
        (acc, pos + 1)
    } else {
        unquoted(line, pos + 1, acc.push(line[pos]))
    }
}

/// A single-quoted argument that has `acc` so far and goes on at `pos`: the
/// argument and the position after its closing quote, or `None` where the quote is
/// not closed or something other than whitespace follows it.
pub open spec fn single_quoted(line: Seq<u8>, pos: int, acc: Seq<u8>) -> Option<(Seq<u8>, int)>
    decreases line.len() - pos,
{
    if pos < 0 || pos >= line.len() {
        None
    } else if line[pos] == SINGLE_QUOTE {
        if pos + 1 < line.len() && !is_space(line[pos + 1]) {
            None
        } else {
            Some((acc, pos + 1))
        }
    } else if line[pos] == BACKSLASH && pos + 1 < line.len() && line[pos + 1] == SINGLE_QUOTE {
        single_quoted(line, pos + 2, acc.push(SINGLE_QUOTE))
    } else {
        single_quoted(line, pos + 1, acc.push(line[pos]))
    }
}

/// A double-quoted argument that has `acc` so far and goes on at `pos`: the
/// argument and the position after its closing quote, or `None` where the quote is
/// not closed or something other than whitespace follows it.
pub open spec fn double_quoted(line: Seq<u8>, pos: int, acc: Seq<u8>) -> Option<(Seq<u8>, int)>
    decreases line.len() - pos,
{
    if pos < 0 || pos >= line.len() {
        None
    } else if line[pos] == DOUBLE_QUOTE {
        if pos + 1 < line.len() && !is_space(line[pos + 1]) {
            None
        } else {
            Some((acc, pos + 1))
        }
    } else if line[pos] == BACKSLASH && pos + 3 < line.len() && line[pos + 1] == 120 {
        match hex_pair(line[pos + 2], line[pos + 3]) {
            Some(byte) => double_quoted(line, pos + 4, acc.push(byte)),
            None => double_quoted(
                line,
                pos + 4,
                acc.push(120).push(line[pos + 2]).push(line[pos + 3]),
            ),
        }
    } else if line[pos] == BACKSLASH && pos + 1 < line.len() {
        double_quoted(line, pos + 2, acc.push(escaped(line[pos + 1])))
    } else {
        double_quoted(line, pos + 1, acc.push(line[pos]))
    }
}

/// `first` put before the arguments `rest`, where there are any.
pub open spec fn followed(first: Seq<u8>, rest: Option<Seq<Seq<u8>>>) -> Option<Seq<Seq<u8>>> {
    match rest {
        Some(arguments) => Some(seq![first] + arguments),
        None => None,
    }
}

/// The arguments of `line` from `pos` on, where `pos` stands between arguments.
pub open spec fn arguments_from(line: Seq<u8>, pos: int) -> Option<Seq<Seq<u8>>>
    decreases line.len() - pos,
{
    if pos < 0 || pos >= line.len() {
        Some(Seq::empty())
    } else if line[pos] == SINGLE_QUOTE {
        match single_quoted(line, pos + 1, Seq::empty()) {
            Some((argument, next)) => {
                proof {
                    lemma_single_quoted_advances(line, pos + 1, Seq::empty());
                }
                followed(argument, arguments_from(line, next))
            },
            None => None,
        }
    } else if line[pos] == DOUBLE_QUOTE {
        match double_quoted(line, pos + 1, Seq::empty()) {
            Some((argument, next)) => {
                proof {
                    lemma_double_quoted_advances(line, pos + 1, Seq::empty());
                }
                followed(argument, arguments_from(line, next))
            },
            None => None,
        }
    } else if is_space(line[pos]) {
        arguments_from(line, pos + 1)
    } else {
        let (argument, next) = unquoted(line, pos + 1, seq![line[pos]]);
        proof {
            lemma_unquoted_advances(line, pos + 1, seq![line[pos]]);
        }
        followed(argument, arguments_from(line, next))
    }
}

/// The arguments that `line` splits into, or `None` for an invalid line.
pub open spec fn split_line(line: Seq<u8>) -> Option<Seq<Seq<u8>>> {
    arguments_from(line, 0)
}

/// What each handle of a queue holds.
pub open spec fn texts(queue: Seq<Bytes>) -> Seq<Seq<u8>> {
    queue.map_values(|b: Bytes| contents(b))
}

/// An argument never ends before the position it goes on at.
pub proof fn lemma_unquoted_advances(line: Seq<u8>, pos: int, acc: Seq<u8>)
    requires
        0 <= pos <= line.len(),
    ensures
        pos <= unquoted(line, pos, acc).1 <= line.len(),
    decreases line.len() - pos,
{
    if pos < line.len() && !is_space(line[pos]) {
        lemma_unquoted_advances(line, pos + 1, acc.push(line[pos]));
    }
}

/// A single-quoted argument ends after the position it goes on at.
pub proof fn lemma_single_quoted_advances(line: Seq<u8>, pos: int, acc: Seq<u8>)
    requires
        0 <= pos <= line.len(),
    ensures
        match single_quoted(line, pos, acc) {
            Some((_, next)) => pos < next <= line.len(),
            None => true,
        },
    decreases line.len() - pos,
{
    if pos < line.len() && line[pos] != SINGLE_QUOTE {
        if line[pos] == BACKSLASH && pos + 1 < line.len() && line[pos + 1] == SINGLE_QUOTE {
            lemma_single_quoted_advances(line, pos + 2, acc.push(SINGLE_QUOTE));
        } else {
            lemma_single_quoted_advances(line, pos + 1, acc.push(line[pos]));
        }
    }
}

/// A double-quoted argument ends after the position it goes on at.
pub proof fn lemma_double_quoted_advances(line: Seq<u8>, pos: int, acc: Seq<u8>)
    requires
        0 <= pos <= line.len(),
    ensures
        match double_quoted(line, pos, acc) {
            Some((_, next)) => pos < next <= line.len(),
            None => true,
        },
    decreases line.len() - pos,
{
    if pos < line.len() && line[pos] != DOUBLE_QUOTE {
        if line[pos] == BACKSLASH && pos + 3 < line.len() && line[pos + 1] == 120 {
            match hex_pair(line[pos + 2], line[pos + 3]) {
                Some(byte) => lemma_double_quoted_advances(line, pos + 4, acc.push(byte)),
                None => lemma_double_quoted_advances(
                    line,
                    pos + 4,
                    acc.push(120).push(line[pos + 2]).push(line[pos + 3]),
                ),
            }
        } else if line[pos] == BACKSLASH && pos + 1 < line.len() {
            lemma_double_quoted_advances(line, pos + 2, acc.push(escaped(line[pos + 1])));
        } else {
            lemma_double_quoted_advances(line, pos + 1, acc.push(line[pos]));
        }
    }
}

/// Whether every byte of `s` is whitespace.
pub open spec fn all_space(s: Seq<u8>) -> bool {
    forall|i: int| 0 <= i < s.len() ==> is_space(#[trigger] s[i])
}

/// An unquoted argument goes on to the end of a line that has no whitespace from
/// `pos` on.
proof fn lemma_unquoted_whole(line: Seq<u8>, pos: int, acc: Seq<u8>)
    requires
        0 <= pos <= line.len(),
        forall|i: int| pos <= i < line.len() ==> !is_space(#[trigger] line[i]),
    ensures
        unquoted(line, pos, acc) == (acc + line.subrange(pos, line.len() as int), line.len() as int),
    decreases line.len() - pos,
{
    if pos < line.len() {
        lemma_unquoted_whole(line, pos + 1, acc.push(line[pos]));
        assert(acc.push(line[pos]) + line.subrange(pos + 1, line.len() as int) =~= acc
            + line.subrange(pos, line.len() as int));
    } else {
        assert(acc + line.subrange(pos, line.len() as int) =~= acc);
    }
}

/// Splitting leaves a clean argument as it is: a line without whitespace that
/// does not start with a quote is its own single argument.
pub proof fn lemma_clean_argument(argument: Seq<u8>)
    requires
        argument.len() > 0,
        forall|i: int| 0 <= i < argument.len() ==> !is_space(#[trigger] argument[i]),
        argument[0] != SINGLE_QUOTE,
        argument[0] != DOUBLE_QUOTE,
    ensures
        split_line(argument) == Some(seq![argument]),
{
    lemma_unquoted_whole(argument, 1, seq![argument[0]]);
    assert(seq![argument[0]] + argument.subrange(1, argument.len() as int) =~= argument);
    assert(seq![argument] + Seq::<Seq<u8>>::empty() =~= seq![argument]);
    assert(!is_space(argument[0]));
    assert(arguments_from(argument, argument.len() as int) == Some(Seq::<Seq<u8>>::empty()));
    assert(unquoted(argument, 1, seq![argument[0]]) == (argument, argument.len() as int));
}

/// Nothing but whitespace from `pos` on makes no arguments.
proof fn lemma_only_space(line: Seq<u8>, pos: int)
    requires
        0 <= pos,
        forall|i: int| pos <= i < line.len() ==> is_space(#[trigger] line[i]),
    ensures
        arguments_from(line, pos) == Some(Seq::<Seq<u8>>::empty()),
    decreases line.len() - pos,
{
    if pos < line.len() {
        assert(is_space(line[pos]));
        lemma_only_space(line, pos + 1);
    }
}

/// A single-quoted argument is not closed where no single quote follows.
proof fn lemma_single_unclosed(line: Seq<u8>, pos: int, acc: Seq<u8>)
    requires
        0 <= pos,
        forall|i: int| pos <= i < line.len() ==> #[trigger] line[i] != SINGLE_QUOTE,
    ensures
        single_quoted(line, pos, acc) is None,
    decreases line.len() - pos,
{
    if pos < line.len() {
        assert(line[pos] != SINGLE_QUOTE);
        if pos + 1 < line.len() {
            assert(line[pos + 1] != SINGLE_QUOTE);
        }
        lemma_single_unclosed(line, pos + 1, acc.push(line[pos]));
    }
}

/// A double-quoted argument is not closed where no double quote follows.
proof fn lemma_double_unclosed(line: Seq<u8>, pos: int, acc: Seq<u8>)
    requires
        0 <= pos,
        forall|i: int| pos <= i < line.len() ==> #[trigger] line[i] != DOUBLE_QUOTE,
    ensures
        double_quoted(line, pos, acc) is None,
    decreases line.len() - pos,
{
    if pos < line.len() {
        assert(line[pos] != DOUBLE_QUOTE);
        if line[pos] == BACKSLASH && pos + 3 < line.len() && line[pos + 1] == 120 {
            match hex_pair(line[pos + 2], line[pos + 3]) {
                Some(byte) => lemma_double_unclosed(line, pos + 4, acc.push(byte)),
                None => lemma_double_unclosed(
                    line,
                    pos + 4,
                    acc.push(120).push(line[pos + 2]).push(line[pos + 3]),
                ),
            }
        } else if line[pos] == BACKSLASH && pos + 1 < line.len() {
            lemma_double_unclosed(line, pos + 2, acc.push(escaped(line[pos + 1])));
        } else {
            lemma_double_unclosed(line, pos + 1, acc.push(line[pos]));
        }
    }
}

/// A single-quoted argument that is closed in a line with whitespace behind it
/// is the same in the line alone.
proof fn lemma_single_padded(line: Seq<u8>, after: Seq<u8>, pos: int, acc: Seq<u8>)
    requires
        0 <= pos <= line.len(),
        all_space(after),
    ensures
        single_quoted(line + after, pos, acc) is Some ==> single_quoted(line, pos, acc)
            == single_quoted(line + after, pos, acc),
    decreases line.len() - pos,
{
    let padded = line + after;
    assert forall|i: int| line.len() <= i < padded.len() implies #[trigger] padded[i]
        != SINGLE_QUOTE by {
        assert(is_space(after[i - line.len()]));
    }
    if pos == line.len() {
        lemma_single_unclosed(padded, pos, acc);
    } else {
        assert(padded[pos] == line[pos]);
        if pos + 1 < line.len() {
            assert(padded[pos + 1] == line[pos + 1]);
        } else if pos + 1 < padded.len() {
            assert(is_space(after[0]));
            assert(padded[pos + 1] == after[0]);
        }
        if line[pos] == SINGLE_QUOTE {
        } else if line[pos] == BACKSLASH && pos + 1 < padded.len() && padded[pos + 1]
            == SINGLE_QUOTE {
            lemma_single_padded(line, after, pos + 2, acc.push(SINGLE_QUOTE));
        } else {
            lemma_single_padded(line, after, pos + 1, acc.push(line[pos]));
        }
    }
}

/// A double-quoted argument that is closed in a line with whitespace behind it
/// is the same in the line alone.
proof fn lemma_double_padded(line: Seq<u8>, after: Seq<u8>, pos: int, acc: Seq<u8>)
    requires
        0 <= pos <= line.len(),
        all_space(after),
    ensures
        double_quoted(line + after, pos, acc) is Some ==> double_quoted(line, pos, acc)
            == double_quoted(line + after, pos, acc),
    decreases line.len() - pos,
{
    let padded = line + after;
    assert forall|i: int| line.len() <= i < padded.len() implies #[trigger] padded[i]
        != DOUBLE_QUOTE by {
        assert(is_space(after[i - line.len()]));
    }
    if pos == line.len() {
        lemma_double_unclosed(padded, pos, acc);
    } else {
        assert(padded[pos] == line[pos]);
        if pos + 1 < line.len() {
            assert(padded[pos + 1] == line[pos + 1]);
        } else if pos + 1 < padded.len() {
            assert(is_space(after[0]));
            assert(padded[pos + 1] == after[0]);
        }
        if pos + 2 < line.len() {
            assert(padded[pos + 2] == line[pos + 2]);
        }
        if pos + 3 < line.len() {
            assert(padded[pos + 3] == line[pos + 3]);
        }
        if line[pos] == DOUBLE_QUOTE {
        } else if line[pos] == BACKSLASH && pos + 3 < padded.len() && padded[pos + 1] == 120 {
            let next = match hex_pair(padded[pos + 2], padded[pos + 3]) {
                Some(byte) => acc.push(byte),
                None => acc.push(120).push(padded[pos + 2]).push(padded[pos + 3]),
            };
            if pos + 3 < line.len() {
                lemma_double_padded(line, after, pos + 4, next);
            } else {
                lemma_double_unclosed(padded, pos + 4, next);
            }
        } else if line[pos] == BACKSLASH && pos + 1 < padded.len() {
            if pos + 1 < line.len() {
                lemma_double_padded(line, after, pos + 2, acc.push(escaped(padded[pos + 1])));
            } else {
                lemma_double_unclosed(padded, pos + 2, acc.push(escaped(padded[pos + 1])));
            }
        } else {
            lemma_double_padded(line, after, pos + 1, acc.push(line[pos]));
        }
    }
}

/// An unquoted argument is the same in a line with whitespace behind it and in
/// the line alone, and ends at the same place or at the end of the line.
proof fn lemma_unquoted_padded(line: Seq<u8>, after: Seq<u8>, pos: int, acc: Seq<u8>)
    requires
        0 <= pos <= line.len(),
        all_space(after),
    ensures
        unquoted(line + after, pos, acc).0 == unquoted(line, pos, acc).0,
        unquoted(line + after, pos, acc).1 == unquoted(line, pos, acc).1 || (unquoted(
            line,
            pos,
            acc,
        ).1 == line.len() && unquoted(line + after, pos, acc).1 == line.len() + 1),
    decreases line.len() - pos,
{
    let padded = line + after;
    if pos < line.len() {
        assert(padded[pos] == line[pos]);
        if !is_space(line[pos]) {
            lemma_unquoted_padded(line, after, pos + 1, acc.push(line[pos]));
        }
    } else if pos < padded.len() {
        assert(is_space(after[0]));
        assert(padded[pos] == after[0]);
    }
}

/// The arguments of a line with whitespace behind it, where it has any, are
/// those of the line alone.
proof fn lemma_arguments_padded(line: Seq<u8>, after: Seq<u8>, pos: int)
    requires
        0 <= pos <= line.len(),
        all_space(after),
    ensures
        arguments_from(line + after, pos) is Some ==> arguments_from(line, pos) == arguments_from(
            line + after,
            pos,
        ),
    decreases line.len() - pos,
{
    let padded = line + after;
    assert forall|i: int| line.len() <= i < padded.len() implies is_space(#[trigger] padded[i]) by {
        assert(is_space(after[i - line.len()]));
    }
    if pos == line.len() {
        lemma_only_space(padded, pos);
    } else {
        assert(padded[pos] == line[pos]);
        if line[pos] == SINGLE_QUOTE {
            lemma_single_padded(line, after, pos + 1, Seq::empty());
            lemma_single_quoted_advances(line, pos + 1, Seq::empty());
            match single_quoted(padded, pos + 1, Seq::empty()) {
                Some((_, next)) => lemma_arguments_padded(line, after, next),
                None => {},
            }
        } else if line[pos] == DOUBLE_QUOTE {
            lemma_double_padded(line, after, pos + 1, Seq::empty());
            lemma_double_quoted_advances(line, pos + 1, Seq::empty());
            match double_quoted(padded, pos + 1, Seq::empty()) {
                Some((_, next)) => lemma_arguments_padded(line, after, next),
                None => {},
            }
        } else if is_space(line[pos]) {
            lemma_arguments_padded(line, after, pos + 1);
        } else {
            lemma_unquoted_padded(line, after, pos + 1, seq![line[pos]]);
            lemma_unquoted_advances(line, pos + 1, seq![line[pos]]);
            let next = unquoted(line, pos + 1, seq![line[pos]]).1;
            let padded_next = unquoted(padded, pos + 1, seq![line[pos]]).1;
            if padded_next == next {
                lemma_arguments_padded(line, after, next);
            } else {
                lemma_only_space(padded, padded_next);
                lemma_only_space(line, next);
            }
        }
    }
}

/// An unquoted argument behind other bytes is the same as without them, and ends
/// as much later as there are such bytes.
proof fn lemma_unquoted_shifted(before: Seq<u8>, line: Seq<u8>, pos: int, acc: Seq<u8>)
    requires
        0 <= pos <= line.len(),
    ensures
        unquoted(before + line, before.len() + pos, acc) == (
            unquoted(line, pos, acc).0,
            before.len() + unquoted(line, pos, acc).1,
        ),
    decreases line.len() - pos,
{
    if pos < line.len() {
        assert((before + line)[before.len() + pos] == line[pos]);
        if !is_space(line[pos]) {
            lemma_unquoted_shifted(before, line, pos + 1, acc.push(line[pos]));
        }
    }
}

/// A single-quoted argument behind other bytes is the same as without them, and
/// ends as much later as there are such bytes.
proof fn lemma_single_shifted(before: Seq<u8>, line: Seq<u8>, pos: int, acc: Seq<u8>)
    requires
        0 <= pos <= line.len(),
    ensures
        single_quoted(before + line, before.len() + pos, acc) == match single_quoted(
            line,
            pos,
            acc,
        ) {
            Some((argument, next)) => Some((argument, before.len() + next)),
            None => None,
        },
    decreases line.len() - pos,
{
    let whole = before + line;
    let shift = before.len() as int;
    if pos < line.len() {
        assert(whole[shift + pos] == line[pos]);
        if pos + 1 < line.len() {
            assert(whole[shift + pos + 1] == line[pos + 1]);
        }
        if line[pos] == SINGLE_QUOTE {
        } else if line[pos] == BACKSLASH && pos + 1 < line.len() && line[pos + 1] == SINGLE_QUOTE {
            lemma_single_shifted(before, line, pos + 2, acc.push(SINGLE_QUOTE));
        } else {
            lemma_single_shifted(before, line, pos + 1, acc.push(line[pos]));
        }
    }
}

/// A double-quoted argument behind other bytes is the same as without them, and
/// ends as much later as there are such bytes.
proof fn lemma_double_shifted(before: Seq<u8>, line: Seq<u8>, pos: int, acc: Seq<u8>)
    requires
        0 <= pos <= line.len(),
    ensures
        double_quoted(before + line, before.len() + pos, acc) == match double_quoted(
            line,
            pos,
            acc,
        ) {
            Some((argument, next)) => Some((argument, before.len() + next)),
            None => None,
        },
    decreases line.len() - pos,
{
    let whole = before + line;
    let shift = before.len() as int;
    if pos < line.len() {
        assert(whole[shift + pos] == line[pos]);
        if pos + 1 < line.len() {
            assert(whole[shift + pos + 1] == line[pos + 1]);
        }
        if pos + 2 < line.len() {
            assert(whole[shift + pos + 2] == line[pos + 2]);
        }
        if pos + 3 < line.len() {
            assert(whole[shift + pos + 3] == line[pos + 3]);
        }
        if line[pos] == DOUBLE_QUOTE {
        } else if line[pos] == BACKSLASH && pos + 3 < line.len() && line[pos + 1] == 120 {
            match hex_pair(line[pos + 2], line[pos + 3]) {
                Some(byte) => lemma_double_shifted(before, line, pos + 4, acc.push(byte)),
                None => lemma_double_shifted(
                    before,
                    line,
                    pos + 4,
                    acc.push(120).push(line[pos + 2]).push(line[pos + 3]),
                ),
            }
        } else if line[pos] == BACKSLASH && pos + 1 < line.len() {
            lemma_double_shifted(before, line, pos + 2, acc.push(escaped(line[pos + 1])));
        } else {
            lemma_double_shifted(before, line, pos + 1, acc.push(line[pos]));
        }
    }
}

/// The arguments of a line behind other bytes are those of the line.
proof fn lemma_arguments_shifted(before: Seq<u8>, line: Seq<u8>, pos: int)
    requires
        0 <= pos <= line.len(),
    ensures
        arguments_from(before + line, before.len() + pos) == arguments_from(line, pos),
    decreases line.len() - pos,
{
    let whole = before + line;
    let shift = before.len() as int;
    if pos < line.len() {
        assert(whole[shift + pos] == line[pos]);
        if line[pos] == SINGLE_QUOTE {
            lemma_single_shifted(before, line, pos + 1, Seq::empty());
            lemma_single_quoted_advances(line, pos + 1, Seq::empty());
            match single_quoted(line, pos + 1, Seq::empty()) {
                Some((_, next)) => lemma_arguments_shifted(before, line, next),
                None => {},
            }
        } else if line[pos] == DOUBLE_QUOTE {
            lemma_double_shifted(before, line, pos + 1, Seq::empty());
            lemma_double_quoted_advances(line, pos + 1, Seq::empty());
            match double_quoted(line, pos + 1, Seq::empty()) {
                Some((_, next)) => lemma_arguments_shifted(before, line, next),
                None => {},
            }
        } else if is_space(line[pos]) {
            lemma_arguments_shifted(before, line, pos + 1);
        } else {
            lemma_unquoted_shifted(before, line, pos + 1, seq![line[pos]]);
            lemma_unquoted_advances(line, pos + 1, seq![line[pos]]);
            lemma_arguments_shifted(before, line, unquoted(line, pos + 1, seq![line[pos]]).1);
        }
    }
}

/// Whitespace at the start of a line is passed over.
proof fn lemma_leading_space(before: Seq<u8>, line: Seq<u8>, pos: int)
    requires
        0 <= pos <= before.len(),
        all_space(before),
    ensures
        arguments_from(before + line, pos) == arguments_from(before + line, before.len() as int),
    decreases before.len() - pos,
{
    if pos < before.len() {
        assert(is_space(before[pos]));
        assert((before + line)[pos] == before[pos]);
        lemma_leading_space(before, line, pos + 1);
    }
}

/// Splitting does not see whitespace at the ends of a line: a line with
/// whitespace before and behind it has the arguments of the line alone.
///
/// Left out are the lines that are valid alone and invalid with the whitespace
/// behind them. Those end in `\x` and a closing double quote: alone, the two
/// bytes stand for `x`, and with a byte behind the quote they start an escape of
/// `x` and two bytes that swallows the quote.
pub proof fn lemma_outer_whitespace(before: Seq<u8>, line: Seq<u8>, after: Seq<u8>)
    requires
        all_space(before),
        all_space(after),
        split_line(line + after) is Some || split_line(line) is None,
    ensures
        split_line(before + line + after) == split_line(line),
{
    let padded = line + after;
    assert(before + line + after =~= before + padded);
    lemma_leading_space(before, padded, 0);
    lemma_arguments_shifted(before, padded, 0);
    lemma_arguments_padded(line, after, 0);
}

/// Where the splitter stands in a line.
#[derive(Clone, Copy, Debug, PartialEq, Eq, Structural)]
pub enum State {
    /// Between arguments, skipping whitespace.
    Trim,
    /// In an unquoted argument.
    NoQuotes,
    /// In a single-quoted argument.
    SingleQuotes,
    /// In a double-quoted argument.
    DoubleQuotes,
}

/// The arguments that remain to be read by a splitter in `state` at `pos`, whose
/// current argument has `acc` so far.
pub open spec fn remaining(line: Seq<u8>, pos: int, state: State, acc: Seq<u8>) -> Option<
    Seq<Seq<u8>>,
> {
    match state {
        State::Trim => arguments_from(line, pos),
        State::NoQuotes => {
            let (argument, next) = unquoted(line, pos, acc);
            followed(argument, arguments_from(line, next))
        },
        State::SingleQuotes => match single_quoted(line, pos, acc) {
            Some((argument, next)) => followed(argument, arguments_from(line, next)),
            None => None,
        },
        State::DoubleQuotes => match double_quoted(line, pos, acc) {
            Some((argument, next)) => followed(argument, arguments_from(line, next)),
            None => None,
        },
    }
}

/// `done` put before the arguments `rest`, where there are any.
pub open spec fn after(done: Seq<Seq<u8>>, rest: Option<Seq<Seq<u8>>>) -> Option<Seq<Seq<u8>>> {
    match rest {
        Some(arguments) => Some(done + arguments),
        None => None,
    }
}

/// Moves the argument in `buffer` to the back of `arguments`.
fn emit(buffer: &mut BytesMut, arguments: &mut VecDeque<Bytes>)
    ensures
        pending(*final(buffer)).len() == 0,
        texts(final(arguments)@) == texts(old(arguments)@).push(pending(*old(buffer))),
{
    let argument = buffer_freeze(buffer_split(buffer));
    arguments.push_back(argument);
    assert(texts(arguments@) =~= texts(old(arguments)@).push(pending(*old(buffer))));
}

/// Drops what was split off an invalid line.
fn reject(buffer: &mut BytesMut, arguments: &mut VecDeque<Bytes>)
    ensures
        pending(*final(buffer)).len() == 0,
        final(arguments)@.len() == 0,
{
    arguments.clear();
    buffer_clear(buffer);
}

/// Splits `input` into arguments and puts them at the back of `arguments`, with
/// `buffer` as the place where each argument is put together: what it holds is
/// dropped, and it is empty in the end. An invalid line empties `arguments`
/// instead.
pub fn split_into(input: &[u8], buffer: &mut BytesMut, arguments: &mut VecDeque<Bytes>) -> (ok:
    bool)
    ensures
        pending(*final(buffer)).len() == 0,
        ok == split_line(input@).is_some(),
        ok ==> texts(final(arguments)@) == texts(old(arguments)@) + split_line(input@).unwrap(),
        !ok ==> final(arguments)@.len() == 0,
{
    buffer_clear(buffer);
    let n = input.len();
    let mut state = State::Trim;
    let mut pos: usize = 0;
    let ghost line = input@;
    let ghost before = texts(arguments@);
    let ghost mut done: Seq<Seq<u8>> = Seq::empty();
    assert(pending(*buffer) =~= Seq::<u8>::empty());
    assert(before + done =~= before);
    loop
        invariant
            n == input.len(),
            line == input@,
            pos <= n,
            before == texts(old(arguments)@),
            texts(arguments@) == before + done,
            state == State::Trim ==> pending(*buffer).len() == 0,
            split_line(line) == after(done, remaining(line, pos as int, state, pending(*buffer))),
        decreases n - pos,
    {
        let ghost acc = pending(*buffer);
        match state {
            State::Trim => {
                if pos >= n {
                    proof {
                        assert(done + Seq::<Seq<u8>>::empty() =~= done);
                    }
                    return true;
                }
                let c = input[pos];
                proof {
                    lemma_single_quoted_advances(line, pos + 1, Seq::empty());
                    lemma_double_quoted_advances(line, pos + 1, Seq::empty());
                    lemma_unquoted_advances(line, pos + 1, seq![c]);
                    assert(acc =~= Seq::<u8>::empty());
                }
                if c == SINGLE_QUOTE {
                    state = State::SingleQuotes;
                } else if c == DOUBLE_QUOTE {
                    state = State::DoubleQuotes;
                } else if space(c) {
                } else {
                    buffer_put(buffer, c);
                    assert(pending(*buffer) =~= seq![c]);
                    state = State::NoQuotes;
                }
                pos += 1;
            },
            State::NoQuotes => {
                if pos >= n {
                    emit(buffer, arguments);
                    proof {
                        assert(done + (seq![acc] + Seq::<Seq<u8>>::empty()) =~= done.push(acc));
                        assert(before + done.push(acc) =~= (before + done).push(acc));
                    }
                    return true;
                }
                let c = input[pos];
                if space(c) {
                    emit(buffer, arguments);
                    proof {
                        match arguments_from(line, pos + 1) {
                            Some(rest) => {
                                assert(done + (seq![acc] + rest) =~= done.push(acc) + rest);
                            },
                            None => {},
                        }
                        assert(before + done.push(acc) =~= (before + done).push(acc));
                        done = done.push(acc);
                    }
                    state = State::Trim;
                } else {
                    buffer_put(buffer, c);
                }
                pos += 1;
            },
            State::SingleQuotes => {
                if pos >= n {
                    reject(buffer, arguments);
                    return false;
                }
                let c = input[pos];
                if c == SINGLE_QUOTE {
                    if pos + 1 < n && !space(input[pos + 1]) {
                        reject(buffer, arguments);
                        return false;
                    }
                    emit(buffer, arguments);
                    proof {
                        match arguments_from(line, pos + 1) {
                            Some(rest) => {
                                assert(done + (seq![acc] + rest) =~= done.push(acc) + rest);
                            },
                            None => {},
                        }
                        assert(before + done.push(acc) =~= (before + done).push(acc));
                        done = done.push(acc);
                    }
                    state = State::Trim;
                    pos += 1;
                } else if c == BACKSLASH && pos + 1 < n && input[pos + 1] == SINGLE_QUOTE {
                    buffer_put(buffer, SINGLE_QUOTE);
                    pos += 2;
                } else {
                    buffer_put(buffer, c);
                    pos += 1;
                }
            },
            State::DoubleQuotes => {
                if pos >= n {
                    reject(buffer, arguments);
                    return false;
                }
                let c = input[pos];
                if c == DOUBLE_QUOTE {
                    if pos + 1 < n && !space(input[pos + 1]) {
                        reject(buffer, arguments);
                        return false;
                    }
                    emit(buffer, arguments);
                    proof {
                        match arguments_from(line, pos + 1) {
                            Some(rest) => {
                                assert(done + (seq![acc] + rest) =~= done.push(acc) + rest);
                            },
                            None => {},
                        }
                        assert(before + done.push(acc) =~= (before + done).push(acc));
                        done = done.push(acc);
                    }
                    state = State::Trim;
                    pos += 1;
                } else if c == BACKSLASH && n - pos > 3 && input[pos + 1] == 120 {
                    let a = input[pos + 2];
                    let b = input[pos + 3];
                    match (hex_digit(a), hex_digit(b)) {
                        (Some(high), Some(low)) => {
                            buffer_put(buffer, high * 16 + low);
                        },
                        _ => {
                            buffer_put(buffer, 120);
                            buffer_put(buffer, a);
                            buffer_put(buffer, b);
                        },
                    }
                    pos += 4;
                } else if c == BACKSLASH && pos + 1 < n {
                    let b = input[pos + 1];
                    let byte: u8 = if b == 97 {
                        7
                    } else if b == 98 {
                        8
                    } else if b == 110 {
                        10
                    } else if b == 114 {
                        13
                    } else if b == 116 {
                        9
                    } else {
                        b
                    };
                    buffer_put(buffer, byte);
                    pos += 2;
                } else {
                    buffer_put(buffer, c);
                    pos += 1;
                }
            },
        }
    }
}

/// Splits an inline request into arguments, which it puts at the back of
/// `arguments`. An invalid line empties `arguments` instead.
pub fn split(line: BytesMut, arguments: &mut VecDeque<Bytes>) -> (ok: bool)
    ensures
        ok == split_line(pending(line)).is_some(),
        ok ==> texts(final(arguments)@) == texts(old(arguments)@) + split_line(
            pending(line),
        ).unwrap(),
        !ok ==> final(arguments)@.len() == 0,
{
    let mut buffer = buffer_new();
    split_into(buffer_as_slice(&line), &mut buffer, arguments)
}

} // verus!
