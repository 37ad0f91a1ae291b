//! Numbers and character classes of the wire format, as bytes.

use vstd::prelude::*;

verus! {

/// Carriage return, the first byte of a line ending.
pub const CR: u8 = 13;

/// Line feed, the second byte of a line ending.
pub const LF: u8 = 10;

/// The two bytes that end every line.
pub open spec fn crlf() -> Seq<u8> {
    seq![CR, LF]
}

/// Whether `c` is ASCII whitespace: space, tab, line feed, form feed or carriage return.
pub open spec fn is_space(c: u8) -> bool {
    c == 32 || c == 9 || c == 10 || c == 12 || c == 13
}

/// Whether `c` is one of the digits `0` to `9`.
pub open spec fn is_digit(c: u8) -> bool {
    48 <= c <= 57
}

/// The value of a hexadecimal digit, in either case.
pub open spec fn hex_value(c: u8) -> Option<u8> {
    if 48 <= c <= 57 {
        Some((c - 48) as u8)
    } else if 97 <= c <= 102 {
        Some((c - 87) as u8)
    } else if 65 <= c <= 70 {
        Some((c - 55) as u8)
    } else {
        None
    }
}

/// Whether every byte of `s` is a digit.
pub open spec fn all_digits(s: Seq<u8>) -> bool {
    forall|i: int| 0 <= i < s.len() ==> is_digit(#[trigger] s[i])
}

/// The number that the digits `s` denote, most significant first; 0 for no digits.
pub open spec fn decimal_value(s: Seq<u8>) -> nat
    decreases s.len(),
{
    if s.len() == 0 {
        0
    } else {
        decimal_value(s.drop_last()) * 10 + (s.last() - 48) as nat
    }
}

/// The digits of `n` without leading zeros; `"0"` for zero.
pub open spec fn decimal_digits(n: nat) -> Seq<u8>
    decreases n,
{
    if n < 10 {
        seq![(48 + n) as u8]
    } else {
        decimal_digits(n / 10).push((48 + n % 10) as u8)
    }
}

/// The text of a signed integer: a minus sign where it is negative, then its digits.
pub open spec fn integer_text(v: int) -> Seq<u8> {
    if v < 0 {
        seq![45u8] + decimal_digits((-v) as nat)
    } else {
        decimal_digits(v as nat)
    }
}

/// The 64-bit signed integer that `text` denotes: an optional sign, then at least
/// one digit and nothing else. `None` where the text has another form or the
/// number does not fit.
pub open spec fn integer_value(text: Seq<u8>) -> Option<int> {
    let signed = text.len() > 0 && (text[0] == 45 || text[0] == 43);
    let digits = if signed {
        text.skip(1)
    } else {
        text
    };
    let magnitude = decimal_value(digits) as int;
    let value = if text.len() > 0 && text[0] == 45 {
        -magnitude
    } else {
        magnitude
    };
    if digits.len() > 0 && all_digits(digits) && i64::MIN <= value <= i64::MAX {
        Some(value)
    } else {
        None
    }
}

/// The first position at or after `from` that holds no digit.
pub open spec fn digits_end(s: Seq<u8>, from: int) -> int
    decreases s.len() - from,
{
    if 0 <= from < s.len() && is_digit(s[from]) {
        digits_end(s, from + 1)
    } else {
        from
    }
}

/// `c` with an upper-case letter turned into lower case.
pub open spec fn lower(c: u8) -> u8 {
    if 65 <= c <= 90 {
        (c + 32) as u8
    } else {
        c
    }
}

/// Whether `s` is `word`, letter case aside. `word` is in lower case.
pub open spec fn is_word(s: Seq<u8>, word: Seq<u8>) -> bool {
    s.len() == word.len() && forall|i: int| 0 <= i < s.len() ==> lower(#[trigger] s[i]) == word[i]
}

/// `inf`
pub open spec fn word_inf() -> Seq<u8> {
    seq![105u8, 110, 102]
}

/// `infinity`
pub open spec fn word_infinity() -> Seq<u8> {
    seq![105u8, 110, 102, 105, 110, 105, 116, 121]
}

/// `nan`
pub open spec fn word_nan() -> Seq<u8> {
    seq![110u8, 97, 110]
}

/// Whether `s` is an unsigned decimal number: digits with at most one point among
/// them and at least one digit, then optionally `e` or `E`, an optional sign and
/// at least one digit.
pub open spec fn is_number(s: Seq<u8>) -> bool {
    let whole = digits_end(s, 0);
    let point = whole < s.len() && s[whole] == 46;
    let mantissa = if point {
        digits_end(s, whole + 1)
    } else {
        whole
    };
    let digits = if point {
        mantissa - 1
    } else {
        mantissa
    };
    let exponent = if mantissa + 1 < s.len() && (s[mantissa + 1] == 43 || s[mantissa + 1] == 45) {
        mantissa + 2
    } else {
        mantissa + 1
    };
    &&& digits >= 1
    &&& mantissa == s.len() || {
        &&& s[mantissa] == 101 || s[mantissa] == 69
        &&& exponent < s.len()
        &&& digits_end(s, exponent) == s.len()
    }
}

/// Whether `text` is the text of a double: an optional sign, then `inf`,
/// `infinity` or `nan` in any letter case, or a decimal number.
pub open spec fn is_double(text: Seq<u8>) -> bool {
    let body = if text.len() > 0 && (text[0] == 43 || text[0] == 45) {
        text.skip(1)
    } else {
        text
    };
    is_word(body, word_inf()) || is_word(body, word_infinity()) || is_word(body, word_nan())
        || is_number(body)
}

/// Appending a digit multiplies the value by ten and adds the digit.
pub(crate) proof fn lemma_decimal_value_push(s: Seq<u8>, c: u8)
    ensures
        decimal_value(s.push(c)) == decimal_value(s) * 10 + (c - 48) as nat,
{
    assert(s.push(c).drop_last() =~= s);
}

/// The digits of a number are digits, at least one, and denote that number.
pub proof fn lemma_decimal_digits(n: nat)
    ensures
        decimal_digits(n).len() >= 1,
        all_digits(decimal_digits(n)),
        decimal_value(decimal_digits(n)) == n,
    decreases n,
{
    if n < 10 {
        let s = seq![(48 + n) as u8];
        assert(s.drop_last() =~= Seq::<u8>::empty());
        assert(decimal_value(s.drop_last()) == 0);
    } else {
        lemma_decimal_digits(n / 10);
        lemma_decimal_value_push(decimal_digits(n / 10), (48 + n % 10) as u8);
    }
}

/// The text of an integer has no line ending in it and denotes that integer.
pub proof fn lemma_integer_text(v: i64)
    ensures
        integer_value(integer_text(v as int)) == Some(v as int),
        !integer_text(v as int).contains(CR),
        !integer_text(v as int).contains(LF),
{
    let text = integer_text(v as int);
    if v < 0 {
        let digits = decimal_digits((-v) as nat);
        lemma_decimal_digits((-v) as nat);
        assert(text.skip(1) =~= digits);
        assert(text[0] == 45);
        assert forall|i: int| 0 <= i < text.len() implies text[i] != CR && text[i] != LF by {
            if i > 0 {
                assert(is_digit(digits[i - 1]));
            }
        }
    } else {
        lemma_decimal_digits(v as nat);
        assert(is_digit(text[0]));
        assert forall|i: int| 0 <= i < text.len() implies text[i] != CR && text[i] != LF by {
            assert(is_digit(text[i]));
        }
    }
}

/// Between a position and the first place behind it that holds no digit, there
/// are digits only.
pub(crate) proof fn lemma_digits_end(s: Seq<u8>, from: int)
    requires
        0 <= from <= s.len(),
    ensures
        from <= digits_end(s, from) <= s.len(),
        forall|i: int| from <= i < digits_end(s, from) ==> is_digit(#[trigger] s[i]),
        digits_end(s, from) < s.len() ==> !is_digit(s[digits_end(s, from)]),
    decreases s.len() - from,
{
    if from < s.len() && is_digit(s[from]) {
        lemma_digits_end(s, from + 1);
    }
}

/// The text of a double has no line ending in it.
pub proof fn lemma_double_text(text: Seq<u8>)
    requires
        is_double(text),
    ensures
        !text.contains(CR),
        !text.contains(LF),
{
    let signed = text.len() > 0 && (text[0] == 43 || text[0] == 45);
    let body = if signed {
        text.skip(1)
    } else {
        text
    };
    assert forall|i: int| 0 <= i < body.len() implies body[i] != CR && body[i] != LF by {
        if is_word(body, word_inf()) {
            assert(lower(body[i]) == word_inf()[i]);
        } else if is_word(body, word_infinity()) {
            assert(lower(body[i]) == word_infinity()[i]);
        } else if is_word(body, word_nan()) {
            assert(lower(body[i]) == word_nan()[i]);
        } else {
            let whole = digits_end(body, 0);
            lemma_digits_end(body, 0);
            let point = whole < body.len() && body[whole] == 46;
            let mantissa = if point {
                digits_end(body, whole + 1)
            } else {
                whole
            };
            if point {
                lemma_digits_end(body, whole + 1);
            }
            if mantissa < body.len() {
                let exponent = if mantissa + 1 < body.len() && (body[mantissa + 1] == 43
                    || body[mantissa + 1] == 45) {
                    mantissa + 2
                } else {
                    mantissa + 1
                };
                lemma_digits_end(body, exponent);
                if i < whole {
                    assert(is_digit(body[i]));
                } else if i < mantissa {
                    if i > whole {
                        assert(is_digit(body[i]));
                    }
                } else if i >= exponent {
                    assert(is_digit(body[i]));
                }
            } else {
                if i < whole {
                    assert(is_digit(body[i]));
                } else if i > whole {
                    assert(is_digit(body[i]));
                }
            }
        }
    }
    assert forall|i: int| 0 <= i < text.len() implies text[i] != CR && text[i] != LF by {
        if signed {
            if i > 0 {
                assert(body[i - 1] == text[i]);
            }
        }
    }
}

/// Whether `c` is ASCII whitespace.
pub fn space(c: u8) -> (yes: bool)
    ensures
        yes == is_space(c),
{
    c == 32 || c == 9 || c == 10 || c == 12 || c == 13
}

/// The value of the hexadecimal digit `c`, if it is one.
pub fn hex_digit(c: u8) -> (value: Option<u8>)
    ensures
        value == hex_value(c),
{
    if 48 <= c && c <= 57 {
        Some(c - 48)
    } else if 97 <= c && c <= 102 {
        Some(c - 87)
    } else if 65 <= c && c <= 70 {
        Some(c - 55)
    } else {
        None
    }
}

/// Appends the decimal digits of `n` to `out`.
pub fn push_decimal(out: &mut Vec<u8>, n: u128)
    ensures
        final(out)@ == old(out)@ + decimal_digits(n as nat),
    decreases n,
{
    if n < 10 {
        out.push(48 + n as u8);
        assert(out@ =~= old(out)@ + decimal_digits(n as nat));
    } else {
        push_decimal(out, n / 10);
        out.push(48 + (n % 10) as u8);
        assert(out@ =~= old(out)@ + decimal_digits(n as nat));
    }
}

/// Appends the text of the signed integer `v` to `out`.
pub fn push_integer(out: &mut Vec<u8>, v: i64)
    ensures
        final(out)@ == old(out)@ + integer_text(v as int),
{
    if v < 0 {
        out.push(45);
        let magnitude: u128 = if v == i64::MIN {
            9223372036854775808
        } else {
            (-v) as u128
        };
        push_decimal(out, magnitude);
        assert(out@ =~= old(out)@ + integer_text(v as int));
    } else {
        push_decimal(out, v as u128);
    }
}

/// Reads `text` as a signed 64-bit integer.
pub fn parse_integer(text: &[u8]) -> (value: Option<i64>)
    ensures
        match value {
            Some(v) => integer_value(text@) == Some(v as int),
            None => integer_value(text@).is_none(),
        },
{
    let n = text.len();
    if n == 0 {
        return None;
    }
    let negative = text[0] == 45;
    let start: usize = if text[0] == 45 || text[0] == 43 {
        1
    } else {
        0
    };
    if start == n {
        return None;
    }
    let limit: u64 = if negative {
        9223372036854775808
    } else {
        9223372036854775807
    };
    let ghost digits = text@.subrange(start as int, n as int);
    assert(digits =~= if start == 1 {
        text@.skip(1)
    } else {
        text@
    });
    let mut acc: u64 = 0;
    let mut overflow = false;
    let mut i: usize = start;
    assert(text@.subrange(start as int, i as int) =~= Seq::<u8>::empty());
    while i < n
        invariant
            start <= i <= n,
            n == text.len(),
            9223372036854775807 <= limit <= 9223372036854775808,
            digits == (if start == 1 {
                text@.skip(1)
            } else {
                text@
            }),
            start == (if text@[0] == 45 || text@[0] == 43 {
                1int
            } else {
                0int
            }),
            all_digits(text@.subrange(start as int, i as int)),
            !overflow ==> acc == decimal_value(text@.subrange(start as int, i as int)) && acc
                <= limit,
            overflow ==> decimal_value(text@.subrange(start as int, i as int)) > limit,
            digits == text@.subrange(start as int, n as int),
        decreases n - i,
    {
        let c = text[i];
        if !(48 <= c && c <= 57) {
            assert(!is_digit(digits[i - start]));
            return None;
        }
        let d = (c - 48) as u64;
        proof {
            let before = text@.subrange(start as int, i as int);
            let after = text@.subrange(start as int, i + 1);
            assert(after =~= before.push(c));
            lemma_decimal_value_push(before, c);
        }
        if !overflow {
            if acc > (limit - d) / 10 {
                overflow = true;
            } else {
                acc = acc * 10 + d;
            }
        }
        i += 1;
    }
    assert(text@.subrange(start as int, i as int) == digits);
    if overflow {
        None
    } else if negative {
        if acc == 9223372036854775808 {
            Some(i64::MIN)
        } else {
            Some(-(acc as i64))
        }
    } else {
        Some(acc as i64)
    }
}

/// The first position at or after `from` that holds no digit.
fn skip_digits(s: &[u8], from: usize) -> (end: usize)
    requires
        from <= s.len(),
    ensures
        end == digits_end(s@, from as int),
        from <= end <= s.len(),
{
    let mut i = from;
    while i < s.len() && 48 <= s[i] && s[i] <= 57
        invariant
            from <= i <= s.len(),
            digits_end(s@, from as int) == digits_end(s@, i as int),
        decreases s.len() - i,
    {
        i += 1;
    }
    i
}

/// Whether `s` is `word`, letter case aside.
fn matches_word(s: &[u8], word: &[u8]) -> (yes: bool)
    ensures
        yes == is_word(s@, word@),
{
    if s.len() != word.len() {
        return false;
    }
    let mut i: usize = 0;
    while i < s.len()
        invariant
            i <= s.len(),
            s.len() == word.len(),
            forall|j: int| 0 <= j < i ==> lower(#[trigger] s@[j]) == word@[j],
        decreases s.len() - i,
    {
        let c = s[i];
        let folded = if 65 <= c && c <= 90 {
            c + 32
        } else {
            c
        };
        if folded != word[i] {
            assert(lower(s@[i as int]) != word@[i as int]);
            return false;
        }
        i += 1;
    }
    true
}

/// Whether `s` is an unsigned decimal number.
fn check_number(s: &[u8]) -> (yes: bool)
    ensures
        yes == is_number(s@),
{
    let n = s.len();
    let whole = skip_digits(s, 0);
    let point = whole < n && s[whole] == 46;
    let mantissa = if point {
        skip_digits(s, whole + 1)
    } else {
        whole
    };
    let digits = if point {
        mantissa - 1
    } else {
        mantissa
    };
    if digits < 1 {
        return false;
    }
    if mantissa == n {
        return true;
    }
    if !(s[mantissa] == 101 || s[mantissa] == 69) {
        return false;
    }
    let exponent = if mantissa + 1 < n && (s[mantissa + 1] == 43 || s[mantissa + 1] == 45) {
        mantissa + 2
    } else {
        mantissa + 1
    };
    if exponent >= n {
        return false;
    }
    skip_digits(s, exponent) == n
}

/// Whether `text` is the text of a double.
pub fn check_double(text: &[u8]) -> (yes: bool)
    ensures
        yes == is_double(text@),
{
    let n = text.len();
    let signed = n > 0 && (text[0] == 43 || text[0] == 45);
    let body = if signed {
        slice_subrange(text, 1, n)
    } else {
        text
    };
    assert(body@ =~= if signed {
        text@.skip(1)
    } else {
        text@
    });
    let inf: [u8; 3] = [105, 110, 102];
    let infinity: [u8; 8] = [105, 110, 102, 105, 110, 105, 116, 121];
    let nan: [u8; 3] = [110, 97, 110];
    assert(inf@ =~= word_inf());
    assert(infinity@ =~= word_infinity());
    assert(nan@ =~= word_nan());
    matches_word(body, inf.as_slice()) || matches_word(body, infinity.as_slice()) || matches_word(
        body,
        nan.as_slice(),
    ) || check_number(body)
}

/// The part of `s` from `from` up to `to`.
pub(crate) fn slice_subrange(s: &[u8], from: usize, to: usize) -> (part: &[u8])
    requires
        from <= to <= s.len(),
    ensures
        part@ == s@.subrange(from as int, to as int),
{
    &s[from..to]
}

} // verus!
