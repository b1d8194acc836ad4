//! Decimal numerals: reading the position of a book in its series, and
//! writing a count.

use vstd::prelude::*;
use vstd::slice::slice_subrange;

verus! {

pub const PLUS: u8 = 43;

pub const MINUS: u8 = 45;

pub const POINT: u8 = 46;

pub const ZERO: u8 = 48;

pub const NINE: u8 = 57;

/// The magnitude beyond which no value is told apart: that of `i32::MIN`.
pub const LIMIT: u64 = 2147483648;

pub open spec fn is_digit(byte: u8) -> bool {
    ZERO <= byte <= NINE
}

/// The number that a string of digits denotes.
pub open spec fn digits_value(digits: Seq<u8>) -> nat
    decreases digits.len(),
{
    if digits.len() == 0 {
        0
    } else {
        digits_value(digits.drop_last()) * 10 + (digits.last() - ZERO) as nat
    }
}

/// The number of digits that `text` begins with.
pub open spec fn digit_run(text: Seq<u8>) -> nat
    decreases text.len(),
{
    if text.len() == 0 || !is_digit(text[0]) {
        0
    } else {
        1 + digit_run(text.skip(1))
    }
}

pub open spec fn has_sign(text: Seq<u8>) -> bool {
    text.len() > 0 && (text[0] == PLUS || text[0] == MINUS)
}

/// `text` without its sign.
pub open spec fn magnitude(text: Seq<u8>) -> Seq<u8> {
    if has_sign(text) {
        text.skip(1)
    } else {
        text
    }
}

/// The digits of `text` before its decimal point.
pub open spec fn whole_digits(text: Seq<u8>) -> Seq<u8> {
    magnitude(text).take(digit_run(magnitude(text)) as int)
}

/// What follows the whole digits of `text`: nothing, or a point and the
/// fraction.
pub open spec fn remainder(text: Seq<u8>) -> Seq<u8> {
    magnitude(text).skip(digit_run(magnitude(text)) as int)
}

/// `text` is a decimal numeral: an optional sign, digits, and optionally a
/// point and more digits, with a digit on at least one side of the point.
/// Nothing else is a numeral: no exponent is read, so that `1e3` is none,
/// and neither blanks nor words such as `inf` are.
pub open spec fn is_numeral(text: Seq<u8>) -> bool {
    let whole = whole_digits(text);
    let rest = remainder(text);
    if rest.len() == 0 {
        whole.len() > 0
    } else {
        &&& rest[0] == POINT
        &&& digit_run(rest.skip(1)) == rest.len() - 1
        &&& whole.len() + rest.len() > 1
    }
}

/// The value of a numeral cut off at its decimal point, kept within the
/// range of `i32`; 0 for a text that is no numeral. The digits before the
/// point are read exactly, whatever their number, and those after it do not
/// count: `0.99999999999` gives 0 and `16777217` itself.
pub open spec fn truncated(text: Seq<u8>) -> int {
    if !is_numeral(text) {
        0
    } else {
        let value = digits_value(whole_digits(text)) as int;
        if text[0] == MINUS {
            if value > LIMIT {
                -(LIMIT as int)
            } else {
                -value
            }
        } else if value >= LIMIT {
            LIMIT - 1
        } else {
            value
        }
    }
}

/// The digits of `n` in decimal, the most significant first.
pub open spec fn decimal(n: nat) -> Seq<u8>
    decreases n,
{
    if n < 10 {
        seq![(ZERO + n) as u8]
    } else {
        decimal(n / 10).push((ZERO + n % 10) as u8)
    }
}

/// Counts the digits at the front of `text`, and reads their value as far as
/// it stays under `LIMIT`.
fn read_digits(text: &[u8]) -> (found: (usize, u64))
    ensures
        found.0 <= text.len(),
        found.0 == digit_run(text@),
        found.1 == if digits_value(text@.take(found.0 as int)) < LIMIT {
            digits_value(text@.take(found.0 as int))
        } else {
            LIMIT as nat
        },
{
    let mut count: usize = 0;
    let mut value: u64 = 0;
    assert(text@.skip(0) =~= text@);
    assert(text@.take(0) =~= Seq::<u8>::empty());
    while count < text.len() && ZERO <= text[count] && text[count] <= NINE
        invariant
            count <= text.len(),
            digit_run(text@) == count + digit_run(text@.skip(count as int)),
            value <= LIMIT,
            value == if digits_value(text@.take(count as int)) < LIMIT {
                digits_value(text@.take(count as int))
            } else {
                LIMIT as nat
            },
        decreases text.len() - count,
    {
        let digit: u64 = (text[count] - ZERO) as u64;
        assert(text@.skip(count as int).skip(1) =~= text@.skip(count + 1));
        assert(text@.take(count + 1).drop_last() =~= text@.take(count as int));
        let next: u64 = value * 10 + digit;
        value = if next < LIMIT { next } else { LIMIT };
        count += 1;
    }
    (count, value)
}

/// Reads the position of a book in its series: the numeral's value cut off
/// at the decimal point, 0 where `text` is no numeral. A position written
/// with an exponent, such as `1e3`, is no numeral and reads as 0.
pub fn parse_truncated(text: &[u8]) -> (value: i32)
    ensures
        value == truncated(text@),
{
    let signed = text.len() > 0 && (text[0] == PLUS || text[0] == MINUS);
    let negative = text.len() > 0 && text[0] == MINUS;
    let body = if signed { slice_subrange(text, 1, text.len()) } else { text };
    assert(body@ =~= magnitude(text@));
    let (count, value) = read_digits(body);
    let rest = slice_subrange(body, count, body.len());
    assert(rest@ =~= remainder(text@));
    if rest.len() == 0 {
        if count == 0 {
            return 0;
        }
    } else {
        if rest[0] != POINT {
            return 0;
        }
        let fraction = slice_subrange(rest, 1, rest.len());
        assert(fraction@ =~= rest@.skip(1));
        let (digits, _) = read_digits(fraction);
        if digits != fraction.len() || count + rest.len() <= 1 {
            return 0;
        }
    }
    assert(is_numeral(text@));
    if negative {
        -(value as i64) as i32
    } else if value >= LIMIT {
        i32::MAX
    } else {
        value as i32
    }
}

/// Appends the decimal digits of `n` to `out`.
pub fn push_decimal(out: &mut Vec<u8>, n: usize)
    ensures
        final(out)@ == old(out)@ + decimal(n as nat),
    decreases n,
{
    if n >= 10 {
        push_decimal(out, n / 10);
    }
    let digit: u8 = ZERO + (n % 10) as u8;
    out.push(digit);
    proof {
        if n < 10 {
            assert(out@ =~= old(out)@ + decimal(n as nat));
        } else {
            assert(out@ =~= old(out)@ + decimal(n as nat));
        }
    }
}

} // verus!
