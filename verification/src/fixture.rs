//! The text form of a sorting fixture. The input is a line of integers with
//! one space between them; the answer is the sorted keys, written in decimal
//! with one space between them and nothing after the last.

use vstd::prelude::*;
use vstd::string::{StringExecFns, StringSliceAdditionalSpecFns};

verus! {

/// The byte of a space.
pub const SPACE: u8 = 32;

/// The byte of a plus sign.
pub const PLUS: u8 = 43;

/// The byte of a minus sign.
pub const MINUS: u8 = 45;

/// The byte of the digit zero.
pub const ZERO: u8 = 48;

/// The byte of the digit nine.
pub const NINE: u8 = 57;

/// Whether a byte is a decimal digit.
pub open spec fn is_digit(byte: u8) -> bool {
    ZERO <= byte <= NINE
}

/// Whether a run of bytes is one or more decimal digits.
pub open spec fn all_digits(run: Seq<u8>) -> bool {
    run.len() > 0 && forall|i: int| 0 <= i < run.len() ==> is_digit(#[trigger] run[i])
}

/// The number that a run of decimal digits writes.
pub open spec fn digits_value(run: Seq<u8>) -> nat
    decreases run.len(),
{
    if run.len() == 0 {
        0
    } else {
        digits_value(run.drop_last()) * 10 + (run.last() - ZERO) as nat
    }
}

/// The integer that a token writes: digits, with a plus or a minus sign
/// before them or none, that stay within the range of `i64`. Any other token
/// writes none.
pub open spec fn token_value(token: Seq<u8>) -> Option<i64> {
    if token.len() > 0 && token[0] == MINUS {
        let digits = token.skip(1);
        if all_digits(digits) && digits_value(digits) <= -i64::MIN {
            Some((-digits_value(digits)) as i64)
        } else {
            None
        }
    } else {
        let digits = if token.len() > 0 && token[0] == PLUS {
            token.skip(1)
        } else {
            token
        };
        if all_digits(digits) && digits_value(digits) <= i64::MAX {
            Some(digits_value(digits) as i64)
        } else {
            None
        }
    }
}

/// Where the token begins that ends before the place `end`: after the last
/// space before `end`, or at the start of the line.
pub open spec fn token_start(line: Seq<u8>, end: int) -> int
    decreases end,
{
    if end <= 0 {
        0
    } else if line[end - 1] == SPACE {
        end
    } else {
        token_start(line, end - 1)
    }
}

/// The integer of a token as a list of one, or of none.
pub open spec fn listed(value: Option<i64>) -> Seq<i64> {
    match value {
        Some(v) => seq![v],
        None => Seq::empty(),
    }
}

/// The integers written in the line up to the place `end`, which ends a
/// token. The tokens are what stands between the spaces; those that write
/// no integer are passed over.
pub open spec fn numbers_before(line: Seq<u8>, end: int) -> Seq<i64>
    decreases end,
{
    let start = token_start(line, end);
    let last = listed(token_value(line.subrange(start, end)));
    if 0 < start <= end {
        numbers_before(line, start - 1) + last
    } else {
        last
    }
}

/// The integers written in a line, in the order in which they stand.
pub open spec fn numbers_in(line: Seq<u8>) -> Seq<i64> {
    numbers_before(line, line.len() as int)
}

/// Reads the token that stands in `bytes` from `from` up to `to`.
fn parse_token(bytes: &[u8], from: usize, to: usize) -> (value: Option<i64>)
    requires
        from <= to <= bytes@.len(),
    ensures
        value == token_value(bytes@.subrange(from as int, to as int)),
{
    let ghost token = bytes@.subrange(from as int, to as int);
    if from == to {
        return None;
    }
    let first = bytes[from];
    assert(first == token[0]);
    let negative = first == MINUS;
    let body = if first == MINUS || first == PLUS {
        from + 1
    } else {
        from
    };
    let ghost digits = bytes@.subrange(body as int, to as int);
    assert(digits =~= if first == MINUS || first == PLUS {
        token.skip(1)
    } else {
        token
    });
    if body == to {
        return None;
    }
    let mut seen: u128 = 0;
    let mut beyond = false;
    let mut at = body;
    assert(bytes@.subrange(body as int, at as int) =~= Seq::<u8>::empty());
    while at < to
        invariant
            from <= body <= at <= to <= bytes@.len(),
            from < to,
            token == bytes@.subrange(from as int, to as int),
            digits == bytes@.subrange(body as int, to as int),
            digits == if token[0] == MINUS || token[0] == PLUS {
                token.skip(1)
            } else {
                token
            },
            forall|j: int| body <= j < at ==> is_digit(#[trigger] bytes@[j]),
            !beyond ==> seen == digits_value(bytes@.subrange(body as int, at as int)) && seen
                <= -i64::MIN,
            beyond ==> digits_value(bytes@.subrange(body as int, at as int)) > -i64::MIN,
        decreases to - at,
    {
        let byte = bytes[at];
        if byte < ZERO || byte > NINE {
            assert(!is_digit(digits[at - body]));
            return None;
        }
        proof {
            let longer = bytes@.subrange(body as int, at + 1);
            assert(longer.drop_last() =~= bytes@.subrange(body as int, at as int));
            assert(longer.last() == byte);
        }
        if !beyond {
            seen = seen * 10 + (byte - ZERO) as u128;
            if seen > 0x8000_0000_0000_0000 {
                beyond = true;
            }
        }
        at += 1;
    }
    assert(bytes@.subrange(body as int, at as int) =~= digits);
    assert(all_digits(digits)) by {
        assert forall|i: int| 0 <= i < digits.len() implies is_digit(#[trigger] digits[i]) by {
            assert(digits[i] == bytes@[body + i]);
        }
    }
    if beyond {
        None
    } else if negative {
        Some((-(seen as i128)) as i64)
    } else if seen <= 0x7fff_ffff_ffff_ffff {
        Some(seen as i64)
    } else {
        None
    }
}

/// Reads the integers of a line: what stands between the spaces is taken
/// for an integer where it writes one and passed over where it does not.
pub fn parse_numbers(line: &str) -> (numbers: Vec<i64>)
    ensures
        numbers@ == numbers_in(line.spec_bytes()),
{
    let bytes = line.as_bytes();
    let mut numbers: Vec<i64> = Vec::new();
    let mut start: usize = 0;
    let mut at: usize = 0;
    while at < bytes.len()
        invariant
            start <= at <= bytes@.len(),
            start == token_start(bytes@, at as int),
            start == 0 ==> numbers@ == Seq::<i64>::empty(),
            start > 0 ==> numbers@ == numbers_before(bytes@, start - 1),
        decreases bytes@.len() - at,
    {
        if bytes[at] == SPACE {
            let value = parse_token(bytes, start, at);
            match value {
                Some(v) => {
                    numbers.push(v);
                },
                None => {},
            }
            assert(numbers@ =~= numbers_before(bytes@, at as int));
            start = at + 1;
        }
        at += 1;
    }
    let value = parse_token(bytes, start, at);
    match value {
        Some(v) => {
            numbers.push(v);
        },
        None => {},
    }
    assert(numbers@ =~= numbers_before(bytes@, at as int));
    numbers
}

/// The character of a decimal digit.
pub open spec fn digit_char(digit: nat) -> char {
    if digit == 0 {
        '0'
    } else if digit == 1 {
        '1'
    } else if digit == 2 {
        '2'
    } else if digit == 3 {
        '3'
    } else if digit == 4 {
        '4'
    } else if digit == 5 {
        '5'
    } else if digit == 6 {
        '6'
    } else if digit == 7 {
        '7'
    } else if digit == 8 {
        '8'
    } else {
        '9'
    }
}

/// A natural number in decimal, without leading zeros.
pub open spec fn decimal(n: nat) -> Seq<char>
    decreases n,
{
    if n < 10 {
        seq![digit_char(n)]
    } else {
        decimal(n / 10).push(digit_char(n % 10))
    }
}

/// An integer in decimal, with a minus sign before it where it is negative.
pub open spec fn written(value: i64) -> Seq<char> {
    if value < 0 {
        seq!['-'] + decimal((-value) as nat)
    } else {
        decimal(value as nat)
    }
}

/// The integers in decimal, with one space between each two.
pub open spec fn joined(values: Seq<i64>) -> Seq<char>
    decreases values.len(),
{
    if values.len() == 0 {
        Seq::empty()
    } else if values.len() == 1 {
        written(values[0])
    } else {
        joined(values.drop_last()) + seq![' '] + written(values.last())
    }
}

fn digit_text(digit: u64) -> (text: &'static str)
    requires
        digit < 10,
    ensures
        text@ == seq![digit_char(digit as nat)],
{
    proof {
        reveal_strlit("0");
        reveal_strlit("1");
        reveal_strlit("2");
        reveal_strlit("3");
        reveal_strlit("4");
        reveal_strlit("5");
        reveal_strlit("6");
        reveal_strlit("7");
        reveal_strlit("8");
        reveal_strlit("9");
    }
    let text = if digit == 0 {
        "0"
    } else if digit == 1 {
        "1"
    } else if digit == 2 {
        "2"
    } else if digit == 3 {
        "3"
    } else if digit == 4 {
        "4"
    } else if digit == 5 {
        "5"
    } else if digit == 6 {
        "6"
    } else if digit == 7 {
        "7"
    } else if digit == 8 {
        "8"
    } else {
        "9"
    };
    assert(text@ =~= seq![digit_char(digit as nat)]);
    text
}

/// Writes a natural number in decimal at the end of a text.
fn write_decimal(text: &mut String, n: u64)
    ensures
        final(text)@ == old(text)@ + decimal(n as nat),
    decreases n,
{
    if n >= 10 {
        write_decimal(text, n / 10);
    }
    text.append(digit_text(n % 10));
    assert(text@ =~= old(text)@ + decimal(n as nat));
}

/// Writes the integers in decimal with one space between each two: the
/// line that answers a sorting fixture.
pub fn join_numbers(values: &Vec<i64>) -> (line: String)
    ensures
        line@ == joined(values@),
{
    let mut line = String::new();
    let mut at: usize = 0;
    assert(values@.take(0) =~= Seq::<i64>::empty());
    while at < values.len()
        invariant
            at <= values.len(),
            line@ == joined(values@.take(at as int)),
        decreases values.len() - at,
    {
        proof {
            reveal_strlit(" ");
            reveal_strlit("-");
            let longer = values@.take(at + 1);
            assert(longer.drop_last() =~= values@.take(at as int));
            assert(longer.last() == values[at as int]);
        }
        let ghost before = line@;
        if at > 0 {
            line.append(" ");
        }
        let value = values[at];
        if value < 0 {
            line.append("-");
            write_decimal(&mut line, (-(value as i128)) as u64);
        } else {
            write_decimal(&mut line, value as u64);
        }
        assert(line@ =~= joined(values@.take(at + 1))) by {
            if at == 0 {
                assert(before =~= Seq::<char>::empty());
            }
        }
        at += 1;
    }
    assert(values@.take(at as int) =~= values@);
    line
}

} // verus!
