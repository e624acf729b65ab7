//! Numbers in decimal notation.

use vstd::prelude::*;

verus! {

/// The byte `0`.
pub const ZERO: u8 = 0x30;

/// The byte `9`.
pub const NINE: u8 = 0x39;

/// The byte `+`.
pub const PLUS: u8 = 0x2b;

/// `true` if `digits` are decimal digits, at least one.
pub open spec fn is_digits(digits: Seq<u8>) -> bool {
    digits.len() > 0 && forall|i: int|
        0 <= i < digits.len() ==> ZERO <= #[trigger] digits[i] <= NINE
}

/// The number that the decimal digits `digits` write.
pub open spec fn digits_value(digits: Seq<u8>) -> nat
    decreases digits.len(),
{
    if digits.len() == 0 {
        0
    } else {
        10 * digits_value(digits.drop_last()) + (digits.last() - ZERO) as nat
    }
}

/// The decimal digits that write `value`, without leading zeros.
pub open spec fn decimal(value: nat) -> Seq<u8>
    decreases value,
{
    if value < 10 {
        seq![(ZERO + value) as u8]
    } else {
        decimal(value / 10).push((ZERO + value % 10) as u8)
    }
}

/// The digits of `text`: `text` itself, or what follows its sign `+`.
pub open spec fn unsigned_part(text: Seq<u8>) -> Seq<u8> {
    if text.len() > 0 && text[0] == PLUS {
        text.skip(1)
    } else {
        text
    }
}

/// The number that `text` writes: decimal digits, at least one, after an
/// optional sign `+`. There is none when `text` is anything else, or when
/// the number is too large for a `usize`.
pub open spec fn parsed(text: Seq<u8>) -> Option<usize> {
    let digits = unsigned_part(text);
    if is_digits(digits) && digits_value(digits) <= usize::MAX {
        Some(digits_value(digits) as usize)
    } else {
        None
    }
}

/// The value of digits does not decrease when a digit follows them.
pub proof fn lemma_digits_value_grows(digits: Seq<u8>, count: int)
    requires
        is_digits(digits),
        0 <= count <= digits.len(),
    ensures
        digits_value(digits.take(count)) <= digits_value(digits),
    decreases digits.len() - count,
{
    if count < digits.len() {
        let next = digits.take(count + 1);
        assert(next.drop_last() =~= digits.take(count));
        lemma_digits_value_grows(digits, count + 1);
    } else {
        assert(digits.take(count) =~= digits);
    }
}

/// The decimal digits of a number write that number.
pub proof fn lemma_decimal_round_trip(value: nat)
    ensures
        is_digits(decimal(value)),
        digits_value(decimal(value)) == value,
        decimal(value)[0] != PLUS,
    decreases value,
{
    if value < 10 {
        let digits = decimal(value);
        assert(digits.drop_last() =~= Seq::<u8>::empty());
        assert(digits_value(digits.drop_last()) == 0);
    } else {
        lemma_decimal_round_trip(value / 10);
        let digits = decimal(value);
        assert(digits.drop_last() =~= decimal(value / 10));
    }
}

/// A number is read back from its decimal notation.
pub proof fn lemma_parse_round_trip(value: usize)
    ensures
        parsed(decimal(value as nat)) == Some(value),
{
    lemma_decimal_round_trip(value as nat);
}

/// Writes `value` in decimal notation.
pub fn to_decimal(value: usize) -> (text: Vec<u8>)
    ensures
        text@ == decimal(value as nat),
{
    let mut reversed: Vec<u8> = Vec::new();
    let mut rest: usize = value;
    while rest >= 10
        invariant
            decimal(value as nat) == decimal(rest as nat) + reversed@.reverse(),
        decreases rest,
    {
        let digit = ZERO + (rest % 10) as u8;
        proof {
            let tail = reversed@.reverse();
            assert(reversed@.push(digit).reverse() =~= seq![digit] + tail);
            assert(decimal((rest / 10) as nat).push(digit) + tail =~= decimal((rest / 10) as nat)
                + (seq![digit] + tail));
        }
        reversed.push(digit);
        rest = rest / 10;
    }
    reversed.push(ZERO + rest as u8);

    let mut text: Vec<u8> = Vec::new();
    let mut index: usize = reversed.len();
    while index > 0
        invariant
            index <= reversed@.len(),
            text@ == reversed@.reverse().take(reversed@.len() - index),
        decreases index,
    {
        index -= 1;
        text.push(reversed[index]);
        assert(text@ =~= reversed@.reverse().take(reversed@.len() - index));
    }
    proof {
        assert(text@ =~= reversed@.reverse());
        let tail = reversed@.drop_last().reverse();
        assert(reversed@.reverse() =~= seq![reversed@.last()] + tail);
        assert(decimal(rest as nat) =~= seq![reversed@.last()]);
    }
    text
}

/// Reads a number in decimal notation.
pub fn parse_decimal(text: &[u8]) -> (value: Option<usize>)
    ensures
        value == parsed(text@),
{
    let start: usize = if text.len() > 0 && text[0] == PLUS {
        1
    } else {
        0
    };
    let ghost digits = unsigned_part(text@);
    assert(digits =~= text@.skip(start as int));
    if start == text.len() {
        return None;
    }
    let mut value: usize = 0;
    let mut index: usize = start;
    assert(digits.take(0) =~= Seq::<u8>::empty());
    while index < text.len()
        invariant
            start <= index <= text@.len(),
            digits == text@.skip(start as int),
            digits == unsigned_part(text@),
            digits.len() > 0,
            is_digits(digits.take(index - start)) || index == start,
            value == digits_value(digits.take(index - start)),
        decreases text@.len() - index,
    {
        let byte = text[index];
        let ghost done = digits.take(index - start);
        let ghost next = digits.take(index - start + 1);
        proof {
            assert(next.drop_last() =~= done);
            assert(next.last() == byte);
            assert(digits_value(next) == 10 * digits_value(done) + (byte - ZERO) as nat);
        }
        if byte < ZERO || byte > NINE {
            assert(!is_digits(digits)) by {
                assert(digits[index - start] == byte);
            }
            return None;
        }
        assert(is_digits(next)) by {
            assert forall|i: int| 0 <= i < next.len() implies ZERO <= #[trigger] next[i]
                <= NINE by {
                if i < done.len() {
                    assert(next[i] == done[i]);
                }
            }
        }
        let digit = (byte - ZERO) as usize;
        let shifted = match value.checked_mul(10) {
            Some(shifted) => shifted,
            None => {
                proof {
                    lemma_overflow(digits, index - start + 1);
                }
                return None;
            },
        };
        value = match shifted.checked_add(digit) {
            Some(sum) => sum,
            None => {
                proof {
                    lemma_overflow(digits, index - start + 1);
                }
                return None;
            },
        };
        index += 1;
    }
    assert(digits.take(index - start) =~= digits);
    Some(value)
}

/// Digits do not write a `usize` when some of their first digits already
/// write a number that is too large, or when one of them is no digit.
proof fn lemma_overflow(digits: Seq<u8>, count: int)
    requires
        0 <= count <= digits.len(),
        digits_value(digits.take(count)) > usize::MAX,
    ensures
        !(is_digits(digits) && digits_value(digits) <= usize::MAX),
{
    if is_digits(digits) {
        lemma_digits_value_grows(digits, count);
    }
}

} // verus!
