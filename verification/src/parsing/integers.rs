//! Integer literals: from digits to a value.

use vstd::prelude::*;
use crate::parsing::scanning::{
    all_digits, digits_value, integer_value, is_digit, lemma_digits_value_prefix,
};

verus! {

/// The character for a decimal digit.
pub open spec fn digit_character(digit: nat) -> char {
    if digit == 0 {
        '0'
    } else if digit == 1 {
        '1'
    } else if digit == 2 {
        '2'
    } else if digit == 3 {
        '3'
    } else if digit == 4 {
        '4'
    } else if digit == 5 {
        '5'
    } else if digit == 6 {
        '6'
    } else if digit == 7 {
        '7'
    } else if digit == 8 {
        '8'
    } else {
        '9'
    }
}

/// The decimal digits of a natural number, without leading zeros.
pub open spec fn decimal_digits(number: nat) -> Seq<char>
    decreases number,
{
    if number < 10 {
        seq![digit_character(number)]
    } else {
        decimal_digits(number / 10).push(digit_character(number % 10))
    }
}

/// The decimal form of an integer: its digits, after `-` where it is
/// negative.
pub open spec fn decimal(number: int) -> Seq<char> {
    if number < 0 {
        seq!['-'] + decimal_digits((-number) as nat)
    } else {
        decimal_digits(number as nat)
    }
}

/// The digits that are still to be written before those of the lower
/// places: none once nothing is left of the number.
spec fn leading_digits(number: nat) -> Seq<char> {
    if number == 0 {
        Seq::empty()
    } else {
        decimal_digits(number)
    }
}

/// The character for the last decimal digit of `number`.
fn last_digit(number: u128) -> (character: char)
    ensures
        character == digit_character((number % 10) as nat),
{
    let digit = number % 10;
    if digit == 0 {
        '0'
    } else if digit == 1 {
        '1'
    } else if digit == 2 {
        '2'
    } else if digit == 3 {
        '3'
    } else if digit == 4 {
        '4'
    } else if digit == 5 {
        '5'
    } else if digit == 6 {
        '6'
    } else if digit == 7 {
        '7'
    } else if digit == 8 {
        '8'
    } else {
        '9'
    }
}

/// The decimal form of `value`.
pub fn decimal_text(value: i128) -> (text: String)
    ensures
        text@ == decimal(value as int),
{
    let negative = value < 0;
    let magnitude: u128 = if negative {
        (-(value + 1)) as u128 + 1
    } else {
        value as u128
    };
    let mut digits: Vec<char> = Vec::new();
    digits.push(last_digit(magnitude));
    let mut rest = magnitude / 10;
    while rest > 0
        invariant
            decimal_digits(magnitude as nat) == leading_digits(rest as nat) + digits@,
        decreases rest,
    {
        digits.insert(0, last_digit(rest));
        rest = rest / 10;
    }
    let mut text = String::new();
    if negative {
        text.push('-');
    }
    let ghost sign = text@;
    let mut index: usize = 0;
    while index < digits.len()
        invariant
            index <= digits.len(),
            text@ == sign + digits@.take(index as int),
        decreases digits.len() - index,
    {
        text.push(digits[index]);
        index += 1;
    }
    text
}

/// The decimal digits of a number are digits, and their value is the
/// number.
pub proof fn lemma_decimal_digits_value(number: nat)
    ensures
        decimal_digits(number).len() > 0,
        all_digits(decimal_digits(number)),
        digits_value(decimal_digits(number)) == number,
    decreases number,
{
    let digits = decimal_digits(number);
    if number < 10 {
        assert(digits_value(digits.drop_last()) == 0);
    } else {
        lemma_decimal_digits_value(number / 10);
        assert(digits.drop_last() == decimal_digits(number / 10));
        assert forall|i: int| 0 <= i < digits.len() implies is_digit(#[trigger] digits[i]) by {
            if i < digits.len() - 1 {
                assert(digits[i] == decimal_digits(number / 10)[i]);
            }
        }
    }
}

/// Reading the decimal form of a value that fits in 128 signed bits gives
/// the value back.
pub proof fn lemma_decimal_round_trip(value: int)
    requires
        i128::MIN <= value <= i128::MAX,
    ensures
        integer_value(decimal(value)) == Some(value),
{
    if value < 0 {
        let digits = decimal_digits((-value) as nat);
        lemma_decimal_digits_value((-value) as nat);
        assert(decimal(value).skip(1) == digits);
    } else {
        lemma_decimal_digits_value(value as nat);
    }
}

/// The value of the integer literal that stands between two places of
/// `characters`, where it has one.
pub fn parse_integer(characters: &Vec<char>, from: usize, to: usize) -> (value: Option<i128>)
    requires
        from <= to <= characters.len(),
    ensures
        match value {
            Some(number) => integer_value(characters@.subrange(from as int, to as int)) == Some(
                number as int,
            ),
            None => integer_value(characters@.subrange(from as int, to as int)) is None,
        },
{
    let ghost text = characters@.subrange(from as int, to as int);
    if from == to {
        return None;
    }
    let negative = characters[from] == '-';
    let first = if negative {
        from + 1
    } else {
        from
    };
    let ghost digits = characters@.subrange(first as int, to as int);
    if first == to {
        return None;
    }
    let mut total: i128 = 0;
    let mut index = first;
    while index < to
        invariant
            from <= first <= index <= to <= characters.len(),
            text == characters@.subrange(from as int, to as int),
            digits == characters@.subrange(first as int, to as int),
            negative == (text[0] == '-'),
            digits == if negative {
                text.skip(1)
            } else {
                text
            },
            all_digits(digits.take(index - first)),
            negative ==> total == -digits_value(digits.take(index - first)),
            !negative ==> total == digits_value(digits.take(index - first)),
        decreases to - index,
    {
        let character = characters[index];
        let ghost seen = digits.take(index - first);
        let ghost grown = digits.take(index - first + 1);
        assert(grown.drop_last() == seen);
        if !(character >= '0' && character <= '9') {
            assert(!is_digit(digits[index - first]));
            return None;
        }
        let digit: i128 = (character as u32 - '0' as u32) as i128;
        proof {
            if all_digits(digits) {
                lemma_digits_value_prefix(digits, index - first + 1);
            }
        }
        let scaled = match total.checked_mul(10) {
            Some(scaled) => scaled,
            None => {
                return None;
            },
        };
        let grown_total = if negative {
            scaled.checked_sub(digit)
        } else {
            scaled.checked_add(digit)
        };
        match grown_total {
            Some(sum) => {
                total = sum;
            },
            None => {
                return None;
            },
        }
        index += 1;
    }
    assert(digits.take(index - first) == digits);
    Some(total)
}

} // verus!
