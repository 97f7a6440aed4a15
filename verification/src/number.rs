//! Unsigned decimal literals.

use vstd::prelude::*;
use vstd::std_specs::iter::IteratorSpec;
use crate::classify::{is_digit, spec_is_digit};
use crate::runs::{
    all_in, digit_class, digit_run, lemma_run_len, lemma_run_len_all, lemma_run_len_is,
};

verus! {

/// Why a text is not an unsigned 64-bit decimal literal.
#[derive(Clone, Copy, Debug, PartialEq, Eq, Structural)]
pub enum NumberError {
    /// The text is empty.
    Empty,
    /// The text holds a character that is not a decimal digit.
    InvalidDigit,
    /// The digits denote a value above `u64::MAX`.
    Overflow,
}

/// The value of a decimal digit.
pub open spec fn digit_value(c: char) -> nat
    recommends
        spec_is_digit(c),
{
    (c as u32 - '0' as u32) as nat
}

/// The value that a text of decimal digits denotes, its first digit being the
/// most significant one.
pub open spec fn decimal_value(s: Seq<char>) -> nat
    recommends
        all_in(s, digit_class()),
    decreases s.len(),
{
    if s.len() == 0 {
        0
    } else {
        decimal_value(s.drop_last()) * 10 + digit_value(s.last())
    }
}

/// What reading `s` as an unsigned 64-bit decimal literal gives.
///
/// The text is read from the left, and the first obstacle decides: a digit
/// with which the value exceeds `u64::MAX` is an overflow, a character that is
/// no digit is an invalid digit.
pub open spec fn decimal_literal(s: Seq<char>) -> Result<u64, NumberError> {
    if s.len() == 0 {
        Err(NumberError::Empty)
    } else if decimal_value(s.take(digit_run(s) as int)) > u64::MAX {
        Err(NumberError::Overflow)
    } else if digit_run(s) < s.len() {
        Err(NumberError::InvalidDigit)
    } else {
        Ok(decimal_value(s) as u64)
    }
}

/// The value of a prefix of digits does not exceed the value of a longer prefix.
pub proof fn lemma_decimal_value_prefix(s: Seq<char>, i: int, j: int)
    requires
        0 <= i <= j <= s.len(),
    ensures
        decimal_value(s.take(i)) <= decimal_value(s.take(j)),
    decreases j - i,
{
    if i < j {
        lemma_decimal_value_prefix(s, i, j - 1);
        assert(s.take(j).drop_last() =~= s.take(j - 1));
        assert(decimal_value(s.take(j - 1)) <= decimal_value(s.take(j - 1)) * 10);
    }
}

/// Reads `text` as an unsigned 64-bit decimal literal.
pub fn parse_decimal(text: &str) -> (result: Result<u64, NumberError>)
    ensures
        result == decimal_literal(text@),
{
    let ghost s = text@;
    let mut chars = text.chars();
    let mut value: u64 = 0;
    let ghost mut seen: int = 0;
    loop
        invariant
            s == text@,
            0 <= seen <= s.len(),
            chars.obeys_prophetic_iter_laws(),
            chars.remaining() == s.skip(seen),
            all_in(s.take(seen), digit_class()),
            value == decimal_value(s.take(seen)),
        decreases s.len() - seen,
    {
        match chars.next() {
            None => {
                proof {
                    assert(s.take(seen) =~= s);
                    lemma_run_len_all(s, digit_class());
                }
                if text.is_empty() {
                    return Err(NumberError::Empty);
                }
                return Ok(value);
            },
            Some(c) => {
                assert(c == s[seen]);
                if !is_digit(c) {
                    proof {
                        lemma_run_len_is(s, digit_class(), seen);
                    }
                    return Err(NumberError::InvalidDigit);
                }
                let digit: u64 = (c as u32 - '0' as u32) as u64;
                proof {
                    assert(s.take(seen + 1).drop_last() =~= s.take(seen));
                    assert(s.take(seen + 1).last() == c);
                    assert(decimal_value(s.take(seen + 1)) == value * 10 + digit);
                    assert forall|i: int| 0 <= i < seen + 1 implies digit_class()(
                        #[trigger] s.take(seen + 1)[i],
                    ) by {
                        if i < seen {
                            assert(s.take(seen + 1)[i] == s.take(seen)[i]);
                        }
                    }
                    lemma_run_len(s, digit_class());
                    if digit_run(s) < seen + 1 {
                        assert(s[digit_run(s) as int] == s.take(seen + 1)[digit_run(s) as int]);
                    }
                    lemma_decimal_value_prefix(s, seen + 1, digit_run(s) as int);
                }
                let scaled = match value.checked_mul(10) {
                    Some(scaled) => scaled,
                    None => {
                        return Err(NumberError::Overflow);
                    },
                };
                value = match scaled.checked_add(digit) {
                    Some(sum) => sum,
                    None => {
                        return Err(NumberError::Overflow);
                    },
                };
                proof {
                    assert(s.skip(seen).drop_first() =~= s.skip(seen + 1));
                    seen = seen + 1;
                }
            },
        }
    }
}

} // verus!
