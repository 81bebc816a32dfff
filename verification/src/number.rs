//! Numeric literals, kept exactly.

use vstd::prelude::*;

use crate::chars::{digit, digit_value, is_digit};

verus! {

/// A numeric literal. One without a decimal point is kept by its value, one
/// with a decimal point by its text, so that no precision is lost.
#[derive(Debug, Clone)]
pub enum Number {
    /// A literal made of digits only, which may start with zeros.
    Integer(i64),
    /// A literal with a decimal point, as written: digits, the point, and
    /// the digits behind it, if any.
    Decimal(String),
}

/// What a [`Number`] stands for.
pub enum NumberView {
    Integer(int),
    Decimal(Seq<char>),
}

impl View for Number {
    type V = NumberView;

    open spec fn view(&self) -> NumberView {
        match self {
            Number::Integer(n) => NumberView::Integer(*n as int),
            Number::Decimal(text) => NumberView::Decimal(text@),
        }
    }
}

/// Whether `text` is made of digits only.
pub open spec fn all_digits(text: Seq<char>) -> bool {
    forall|i: int| 0 <= i < text.len() ==> is_digit(#[trigger] text[i])
}

/// Whether `text` has a decimal point at `point`, with digits before it, at
/// least one, and nothing but digits behind it.
pub open spec fn has_point_at(text: Seq<char>, point: int) -> bool {
    &&& 0 < point < text.len()
    &&& text[point] == '.'
    &&& all_digits(text.subrange(0, point))
    &&& all_digits(text.subrange(point + 1, text.len() as int))
}

/// Whether `text` is a literal with a decimal point.
pub open spec fn is_decimal(text: Seq<char>) -> bool {
    exists|point: int| has_point_at(text, point)
}

/// The number that a run of digits writes in base ten.
pub open spec fn decimal_value(digits: Seq<char>) -> nat
    decreases digits.len(),
{
    if digits.len() == 0 {
        0
    } else {
        (decimal_value(digits.drop_last()) * 10 + digit_value(digits.last())) as nat
    }
}

/// A run of digits is worth at least as much as any of its prefixes.
pub proof fn lemma_decimal_value_prefix(digits: Seq<char>, n: int)
    requires
        all_digits(digits),
        0 <= n <= digits.len(),
    ensures
        decimal_value(digits.subrange(0, n)) <= decimal_value(digits),
    decreases digits.len() - n,
{
    if n == digits.len() {
        assert(digits.subrange(0, n) =~= digits);
    } else {
        lemma_decimal_value_prefix(digits, n + 1);
        let longer = digits.subrange(0, n + 1);
        assert(longer.drop_last() =~= digits.subrange(0, n));
        assert(is_digit(digits[n]));
        assert(longer.last() == digits[n]);
    }
}

/// The value of `text` as an integer literal: of digits, at least one, that
/// write a number which fits in 64 bits, sign included.
pub open spec fn integer_literal(text: Seq<char>) -> Option<int> {
    if text.len() > 0 && all_digits(text) && decimal_value(text) <= i64::MAX {
        Some(decimal_value(text) as int)
    } else {
        None
    }
}

/// Reads `chars[from..to]` as an integer literal.
pub fn parse_digits(chars: &Vec<char>, from: usize, to: usize) -> (value: Option<i64>)
    requires
        from <= to <= chars.len(),
    ensures
        match value {
            Some(n) => integer_literal(chars@.subrange(from as int, to as int)) == Some(n as int),
            None => integer_literal(chars@.subrange(from as int, to as int)) is None,
        },
{
    let ghost digits = chars@.subrange(from as int, to as int);
    if from == to {
        return None;
    }
    let mut value: i64 = 0;
    let mut i: usize = from;
    while i < to
        invariant
            from <= i <= to <= chars.len(),
            digits == chars@.subrange(from as int, to as int),
            all_digits(digits.subrange(0, i - from)),
            0 <= value,
            value == decimal_value(digits.subrange(0, i - from)),
        decreases to - i,
    {
        let c = chars[i];
        assert(digits[i - from] == c);
        if !digit(c) {
            return None;
        }
        let d: i64 = (c as u32 - '0' as u32) as i64;
        proof {
            let longer = digits.subrange(0, i - from + 1);
            assert(longer.drop_last() =~= digits.subrange(0, i - from));
            assert(longer.last() == c);
            assert forall|k: int| 0 <= k < longer.len() implies is_digit(#[trigger] longer[k]) by {
                if k < i - from {
                    assert(digits.subrange(0, i - from)[k] == longer[k]);
                }
            }
            if all_digits(digits) {
                lemma_decimal_value_prefix(digits, i - from + 1);
            }
        }
        if value > (i64::MAX - d) / 10 {
            return None;
        }
        value = value * 10 + d;
        i += 1;
    }
    assert(digits.subrange(0, to - from) =~= digits);
    Some(value)
}

} // verus!
