//! What the digits of a numeric literal stand for.

use vstd::prelude::*;
use crate::ascii::{
    ascii_chars, digit_of, digit_value, is_digit, is_float_byte, is_radix, MINUS, UNDERSCORE, ZERO,
};

verus! {

/// The number that a run of digits of the given radix stands for, most
/// significant digit first. Underscores are passed over. `None` where a
/// byte is neither a digit of the radix nor an underscore.
pub open spec fn digits_value(digits: Seq<u8>, radix: int) -> Option<int>
    decreases digits.len(),
{
    if digits.len() == 0 {
        Some(0)
    } else {
        match digits_value(digits.drop_last(), radix) {
            None => None,
            Some(high) => if digits.last() == UNDERSCORE {
                Some(high)
            } else {
                match digit_value(digits.last(), radix) {
                    Some(low) => Some(high * radix + low),
                    None => None,
                }
            },
        }
    }
}

/// The bytes of `text` that are not underscores, in order.
pub open spec fn without_underscores(text: Seq<u8>) -> Seq<u8>
    decreases text.len(),
{
    if text.len() == 0 {
        text
    } else if text.last() == UNDERSCORE {
        without_underscores(text.drop_last())
    } else {
        without_underscores(text.drop_last()).push(text.last())
    }
}

/// Every byte of `text` may stand in a float literal.
pub open spec fn is_float_text(text: Seq<u8>) -> bool {
    forall|i: int| 0 <= i < text.len() ==> is_float_byte(#[trigger] text[i])
}

/// The decimal digits of `n`, most significant first, as ASCII bytes.
pub open spec fn decimal_digits(n: nat) -> Seq<u8>
    decreases n,
{
    if n < 10 {
        seq![(0x30 + n) as u8]
    } else {
        decimal_digits(n / 10).push((0x30 + n % 10) as u8)
    }
}

/// The decimal numeral of `n` as text.
pub open spec fn decimal_chars(n: nat) -> Seq<char> {
    ascii_chars(decimal_digits(n))
}

/// The decimal numeral of an integer: a minus sign where it is negative,
/// then the digits of its magnitude.
pub open spec fn numeral(n: int) -> Seq<u8> {
    if n < 0 {
        seq![MINUS] + decimal_digits((-n) as nat)
    } else {
        decimal_digits(n as nat)
    }
}

/// A decimal numeral is made of digits, at least one, and begins with `0`
/// only where it stands for zero.
pub proof fn lemma_decimal_digits_are_digits(n: nat)
    ensures
        decimal_digits(n).len() >= 1,
        forall|i: int|
            0 <= i < decimal_digits(n).len() ==> is_digit(#[trigger] decimal_digits(n)[i]),
        n > 0 ==> decimal_digits(n)[0] != ZERO,
    decreases n,
{
    if n >= 10 {
        lemma_decimal_digits_are_digits(n / 10);
    }
}

/// A decimal numeral stands for the number it was written for.
pub proof fn lemma_decimal_digits_value(n: nat)
    ensures
        digits_value(decimal_digits(n), 10) == Some(n as int),
    decreases n,
{
    let digits = decimal_digits(n);
    if n >= 10 {
        lemma_decimal_digits_value(n / 10);
        assert(digits.drop_last() =~= decimal_digits(n / 10));
        assert(digits.last() == (0x30 + n % 10) as u8);
        assert(digit_value(digits.last(), 10) == Some((n % 10) as int));
        assert((n / 10) * 10 + n % 10 == n);
    } else {
        assert(digits.drop_last() =~= Seq::<u8>::empty());
        assert(digits.last() == (0x30 + n) as u8);
        assert(digit_value(digits.last(), 10) == Some(n as int));
        assert(digits_value(digits.drop_last(), 10) == Some(0int));
    }
}

/// The outcome of reading a run of digits into a machine integer.
pub enum Decoded {
    /// The number.
    Value(i64),
    /// The digits are in order but the number does not fit.
    Overflow,
    /// A byte is neither a digit of the radix nor an underscore.
    Malformed,
}

/// What `decode` owes for a run of digits: the number with the given sign
/// if the digits are in order and it fits in an `i64`.
pub open spec fn decoded(digits: Seq<u8>, radix: int, negative: bool) -> Decoded {
    match digits_value(digits, radix) {
        None => Decoded::Malformed,
        Some(magnitude) => {
            let number = if negative {
                -magnitude
            } else {
                magnitude
            };
            if i64::MIN <= number <= i64::MAX {
                Decoded::Value(number as i64)
            } else {
                Decoded::Overflow
            }
        },
    }
}

pub proof fn lemma_digits_value_nonnegative(digits: Seq<u8>, radix: int)
    requires
        is_radix(radix),
    ensures
        digits_value(digits, radix) matches Some(v) ==> v >= 0,
    decreases digits.len(),
{
    if digits.len() > 0 {
        lemma_digits_value_nonnegative(digits.drop_last(), radix);
        if let Some(high) = digits_value(digits.drop_last(), radix) {
            assert(high * radix >= 0) by (nonlinear_arith)
                requires
                    high >= 0,
                    radix >= 0,
            ;
        }
    }
}

/// Reads the digits `bytes[from..to]` of the given radix, by multiplying
/// and adding, towards the negative side where `negative` is set, so that
/// `i64::MIN` can be read.
pub fn decode(bytes: &[u8], from: usize, to: usize, radix: u8, negative: bool) -> (r: Decoded)
    requires
        from <= to <= bytes@.len(),
        is_radix(radix as int),
    ensures
        r == decoded(bytes@.subrange(from as int, to as int), radix as int, negative),
{
    let mut total: i64 = 0;
    let mut fits = true;
    let mut at = from;
    while at < to
        invariant
            from <= at <= to <= bytes@.len(),
            is_radix(radix as int),
            digits_value(bytes@.subrange(from as int, at as int), radix as int) matches Some(v) && (
            if fits {
                total == (if negative {
                    -v
                } else {
                    v
                })
            } else if negative {
                -v < i64::MIN
            } else {
                v > i64::MAX
            }),
        decreases to - at,
    {
        let ghost before = bytes@.subrange(from as int, at as int);
        let ghost now = bytes@.subrange(from as int, at + 1);
        proof {
            assert(now.drop_last() =~= before);
            assert(now.last() == bytes@[at as int]);
            lemma_digits_value_nonnegative(before, radix as int);
        }
        let ghost high = digits_value(before, radix as int)->0;
        let b = bytes[at];
        if b != UNDERSCORE {
            match digit_of(b, radix) {
                None => {
                    proof {
                        lemma_malformed_prefix(
                            bytes@.subrange(from as int, to as int),
                            at + 1 - from,
                            radix as int,
                        );
                        assert(bytes@.subrange(from as int, to as int).take(at + 1 - from)
                            =~= now);
                    }
                    return Decoded::Malformed;
                },
                Some(low) => {
                    proof {
                        assert(high * radix >= high) by (nonlinear_arith)
                            requires
                                high >= 0,
                                radix >= 2,
                        ;
                    }
                    if fits {
                        let scaled = total.checked_mul(radix as i64);
                        let next = match scaled {
                            Some(s) => if negative {
                                s.checked_sub(low as i64)
                            } else {
                                s.checked_add(low as i64)
                            },
                            None => None,
                        };
                        proof {
                            if negative {
                                assert(-high * radix == -(high * radix)) by (nonlinear_arith);
                            }
                        }
                        match next {
                            Some(n) => {
                                total = n;
                            },
                            None => {
                                fits = false;
                            },
                        }
                    }
                },
            }
        }
        at += 1;
    }
    proof {
        assert(bytes@.subrange(from as int, at as int) == bytes@.subrange(from as int, to as int));
    }
    if fits {
        Decoded::Value(total)
    } else {
        Decoded::Overflow
    }
}

/// A run of digits with a malformed prefix is malformed.
pub proof fn lemma_malformed_prefix(digits: Seq<u8>, n: int, radix: int)
    requires
        0 <= n <= digits.len(),
        digits_value(digits.take(n), radix) is None,
    ensures
        digits_value(digits, radix) is None,
    decreases digits.len() - n,
{
    if n < digits.len() {
        assert(digits.take(n + 1).drop_last() =~= digits.take(n));
        lemma_malformed_prefix(digits, n + 1, radix);
    } else {
        assert(digits.take(n) =~= digits);
    }
}

} // verus!
