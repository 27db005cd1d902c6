//! Lexicographic comparison of the digits of integers.
//!
//! Two numbers are compared as their notations in some radix would be, digit
//! by digit from the most significant, without writing either down: the larger
//! number is cut down to as many digits as the smaller one has, and the two
//! are then compared as numbers.

pub mod digits;
pub mod order;
pub(crate) mod traits;

pub use self::traits::{aligned_of, digits_of, lemma_alignment, Integer};

use self::digits::wide;
use self::order::{
    digit_order, lemma_aligned_order, lemma_digit_order_reversed, lemma_digit_order_same,
    lemma_unary_order, number_order,
};
use core::cmp::Ordering;
use vstd::prelude::*;

verus! {

/// Lexicographically compares the digits of two integers in `radix`.
///
/// The result is the order of the two digit sequences, each found by repeated
/// division and read from the most significant digit. In radix one this is
/// the order of the numbers. A radix above 36 is a radix like any other: a
/// greater digit compares greater.
pub fn cmp_int<T: Integer>(lhs: T, rhs: T, radix: u32) -> (r: Ordering)
    requires
        radix != 0,
    ensures
        r == digit_order(digits_of(lhs, radix), digits_of(rhs, radix)),
        radix == 1 ==> r == number_order(lhs.value(), rhs.value()),
{
    proof {
        if radix == 1 {
            lemma_unary_order(lhs.value(), rhs.value(), 1);
        }
    }
    let reversed = lhs.copy().lt(rhs.copy());
    if !reversed && lhs.copy().eq(rhs.copy()) {
        proof {
            lemma_digit_order_same(digits_of(lhs, radix));
        }
        return Ordering::Equal;
    }
    let (large, small) = if reversed {
        (rhs, lhs)
    } else {
        (lhs, rhs)
    };
    proof {
        lemma_alignment(large, small, radix);
        lemma_order_of(large, small, radix);
        lemma_digit_order_reversed(digits_of(large, radix), digits_of(small, radix));
    }
    // With as many digits as `small`, `large` compares by its number as it
    // does by its digits; where the two are then equal, `large` is the longer.
    // Against zero, which has no digit, nothing is left of `large`.
    let cut = large.copy().invpow(radix, large.log(radix) - small.log(radix));
    if cut.lt(small) != reversed {
        Ordering::Less
    } else {
        Ordering::Greater
    }
}

/// Lexicographically compares the digits of two integers in their decimal
/// representation.
pub fn cmp_dec<T: Integer>(lhs: T, rhs: T) -> (r: Ordering)
    ensures
        r == digit_order(digits_of(lhs, 10), digits_of(rhs, 10)),
{
    let reversed = lhs.copy().lt(rhs.copy());
    if !reversed && lhs.copy().eq(rhs.copy()) {
        proof {
            lemma_digit_order_same(digits_of(lhs, 10));
        }
        return Ordering::Equal;
    }
    let (large, small) = if reversed {
        (rhs, lhs)
    } else {
        (lhs, rhs)
    };
    proof {
        lemma_alignment(large, small, 10);
        lemma_order_of(large, small, 10);
        lemma_digit_order_reversed(digits_of(large, 10), digits_of(small, 10));
    }
    let cut = large.copy().invpow(10, large.log10() - small.log10());
    if cut.lt(small) != reversed {
        Ordering::Less
    } else {
        Ordering::Greater
    }
}

/// Of two different numbers, the larger comes first in digit order exactly
/// if, aligned with the smaller, it is below it.
proof fn lemma_order_of<T: Integer>(large: T, small: T, radix: u32)
    requires
        radix >= 1,
        small.value() < large.value(),
    ensures
        digit_order(digits_of(large, radix), digits_of(small, radix)) == if aligned_of(
            large,
            small,
            radix,
        ) < small.value() {
            Ordering::Less
        } else {
            Ordering::Greater
        },
{
    lemma_aligned_order(large.value(), small.value(), wide(radix));
}

} // verus!
