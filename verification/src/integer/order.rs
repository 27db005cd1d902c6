//! The lexicographic order of digit sequences, and how it is told from the
//! numbers themselves.

use super::digits::{
    aligned, digits, floor_log, front, gap, lemma_digits_len, lemma_digits_of_quotient,
    lemma_leading_digit, lemma_log_grows, lemma_power_unfold, lemma_quotient_order,
    lemma_quotient_smaller, lemma_unary,
};
use core::cmp::Ordering;
use vstd::prelude::*;

verus! {

/// The order of two numbers.
pub open spec fn number_order(a: nat, b: nat) -> Ordering {
    if a < b {
        Ordering::Less
    } else if a == b {
        Ordering::Equal
    } else {
        Ordering::Greater
    }
}

/// The order seen from the other side.
pub open spec fn reversed(o: Ordering) -> Ordering {
    match o {
        Ordering::Less => Ordering::Greater,
        Ordering::Equal => Ordering::Equal,
        Ordering::Greater => Ordering::Less,
    }
}

/// The lexicographic order of two digit sequences: the first place where they
/// differ decides, and a proper prefix comes before what it is a prefix of.
pub open spec fn digit_order(a: Seq<nat>, b: Seq<nat>) -> Ordering
    decreases a.len(),
{
    if a.len() == 0 {
        if b.len() == 0 {
            Ordering::Equal
        } else {
            Ordering::Less
        }
    } else if b.len() == 0 {
        Ordering::Greater
    } else if a[0] != b[0] {
        number_order(a[0], b[0])
    } else {
        digit_order(a.skip(1), b.skip(1))
    }
}

/// Swapping the two sequences reverses their order.
pub proof fn lemma_digit_order_reversed(a: Seq<nat>, b: Seq<nat>)
    ensures
        digit_order(b, a) == reversed(digit_order(a, b)),
    decreases a.len(),
{
    if a.len() > 0 && b.len() > 0 && a[0] == b[0] {
        lemma_digit_order_reversed(a.skip(1), b.skip(1));
    }
}

/// A sequence is equal to itself.
pub proof fn lemma_digit_order_same(a: Seq<nat>)
    ensures
        digit_order(a, a) == Ordering::Equal,
    decreases a.len(),
{
    if a.len() > 0 {
        lemma_digit_order_same(a.skip(1));
    }
}

/// Between sequences of one length, a last digit decides only where all
/// before it agree.
proof fn lemma_digit_order_push(p: Seq<nat>, q: Seq<nat>, x: nat, y: nat)
    requires
        p.len() == q.len(),
    ensures
        digit_order(p.push(x), q.push(y)) == if digit_order(p, q) == Ordering::Equal {
            number_order(x, y)
        } else {
            digit_order(p, q)
        },
    decreases p.len(),
{
    let px = p.push(x);
    let qy = q.push(y);
    if p.len() == 0 {
        assert(px.skip(1).len() == 0);
        assert(qy.skip(1).len() == 0);
        assert(digit_order(px.skip(1), qy.skip(1)) == Ordering::Equal);
    } else {
        assert(px.skip(1) == p.skip(1).push(x));
        assert(qy.skip(1) == q.skip(1).push(y));
        lemma_digit_order_push(p.skip(1), q.skip(1), x, y);
    }
}

/// What the first digits of `a` say against a sequence `b` of as many digits
/// holds of the whole of `a`, and where they say nothing the longer is greater.
proof fn lemma_digit_order_front(a: Seq<nat>, b: Seq<nat>)
    requires
        b.len() <= a.len(),
    ensures
        digit_order(front(a, b.len()), b) != Ordering::Equal ==> digit_order(a, b) == digit_order(
            front(a, b.len()),
            b,
        ),
        digit_order(front(a, b.len()), b) == Ordering::Equal && a.len() > b.len() ==> digit_order(
            a,
            b,
        ) == Ordering::Greater,
    decreases b.len(),
{
    if b.len() > 0 {
        assert(front(a, b.len()).skip(1) == front(a.skip(1), b.skip(1).len()));
        lemma_digit_order_front(a.skip(1), b.skip(1));
    }
}

/// Numbers with equally many digits are ordered as their digit sequences are.
proof fn lemma_same_length_order(a: nat, b: nat, radix: nat)
    requires
        radix >= 2,
        floor_log(a, radix) == floor_log(b, radix),
    ensures
        digit_order(digits(a, radix), digits(b, radix)) == number_order(a, b),
    decreases a,
{
    if a < radix {
        assert(b < radix);
        let da = digits(a, radix);
        let db = digits(b, radix);
        assert(da.skip(1).len() == 0);
        assert(db.skip(1).len() == 0);
        assert(digit_order(da.skip(1), db.skip(1)) == Ordering::Equal);
    } else {
        assert(b >= radix);
        lemma_quotient_smaller(a, radix);
        lemma_same_length_order(a / radix, b / radix, radix);
        lemma_digits_len(a / radix, radix);
        lemma_digits_len(b / radix, radix);
        lemma_digit_order_push(
            digits(a / radix, radix),
            digits(b / radix, radix),
            a % radix,
            b % radix,
        );
        lemma_quotient_order(a, b, radix);
        lemma_quotient_order(b, a, radix);
    }
}

/// In radix one the notations are ordered as the numbers are.
pub proof fn lemma_unary_order(a: nat, b: nat, radix: nat)
    requires
        radix < 2,
    ensures
        digit_order(digits(a, radix), digits(b, radix)) == number_order(a, b),
    decreases a,
{
    lemma_unary(a, radix);
    lemma_unary(b, radix);
    if a > 0 && b > 0 {
        lemma_unary_order(sub1(a), sub1(b), radix);
    }
}

spec fn sub1(n: nat) -> nat {
    if n > 0 {
        (n - 1) as nat
    } else {
        0
    }
}

/// The heart of the arithmetic comparison: of two different numbers, the
/// larger one comes first in digit order exactly if, cut down to as many
/// digits as the smaller one has, it is below the smaller one.
pub proof fn lemma_aligned_order(large: nat, small: nat, radix: nat)
    requires
        radix >= 1,
        small < large,
    ensures
        digit_order(digits(large, radix), digits(small, radix)) == if aligned(large, small, radix)
            < small {
            Ordering::Less
        } else {
            Ordering::Greater
        },
{
    lemma_log_grows(small, large, radix);
    let extra = floor_log(large, radix) - floor_log(small, radix);
    if radix < 2 {
        lemma_unary_order(large, small, radix);
        lemma_power_unfold(radix, 0);
        assert(large / 1 == large);
    } else {
        let cut = aligned(large, small, radix);
        lemma_digits_of_quotient(large, radix, gap(large, small, radix));
        lemma_same_length_order(cut, small, radix);
        lemma_digits_len(large, radix);
        lemma_digits_len(small, radix);
        lemma_digit_order_front(digits(large, radix), digits(small, radix));
        assert(digits(cut, radix) == front(digits(large, radix), digits(small, radix).len()));
        if extra == 0 {
            lemma_power_unfold(radix, 0);
            assert(large / 1 == large);
        }
    }
}

/// The digits of `n` where zero is written with no digit at all.
pub open spec fn digits_to_zero(n: nat, radix: nat) -> Seq<nat> {
    if n == 0 {
        Seq::empty()
    } else {
        digits(n, radix)
    }
}

/// Whether zero is written as the digit `0` or with no digit at all makes no
/// difference to the order: no other number begins with the digit `0`.
pub proof fn lemma_zero_has_no_digit(a: nat, b: nat, radix: nat)
    requires
        radix >= 1,
    ensures
        digit_order(digits_to_zero(a, radix), digits_to_zero(b, radix)) == digit_order(
            digits(a, radix),
            digits(b, radix),
        ),
{
    lemma_leading_digit(a, radix);
    lemma_leading_digit(b, radix);
    lemma_digit_order_same(digits(a, radix));
    if radix >= 2 {
        assert(digits(0, radix)[0] == 0);
    } else {
        assert(digits(0, radix).len() == 0);
    }
}

/// Only a number itself has its digits.
pub proof fn lemma_digit_order_equal(a: nat, b: nat, radix: nat)
    requires
        radix >= 1,
    ensures
        digit_order(digits(a, radix), digits(b, radix)) == Ordering::Equal <==> a == b,
{
    if a < b {
        lemma_aligned_order(b, a, radix);
        lemma_digit_order_reversed(digits(b, radix), digits(a, radix));
    } else if b < a {
        lemma_aligned_order(a, b, radix);
    } else {
        lemma_digit_order_same(digits(a, radix));
    }
}

} // verus!
