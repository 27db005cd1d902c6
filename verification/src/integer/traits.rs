//! The unsigned integer types whose digits can be compared, and the digit
//! arithmetic on them.

use super::digits::{
    aligned, digit_count, digits, floor_log, lemma_below_next_power, lemma_count_bound,
    lemma_count_of_digit, lemma_count_of_multiple, lemma_log_grows, lemma_log_is_digit_count,
    lemma_power_grows, lemma_power_square, lemma_power_unfold, lemma_powers_of_ten,
    lemma_quotient_of_less, lemma_quotient_smaller, lemma_two_to_128, power,
};
use vstd::arithmetic::div_mod::lemma_div_denominator;
use vstd::prelude::*;

verus! {

/// A trait for the integer types whose digits [`cmp_int`](super::cmp_int)
/// compares: the unsigned primitive integers.
///
/// The trait is sealed: no type outside of this crate can implement it.
pub trait Integer: Sealed {

}

/// What the digit comparison asks of an integer type. The arithmetic on
/// digits is written once, over a handful of primitive operations that each
/// type supplies.
pub trait Sealed: Copy {
    /// The number that a value holds.
    spec fn value(self) -> nat;

    /// The largest number that the type holds.
    spec fn limit() -> nat;

    /// The type holds at least a byte and at most 128 bits.
    proof fn lemma_limit()
        ensures
            255 <= Self::limit() < power(2, 128),
    ;

    /// No value exceeds the limit of its type.
    proof fn lemma_value(self)
        ensures
            self.value() <= Self::limit(),
    ;

    fn copy(&self) -> (r: Self)
        ensures
            r == *self,
    ;

    fn eq(self, other: Self) -> (r: bool)
        ensures
            r == (self.value() == other.value()),
    ;

    fn lt(self, other: Self) -> (r: bool)
        ensures
            r == (self.value() < other.value()),
    ;

    /// Whether the type holds `base`.
    fn fits(base: u32) -> (r: bool)
        ensures
            r == (base <= Self::limit()),
    ;

    /// `base` as a value of the type.
    fn from_u32(base: u32) -> (r: Self)
        requires
            base <= Self::limit(),
        ensures
            r.value() == base,
    ;

    /// The value in the widest of the types.
    fn widen(self) -> (r: u128)
        ensures
            r == self.value(),
    ;

    /// `self / by`, rounded down.
    fn quotient(self, by: Self) -> (r: Self)
        requires
            by.value() > 0,
        ensures
            r.value() == self.value() / by.value(),
    ;

    /// What `self / by` leaves over.
    fn rem_small(self, by: u8) -> (r: u8)
        requires
            by > 0,
        ensures
            r == self.value() % (by as nat),
    ;

    /// `self * self`, where the type holds it.
    fn square(self) -> (r: Option<Self>)
        ensures
            match r {
                Some(product) => product.value() == self.value() * self.value(),
                None => self.value() * self.value() > Self::limit(),
            },
    ;

    /// The number of digits of `self` in `base`, found by dividing by `base`
    /// until nothing is left: none for zero. To the base one, where division
    /// leaves a number as it is, no digit is counted. It is always `Some`.
    fn checked_log(self, base: Self) -> (r: Option<u32>)
        requires
            base.value() > 0,
        ensures
            r matches Some(x) && x == (if base.value() >= 2 {
                digit_count(self.value(), base.value())
            } else {
                0
            }) && x <= 128,
    {
        proof {
            Self::lemma_limit();
            self.lemma_value();
        }
        if base.lt(Self::from_u32(2)) {
            return Some(0);
        }
        proof {
            lemma_count_bound(self.value(), base.value(), 128);
        }
        let zero = Self::from_u32(0);
        let mut rest = self;
        let mut x: u32 = 0;
        while !rest.eq(zero)
            invariant
                base.value() >= 2,
                zero.value() == 0,
                x + digit_count(rest.value(), base.value()) == digit_count(
                    self.value(),
                    base.value(),
                ),
                digit_count(self.value(), base.value()) <= 128,
            decreases rest.value(),
        {
            proof {
                lemma_quotient_smaller(rest.value(), base.value());
            }
            rest = rest.quotient(base);
            x = x + 1;
        }
        Some(x)
    }

    /// The number of digits of `self` in `base`: none for zero, and none
    /// counted to the base one.
    fn log(self, base: u32) -> (r: u32)
        requires
            base > 0,
        ensures
            r == (if base >= 2 {
                digit_count(self.value(), base as nat)
            } else {
                0
            }),
            r <= 128,
    {
        if Self::fits(base) {
            if let Some(x) = self.checked_log(Self::from_u32(base)) {
                x
            } else {
                0
            }
        } else {
            // Every value of the type is below the base: a single digit,
            // where it is not zero.
            proof {
                Self::lemma_limit();
                self.lemma_value();
                lemma_count_of_digit(self.value(), base as nat);
            }
            if self.eq(Self::from_u32(0)) {
                0
            } else {
                1
            }
        }
    }

    /// The number of decimal digits of `self`: none for zero. It is always
    /// `Some`.
    fn checked_log10(self) -> (r: Option<u32>)
        ensures
            r matches Some(x) && x == digit_count(self.value(), 10) && x <= 128,
    ;

    /// The number of decimal digits of `self`: none for zero.
    fn log10(self) -> (r: u32)
        ensures
            r == digit_count(self.value(), 10),
            r <= 128,
    {
        if let Some(x) = self.checked_log10() {
            x
        } else {
            0
        }
    }

    /// Calculates `self / base.pow(exp)` by repeated squaring. No power is
    /// formed that the type does not hold: where one would be, it exceeds
    /// `self`, and the quotient is zero.
    fn invpow(self, base: u32, exp: u32) -> (r: Self)
        requires
            base > 0,
        ensures
            r.value() == self.value() / power(base as nat, exp as nat),
    {
        proof {
            Self::lemma_limit();
            self.lemma_value();
            lemma_power_unfold(base as nat, 0);
        }
        if exp == 0 {
            return self;
        }
        proof {
            lemma_power_grows(base as nat, 1, exp as nat);
            lemma_power_unfold(base as nat, 1);
        }
        if !Self::fits(base) {
            proof {
                lemma_quotient_of_less(self.value(), power(base as nat, exp as nat));
            }
            return Self::from_u32(0);
        }
        let mut rest = self;
        let mut b = Self::from_u32(base);
        let mut e: u32 = exp;
        while e > 1
            invariant
                e >= 1,
                b.value() >= 1,
                rest.value() / power(b.value(), e as nat) == self.value() / power(
                    base as nat,
                    exp as nat,
                ),
            decreases e,
        {
            let ghost before = rest.value();
            let ghost half = (e / 2) as nat;
            proof {
                rest.lemma_value();
                lemma_power_square(b.value(), half);
                lemma_power_grows(b.value(), 2, e as nat);
                lemma_power_unfold(b.value(), 2 * half);
                lemma_power_unfold(b.value(), 0);
                lemma_power_unfold(b.value(), 1);
            }
            let squared = match b.square() {
                Some(squared) => squared,
                None => {
                    proof {
                        lemma_quotient_of_less(before, power(b.value(), e as nat));
                    }
                    return Self::from_u32(0);
                },
            };
            if e % 2 == 1 {
                rest = rest.quotient(b);
                proof {
                    lemma_div_denominator(
                        before as int,
                        b.value() as int,
                        power(b.value(), 2 * half) as int,
                    );
                }
            }
            e = e / 2;
            proof {
                assert(b.value() * b.value() >= 1) by (nonlinear_arith)
                    requires
                        b.value() >= 1,
                ;
            }
            b = squared;
        }
        proof {
            lemma_power_unfold(b.value(), 0);
        }
        rest.quotient(b)
    }
}

/// The digits of `x` in `radix`, most significant first.
pub open spec fn digits_of<T: Sealed>(x: T, radix: u32) -> Seq<nat> {
    digits(x.value(), radix as nat)
}

/// `large` without as many of its last digits in `radix` as it has more than
/// `small`.
pub open spec fn aligned_of<T: Sealed>(large: T, small: T, radix: u32) -> nat {
    aligned(large.value(), small.value(), radix as nat)
}

/// The number of digits that the digit metric of a type counts: none in
/// radix one.
pub open spec fn counted(n: nat, radix: u32) -> nat {
    if radix >= 2 {
        digit_count(n, radix as nat)
    } else {
        0
    }
}

/// The larger of two numbers has no fewer digits than the smaller, and
/// dividing it by the power of what they differ by aligns the two: the
/// quotient is below the smaller number exactly if the larger number, cut
/// down to as many digits as the smaller one has, is. Where the smaller number
/// is zero, which has no digit, the quotient is zero, and neither is below.
pub proof fn lemma_alignment<T: Sealed>(large: T, small: T, radix: u32)
    requires
        radix >= 1,
        small.value() < large.value(),
    ensures
        counted(small.value(), radix) <= counted(large.value(), radix),
        (large.value() / power(
            radix as nat,
            (counted(large.value(), radix) - counted(small.value(), radix)) as nat,
        ) < small.value()) == (aligned_of(large, small, radix) < small.value()),
{
    let r = radix as nat;
    lemma_log_grows(small.value(), large.value(), r);
    if r >= 2 {
        lemma_log_is_digit_count(large.value(), r);
        if small.value() > 0 {
            lemma_log_is_digit_count(small.value(), r);
        } else {
            lemma_below_next_power(large.value(), r);
            lemma_quotient_of_less(large.value(), power(r, floor_log(large.value(), r) + 1));
        }
    }
}

impl Sealed for u8 {
    open spec fn value(self) -> nat {
        self as nat
    }

    open spec fn limit() -> nat {
        0xff
    }

    proof fn lemma_limit() {
        lemma_two_to_128();
        assert(Self::limit() == 0xff);
    }

    proof fn lemma_value(self) {
    }

    fn copy(&self) -> (r: Self) {
        *self
    }

    fn eq(self, other: Self) -> (r: bool) {
        self == other
    }

    fn lt(self, other: Self) -> (r: bool) {
        self < other
    }

    fn fits(base: u32) -> (r: bool) {
        base <= 0xff
    }

    fn from_u32(base: u32) -> (r: Self) {
        base as u8
    }

    fn widen(self) -> (r: u128) {
        self as u128
    }

    fn quotient(self, by: Self) -> (r: Self) {
        self / by
    }

    fn rem_small(self, by: u8) -> (r: u8) {
        self % by
    }

    fn square(self) -> (r: Option<Self>) {
        self.checked_mul(self)
    }

    fn checked_log10(self) -> (r: Option<u32>) {
        Sealed::checked_log(self, 10)
    }
}

impl Integer for u8 {

}

impl Sealed for u16 {
    open spec fn value(self) -> nat {
        self as nat
    }

    open spec fn limit() -> nat {
        0xffff
    }

    proof fn lemma_limit() {
        lemma_two_to_128();
        assert(Self::limit() == 0xffff);
    }

    proof fn lemma_value(self) {
    }

    fn copy(&self) -> (r: Self) {
        *self
    }

    fn eq(self, other: Self) -> (r: bool) {
        self == other
    }

    fn lt(self, other: Self) -> (r: bool) {
        self < other
    }

    fn fits(base: u32) -> (r: bool) {
        base <= 0xffff
    }

    fn from_u32(base: u32) -> (r: Self) {
        base as u16
    }

    fn widen(self) -> (r: u128) {
        self as u128
    }

    fn quotient(self, by: Self) -> (r: Self) {
        self / by
    }

    fn rem_small(self, by: u8) -> (r: u8) {
        (self % (by as u16)) as u8
    }

    fn square(self) -> (r: Option<Self>) {
        self.checked_mul(self)
    }

    fn checked_log10(self) -> (r: Option<u32>) {
        Sealed::checked_log(self, 10)
    }
}

impl Integer for u16 {

}

impl Sealed for u32 {
    open spec fn value(self) -> nat {
        self as nat
    }

    open spec fn limit() -> nat {
        0xffff_ffff
    }

    proof fn lemma_limit() {
        lemma_two_to_128();
        assert(Self::limit() == 0xffff_ffff);
    }

    proof fn lemma_value(self) {
    }

    fn copy(&self) -> (r: Self) {
        *self
    }

    fn eq(self, other: Self) -> (r: bool) {
        self == other
    }

    fn lt(self, other: Self) -> (r: bool) {
        self < other
    }

    fn fits(base: u32) -> (r: bool) {
        true
    }

    fn from_u32(base: u32) -> (r: Self) {
        base
    }

    fn widen(self) -> (r: u128) {
        self as u128
    }

    fn quotient(self, by: Self) -> (r: Self) {
        self / by
    }

    fn rem_small(self, by: u8) -> (r: u8) {
        (self % (by as u32)) as u8
    }

    fn square(self) -> (r: Option<Self>) {
        self.checked_mul(self)
    }

    /// Takes five digits off at once, where there are that many, and leaves
    /// the rest, which may still exceed 16 bits, to the division loop.
    fn checked_log10(self) -> (r: Option<u32>) {
        let mut rest: u32 = self;
        let x: u32 = if rest >= 100_000 {
            rest = rest / 100_000;
            5
        } else {
            0
        };
        proof {
            lemma_two_to_128();
            lemma_count_bound(self as nat, 10, 128);
            lemma_powers_of_ten();
            if x == 5 {
                lemma_count_of_multiple(self as nat, 10, 5);
            }
        }
        Some(Sealed::log(rest, 10) + x)
    }
}

impl Integer for u32 {

}

impl Sealed for u64 {
    open spec fn value(self) -> nat {
        self as nat
    }

    open spec fn limit() -> nat {
        0xffff_ffff_ffff_ffff
    }

    proof fn lemma_limit() {
        lemma_two_to_128();
        assert(Self::limit() == 0xffff_ffff_ffff_ffff);
    }

    proof fn lemma_value(self) {
    }

    fn copy(&self) -> (r: Self) {
        *self
    }

    fn eq(self, other: Self) -> (r: bool) {
        self == other
    }

    fn lt(self, other: Self) -> (r: bool) {
        self < other
    }

    fn fits(base: u32) -> (r: bool) {
        true
    }

    fn from_u32(base: u32) -> (r: Self) {
        base as u64
    }

    fn widen(self) -> (r: u128) {
        self as u128
    }

    fn quotient(self, by: Self) -> (r: Self) {
        self / by
    }

    fn rem_small(self, by: u8) -> (r: u8) {
        (self % (by as u64)) as u8
    }

    fn square(self) -> (r: Option<Self>) {
        self.checked_mul(self)
    }

    /// Takes ten digits off at once, where there are that many, and leaves
    /// the rest, which may still exceed 32 bits, to the division loop.
    fn checked_log10(self) -> (r: Option<u32>) {
        let mut rest: u64 = self;
        let x: u32 = if rest >= 10_000_000_000 {
            rest = rest / 10_000_000_000;
            10
        } else {
            0
        };
        proof {
            lemma_two_to_128();
            lemma_count_bound(self as nat, 10, 128);
            lemma_powers_of_ten();
            if x == 10 {
                lemma_count_of_multiple(self as nat, 10, 10);
            }
        }
        Some(Sealed::log(rest, 10) + x)
    }
}

impl Integer for u64 {

}

impl Sealed for u128 {
    open spec fn value(self) -> nat {
        self as nat
    }

    open spec fn limit() -> nat {
        0xffff_ffff_ffff_ffff_ffff_ffff_ffff_ffff
    }

    proof fn lemma_limit() {
        lemma_two_to_128();
        assert(Self::limit() == 0xffff_ffff_ffff_ffff_ffff_ffff_ffff_ffff);
    }

    proof fn lemma_value(self) {
    }

    fn copy(&self) -> (r: Self) {
        *self
    }

    fn eq(self, other: Self) -> (r: bool) {
        self == other
    }

    fn lt(self, other: Self) -> (r: bool) {
        self < other
    }

    fn fits(base: u32) -> (r: bool) {
        true
    }

    fn from_u32(base: u32) -> (r: Self) {
        base as u128
    }

    fn widen(self) -> (r: u128) {
        self
    }

    fn quotient(self, by: Self) -> (r: Self) {
        self / by
    }

    fn rem_small(self, by: u8) -> (r: u8) {
        (self % (by as u128)) as u8
    }

    fn square(self) -> (r: Option<Self>) {
        self.checked_mul(self)
    }

    /// Takes thirty-two digits off at once, or else sixteen, where there are
    /// that many, and leaves the rest to the count of a narrower type.
    fn checked_log10(self) -> (r: Option<u32>) {
        let mut rest: u128 = self;
        proof {
            lemma_two_to_128();
            lemma_count_bound(self as nat, 10, 128);
            lemma_powers_of_ten();
        }
        if rest >= 100_000_000_000_000_000_000_000_000_000_000 {
            rest = rest / 100_000_000_000_000_000_000_000_000_000_000;
            proof {
                lemma_count_of_multiple(self as nat, 10, 32);
            }
            assert(rest <= u32::MAX);
            return Some(Sealed::log(rest as u32, 10) + 32);
        }
        let x: u32 = if rest >= 10_000_000_000_000_000 {
            rest = rest / 10_000_000_000_000_000;
            16
        } else {
            0
        };
        proof {
            if x == 16 {
                lemma_count_of_multiple(self as nat, 10, 16);
            }
        }
        assert(rest <= u64::MAX);
        Some(Sealed::log(rest as u64, 10) + x)
    }
}

impl Integer for u128 {

}

impl Sealed for usize {
    open spec fn value(self) -> nat {
        self as nat
    }

    open spec fn limit() -> nat {
        usize::MAX as nat
    }

    proof fn lemma_limit() {
        lemma_two_to_128();
        assert(Self::limit() == usize::MAX as nat);
    }

    proof fn lemma_value(self) {
    }

    fn copy(&self) -> (r: Self) {
        *self
    }

    fn eq(self, other: Self) -> (r: bool) {
        self == other
    }

    fn lt(self, other: Self) -> (r: bool) {
        self < other
    }

    fn fits(base: u32) -> (r: bool) {
        base as u64 <= usize::MAX as u64
    }

    fn from_u32(base: u32) -> (r: Self) {
        base as usize
    }

    fn widen(self) -> (r: u128) {
        self as u128
    }

    fn quotient(self, by: Self) -> (r: Self) {
        self / by
    }

    fn rem_small(self, by: u8) -> (r: u8) {
        (self % (by as usize)) as u8
    }

    fn square(self) -> (r: Option<Self>) {
        self.checked_mul(self)
    }

    fn checked_log10(self) -> (r: Option<u32>) {
        Sealed::checked_log10(self as u64)
    }
}

impl Integer for usize {

}

} // verus!
