//! The positional notation of natural numbers, as a mathematical model.
//!
//! A number is written with its most significant digit first. In radix one a
//! number `n` is written as `n` marks, so that the order of the notations is
//! the order of the numbers.

use vstd::arithmetic::div_mod::{
    lemma_div_denominator, lemma_div_is_ordered, lemma_fundamental_div_mod,
};
use vstd::arithmetic::power::{
    lemma_pow0, lemma_pow_multiplies, lemma_pow_positive, lemma_square_is_pow2, pow,
};
use vstd::arithmetic::power2::{lemma2_to64, lemma_pow2, lemma_pow2_adds, pow2};
use vstd::prelude::*;

verus! {

/// `base` raised to `exp`.
pub open spec fn power(base: nat, exp: nat) -> nat {
    pow(base as int, exp) as nat
}

/// The logarithm of `n` to `radix`, rounded down: how often `n` can be divided
/// by `radix` before it falls below it, which is one less than the number of
/// digits of a positive `n`. It is zero for zero, and zero where `radix < 2`.
pub open spec fn floor_log(n: nat, radix: nat) -> nat
    decreases n,
    via floor_log_decreases
{
    if radix < 2 || n < radix {
        0
    } else {
        1 + floor_log(n / radix, radix)
    }
}

#[via_fn]
proof fn floor_log_decreases(n: nat, radix: nat) {
    if !(radix < 2 || n < radix) {
        lemma_quotient_smaller(n, radix);
    }
}

/// How often `n` can be divided by `radix` until it is zero: the number of
/// digits of `n`, where zero has none. In radix one it is `n` itself.
pub open spec fn digit_count(n: nat, radix: nat) -> nat
    decreases n,
    via digit_count_decreases
{
    if radix < 2 {
        n
    } else if n == 0 {
        0
    } else {
        1 + digit_count(n / radix, radix)
    }
}

#[via_fn]
proof fn digit_count_decreases(n: nat, radix: nat) {
    if radix >= 2 && n != 0 {
        lemma_quotient_smaller(n, radix);
    }
}

/// The digits of `n` in `radix`, found by repeated division, most significant
/// first. Zero is the single digit `0`; in radix one `n` is `n` marks.
pub open spec fn digits(n: nat, radix: nat) -> Seq<nat>
    decreases n,
    via digits_decreases
{
    if radix < 2 {
        Seq::new(n, |i: int| 1nat)
    } else if n < radix {
        seq![n]
    } else {
        digits(n / radix, radix).push(n % radix)
    }
}

#[via_fn]
proof fn digits_decreases(n: nat, radix: nat) {
    if radix >= 2 && n >= radix {
        lemma_quotient_smaller(n, radix);
    }
}

/// A radix as a natural number.
pub open spec fn wide(radix: u32) -> nat {
    radix as nat
}

/// The first `n` of the digits `a`.
pub open spec fn front(a: Seq<nat>, n: nat) -> Seq<nat> {
    a.take(n as int)
}

/// How many digits `large` has more than `small`.
pub open spec fn gap(large: nat, small: nat, radix: nat) -> nat {
    if floor_log(large, radix) >= floor_log(small, radix) {
        (floor_log(large, radix) - floor_log(small, radix)) as nat
    } else {
        0
    }
}

/// `large` without as many of its last digits as it has more than `small`.
pub open spec fn aligned(large: nat, small: nat, radix: nat) -> nat {
    large / power(radix, gap(large, small, radix))
}

pub proof fn lemma_quotient_smaller(n: nat, radix: nat)
    requires
        radix >= 2,
        n > 0,
    ensures
        n / radix < n,
{
    assert(n / radix < n) by (nonlinear_arith)
        requires
            radix >= 2,
            n > 0,
    ;
}

pub proof fn lemma_power_unfold(base: nat, exp: nat)
    ensures
        power(base, 0) == 1,
        power(base, exp + 1) == base * power(base, exp),
        base > 0 ==> power(base, exp) > 0,
{
    reveal(pow);
    lemma_pow0(base as int);
    if base > 0 {
        lemma_pow_positive(base as int, exp);
        lemma_pow_positive(base as int, exp + 1);
    } else {
        assert(pow(0, exp + 1) == 0 * pow(0, exp));
    }
    assert(pow(base as int, exp + 1) == base * pow(base as int, exp));
    if pow(base as int, exp) < 0 {
        assert(base == 0);
        vstd::arithmetic::power::lemma0_pow(exp);
    }
    assert(base * pow(base as int, exp) >= 0) by (nonlinear_arith)
        requires
            base >= 0,
            pow(base as int, exp) >= 0,
    ;
}

/// A number divided by a larger one is zero.
pub proof fn lemma_quotient_of_less(n: nat, by: nat)
    requires
        n < by,
    ensures
        n / by == 0,
{
    assert(n / by == 0) by (nonlinear_arith)
        requires
            n < by,
    ;
}

/// A larger exponent gives no smaller power.
pub proof fn lemma_power_grows(base: nat, low: nat, high: nat)
    requires
        base >= 1,
        low <= high,
    ensures
        power(base, low) <= power(base, high),
    decreases high - low,
{
    if low < high {
        lemma_power_grows(base, low + 1, high);
        lemma_power_unfold(base, low);
        assert(power(base, low) <= base * power(base, low)) by (nonlinear_arith)
            requires
                base >= 1,
        ;
    }
}

/// The power of a square is the power to twice the exponent.
pub proof fn lemma_power_square(base: nat, exp: nat)
    ensures
        power(base * base, exp) == power(base, 2 * exp),
{
    lemma_square_is_pow2(base as int);
    lemma_pow_multiplies(base as int, 2, exp);
}

/// `2^128`, written out.
pub proof fn lemma_two_to_128()
    ensures
        power(2, 128) == 0x1_0000_0000_0000_0000_0000_0000_0000_0000,
{
    lemma2_to64();
    lemma_pow2_adds(64, 64);
    lemma_pow2(128);
    assert(pow2(64) * pow2(64) == 0x1_0000_0000_0000_0000_0000_0000_0000_0000) by (nonlinear_arith)
        requires
            pow2(64) == 0x1_0000_0000_0000_0000,
    ;
}

/// The powers of ten by which the decimal logarithms take digits off.
pub proof fn lemma_powers_of_ten()
    ensures
        power(10, 5) == 100_000,
        power(10, 10) == 10_000_000_000,
        power(10, 16) == 10_000_000_000_000_000,
        power(10, 32) == 100_000_000_000_000_000_000_000_000_000_000,
{
    lemma_ten_times(0);
    lemma_ten_times(4);
    assert(power(10, 8) == 100_000_000);
    lemma_ten_times(8);
    lemma_ten_times(12);
    assert(power(10, 16) == 10_000_000_000_000_000);
    lemma_ten_times(16);
    lemma_ten_times(20);
    assert(power(10, 24) == 1_000_000_000_000_000_000_000_000);
    lemma_ten_times(24);
    lemma_ten_times(28);
}

/// Four more factors of ten.
proof fn lemma_ten_times(exp: nat)
    ensures
        power(10, 0) == 1,
        power(10, exp + 1) == 10 * power(10, exp),
        power(10, exp + 2) == 100 * power(10, exp),
        power(10, exp + 3) == 1_000 * power(10, exp),
        power(10, exp + 4) == 10_000 * power(10, exp),
{
    lemma_power_unfold(10, exp);
    lemma_power_unfold(10, exp + 1);
    lemma_power_unfold(10, exp + 2);
    lemma_power_unfold(10, exp + 3);
}

/// The logarithm of a number that is at least `radix^k`, told from its
/// quotient by `radix^k`.
pub proof fn lemma_log_of_multiple(n: nat, radix: nat, k: nat)
    requires
        radix >= 2,
        n >= power(radix, k),
    ensures
        floor_log(n, radix) == k + floor_log(n / power(radix, k), radix),
    decreases k,
{
    lemma_power_unfold(radix, 0);
    if k == 0 {
        assert(n / 1 == n);
    } else {
        let j = (k - 1) as nat;
        lemma_power_unfold(radix, j);
        assert(n >= radix && n / radix >= power(radix, j)) by (nonlinear_arith)
            requires
                n >= radix * power(radix, j),
                power(radix, j) > 0,
                radix >= 2,
        ;
        lemma_log_of_multiple(n / radix, radix, j);
        lemma_div_denominator(n as int, radix as int, power(radix, j) as int);
    }
}

/// The logarithm grows with its argument.
pub proof fn lemma_log_grows(a: nat, b: nat, radix: nat)
    requires
        a <= b,
    ensures
        floor_log(a, radix) <= floor_log(b, radix),
    decreases b,
{
    if radix >= 2 && a >= radix {
        lemma_quotient_smaller(b, radix);
        lemma_div_is_ordered(a as int, b as int, radix as int);
        lemma_log_grows(a / radix, b / radix, radix);
    }
}

/// A number below `2^bits` has a logarithm below `bits`.
pub proof fn lemma_log_bound(n: nat, radix: nat, bits: nat)
    requires
        radix >= 2,
        bits >= 1,
        n < power(2, bits),
    ensures
        floor_log(n, radix) < bits,
    decreases n,
{
    if n >= radix {
        lemma_quotient_smaller(n, radix);
        lemma_power_unfold(2, 0);
        lemma_power_unfold(2, 1);
        if bits == 1 {
            assert(power(2, 1) == 2 * power(2, 0));
        }
        let rest = (bits - 1) as nat;
        lemma_power_unfold(2, rest);
        assert(n / radix < power(2, rest)) by (nonlinear_arith)
            requires
                n < 2 * power(2, rest),
                radix >= 2,
        ;
        lemma_log_bound(n / radix, radix, rest);
    }
}

/// A positive number has one digit more than its logarithm says, and as many
/// as it can be divided by the radix.
pub proof fn lemma_digits_len(n: nat, radix: nat)
    requires
        radix >= 2,
    ensures
        digits(n, radix).len() == floor_log(n, radix) + 1,
        n > 0 ==> digits(n, radix).len() == digit_count(n, radix),
    decreases n,
{
    if n >= radix {
        lemma_quotient_smaller(n, radix);
        lemma_digits_len(n / radix, radix);
        assert(n / radix > 0) by (nonlinear_arith)
            requires
                n >= radix,
                radix >= 2,
        ;
    } else if n > 0 {
        assert(n / radix == 0) by (nonlinear_arith)
            requires
                n < radix,
        ;
        assert(digit_count(0, radix) == 0);
    }
}

/// The logarithm of a positive number is one less than the number of its
/// digits.
pub proof fn lemma_log_is_digit_count(n: nat, radix: nat)
    requires
        radix >= 2,
        n > 0,
    ensures
        floor_log(n, radix) + 1 == digit_count(n, radix),
{
    lemma_digits_len(n, radix);
}

/// A number has at least one digit, zero in radix one apart, and the first
/// digit of a positive number is not `0`.
pub proof fn lemma_leading_digit(n: nat, radix: nat)
    requires
        radix >= 1,
    ensures
        n > 0 || radix >= 2 ==> digits(n, radix).len() > 0,
        n > 0 ==> digits(n, radix)[0] > 0,
    decreases n,
{
    if radix >= 2 && n >= radix {
        lemma_quotient_smaller(n, radix);
        assert(n / radix > 0) by (nonlinear_arith)
            requires
                n >= radix,
                radix >= 2,
        ;
        lemma_leading_digit(n / radix, radix);
    }
}

/// A number is below the power of the radix to one more than its logarithm.
pub proof fn lemma_below_next_power(n: nat, radix: nat)
    requires
        radix >= 2,
    ensures
        n < power(radix, floor_log(n, radix) + 1),
    decreases n,
{
    lemma_power_unfold(radix, 0);
    if n >= radix {
        let q = n / radix;
        lemma_quotient_smaller(n, radix);
        lemma_below_next_power(q, radix);
        let next = power(radix, floor_log(q, radix) + 1);
        lemma_power_unfold(radix, floor_log(q, radix) + 1);
        assert(n < radix * next) by (nonlinear_arith)
            requires
                q == n / radix,
                q < next,
                radix >= 2,
        ;
    } else {
        assert(power(radix, 1) == radix * power(radix, 0));
    }
}

/// A number below the radix is a single digit, and zero is none.
pub proof fn lemma_count_of_digit(n: nat, radix: nat)
    requires
        radix >= 2,
        n < radix,
    ensures
        digit_count(n, radix) == if n == 0 {
            0nat
        } else {
            1nat
        },
{
    if n > 0 {
        lemma_quotient_of_less(n, radix);
        assert(digit_count(0, radix) == 0);
    }
}

/// A number below `2^bits` has no more than `bits` digits.
pub proof fn lemma_count_bound(n: nat, radix: nat, bits: nat)
    requires
        radix >= 2,
        bits >= 1,
        n < power(2, bits),
    ensures
        digit_count(n, radix) <= bits,
{
    if n > 0 {
        lemma_log_bound(n, radix, bits);
        lemma_log_is_digit_count(n, radix);
    }
}

/// The number of digits of a number that is at least `radix^k`, told from
/// its quotient by `radix^k`.
pub proof fn lemma_count_of_multiple(n: nat, radix: nat, k: nat)
    requires
        radix >= 2,
        n >= power(radix, k),
    ensures
        digit_count(n, radix) == k + digit_count(n / power(radix, k), radix),
{
    let p = power(radix, k);
    lemma_power_unfold(radix, k);
    assert(n / p >= 1) by (nonlinear_arith)
        requires
            n >= p,
            p > 0,
    ;
    lemma_log_of_multiple(n, radix, k);
    lemma_log_is_digit_count(n, radix);
    lemma_log_is_digit_count(n / p, radix);
}

/// Every digit is below the radix.
pub proof fn lemma_digits_range(n: nat, radix: nat)
    requires
        radix >= 2,
    ensures
        forall|i: int| 0 <= i < digits(n, radix).len() ==> #[trigger] digits(n, radix)[i] < radix,
    decreases n,
{
    if n >= radix {
        lemma_quotient_smaller(n, radix);
        lemma_digits_range(n / radix, radix);
        assert(n % radix < radix) by (nonlinear_arith)
            requires
                radix >= 2,
        ;
        let front = digits(n / radix, radix);
        assert forall|i: int| 0 <= i < digits(n, radix).len() implies #[trigger] digits(
            n,
            radix,
        )[i] < radix by {
            if i < front.len() {
                assert(digits(n, radix)[i] == front[i]);
            }
        }
    }
}

/// Dividing by `radix^k` drops the last `k` digits.
pub proof fn lemma_digits_of_quotient(n: nat, radix: nat, k: nat)
    requires
        radix >= 2,
        k <= floor_log(n, radix),
    ensures
        floor_log(n / power(radix, k), radix) == floor_log(n, radix) - k,
        digits(n / power(radix, k), radix) == digits(n, radix).take(floor_log(n, radix) + 1 - k),
    decreases k,
{
    lemma_digits_len(n, radix);
    if k == 0 {
        lemma_power_unfold(radix, 0);
        assert(n / 1 == n);
        assert(digits(n, radix).take((floor_log(n, radix) + 1) as int) == digits(n, radix));
    } else {
        let j = (k - 1) as nat;
        let q = n / radix;
        lemma_quotient_smaller(n, radix);
        lemma_digits_of_quotient(q, radix, j);
        lemma_digits_len(q, radix);
        lemma_power_unfold(radix, j);
        lemma_div_denominator(n as int, radix as int, power(radix, j) as int);
        assert(q / power(radix, j) == n / power(radix, k));
        assert(digits(n, radix).take(floor_log(n, radix) + 1 - k) == digits(q, radix).take(
            floor_log(q, radix) + 1 - j,
        ));
    }
}

/// How two numbers compare, told from their quotients and remainders.
pub proof fn lemma_quotient_order(a: nat, b: nat, radix: nat)
    requires
        radix >= 2,
    ensures
        a / radix < b / radix ==> a < b,
        a / radix == b / radix ==> (a < b <==> a % radix < b % radix),
        a / radix == b / radix ==> (a == b <==> a % radix == b % radix),
{
    lemma_fundamental_div_mod(a as int, radix as int);
    lemma_fundamental_div_mod(b as int, radix as int);
    let qa = a / radix;
    let qb = b / radix;
    let ra = a % radix;
    let rb = b % radix;
    assert(0 <= ra < radix && 0 <= rb < radix) by (nonlinear_arith)
        requires
            ra == a % radix,
            rb == b % radix,
            radix >= 2,
    ;
    if qa < qb {
        assert(radix * qa + ra < radix * qb + rb) by (nonlinear_arith)
            requires
                qa < qb,
                0 <= ra < radix,
                0 <= rb,
                radix >= 2,
        ;
    }
}

/// In radix one a number is written with as many marks as it counts.
pub proof fn lemma_unary(n: nat, radix: nat)
    requires
        radix < 2,
    ensures
        digits(n, radix).len() == n,
        n > 0 ==> digits(n, radix).skip(1) == digits((n - 1) as nat, radix),
        n > 0 ==> digits(n, radix)[0] == 1,
{
    if n > 0 {
        assert(digits(n, radix).skip(1) =~= digits((n - 1) as nat, radix));
    }
}

} // verus!
