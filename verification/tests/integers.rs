use fmt_cmp::integer::Integer;
use fmt_cmp::{cmp_dec, cmp_int};
use std::cmp::Ordering;

fn check<T: Copy + Integer + Ord + ToString>(lhs: T, rhs: T) {
    let expected = lhs.to_string().cmp(&rhs.to_string());
    assert_eq!(cmp_int(lhs, rhs, 10), expected);
    assert_eq!(cmp_int(rhs, lhs, 10), expected.reverse(), "reverse");
    assert_eq!(cmp_dec(lhs, rhs), expected, "dec");
    assert_eq!(cmp_dec(rhs, lhs), expected.reverse(), "dec,reverse");
    assert_eq!(cmp_int(lhs, rhs, 1), lhs.cmp(&rhs));
    assert_eq!(cmp_int(rhs, lhs, 1), rhs.cmp(&lhs));
}

#[test]
fn matches_str_cmp() {
    // Both are 0.
    check(0_u64, 0_u64);

    // Either is 0.
    check(1_u64, 0_u64);
    check(10_u64, 0_u64);
    check(42_u64, 0_u64);

    // Single digit vs. single digit.
    check(1_u64, 1_u64);
    check(1_u64, 4_u64);

    // Single digit vs. multiple digits.
    check(2_u64, 42_u64);
    check(4_u64, 42_u64);
    check(5_u64, 42_u64);
    check(2_u64, 40_u64);
    check(4_u64, 40_u64);
    check(5_u64, 40_u64);

    // 2 digits vs. 2 digits.

    // Left-most digit is greater.
    check(42_u64, 24_u64);
    check(42_u64, 20_u64);

    // Left-most digit is equal.
    check(42_u64, 42_u64);
    check(42_u64, 40_u64);
    check(42_u64, 41_u64);
    check(42_u64, 43_u64);

    // Left-most digit is less.
    check(42_u64, 52_u64);
    check(42_u64, 50_u64);

    // 2 digits vs more-than-2 digits.

    // Left most digit is greater.
    check(42_u64, 200_u64);
    check(42_u64, 240_u64);
    check(42_u64, 241_u64);
    check(42_u64, 2410_u64);

    // Left most digit is equal.
    check(42_u64, 410_u64);
    check(42_u64, 411_u64);
    check(42_u64, 4100_u64);
    check(42_u64, 4110_u64);
    check(42_u64, 4111_u64);
    check(42_u64, 420_u64);
    check(42_u64, 421_u64);
    check(42_u64, 4211_u64);
    check(42_u64, 4200_u64);
    check(42_u64, 4210_u64);
    check(42_u64, 430_u64);
    check(42_u64, 431_u64);
    check(42_u64, 4300_u64);
    check(42_u64, 4310_u64);
    check(42_u64, 4311_u64);

    // Left-most digit is greater.
    check(42_u64, 500_u64);
    check(42_u64, 540_u64);
    check(42_u64, 542_u64);
    check(42_u64, 5420_u64);

    // Works with max values.
    check(u8::MAX, 1);
    check(u8::MAX, u8::MAX - 1);
    check(u16::MAX, 1);
    check(u16::MAX, u16::MAX - 1);
    check(u32::MAX, 1);
    check(u32::MAX, u32::MAX - 1);
    check(u64::MAX, 1);
    check(u64::MAX, u64::MAX - 1);
    check(usize::MAX, 1);
    check(usize::MAX, usize::MAX - 1);
    check(u128::MAX, 1);
    check(u128::MAX, u128::MAX - 1);
}

#[test]
fn digits_decide_not_magnitude() {
    assert_eq!(cmp_int(42_u32, 240_u32, 10), Ordering::Greater);
    assert_eq!(cmp_int(42_u32, 2_u32, 10), Ordering::Greater);
    assert_eq!(cmp_int(42_u32, 3_u32, 10), Ordering::Greater);
    assert_eq!(cmp_int(24_u32, 3_u32, 10), Ordering::Less);
    assert_eq!(cmp_dec(42_u32, 3_u32), Ordering::Greater);
    assert_eq!(cmp_dec(24_u32, 3_u32), Ordering::Less);
}

#[test]
fn hexadecimal_digits() {
    assert_eq!(cmp_int(0x2a_u32, 0x9_u32, 16), Ordering::Less);
    assert_eq!(cmp_int(0xa2_u32, 0x9_u32, 16), Ordering::Greater);
    assert_eq!(cmp_int(0x100_u32, 0xff_u32, 16), Ordering::Less);
}

/// The digits of `n` in `radix`, most significant first, by repeated division.
fn digits(mut n: u128, radix: u128) -> Vec<u128> {
    if radix == 1 {
        return vec![1; usize::try_from(n).unwrap()];
    }
    let mut out = vec![n % radix];
    n /= radix;
    while n > 0 {
        out.push(n % radix);
        n /= radix;
    }
    out.reverse();
    out
}

#[test]
fn agrees_with_repeated_division() {
    let mut values: Vec<u16> = (0..=40).collect();
    values.extend([99, 100, 101, 255, 256, 257, 258, 299, 300, 1_000, 9_999, 10_000, 65_535]);
    for radix in [1_u32, 2, 3, 7, 10, 16, 36, 37, 100, 255, 256, 257, 1_000, 70_000] {
        for &x in &values {
            for &y in &values {
                let expected = if radix == 1 {
                    x.cmp(&y)
                } else {
                    digits(x.into(), radix.into()).cmp(&digits(y.into(), radix.into()))
                };
                assert_eq!(cmp_int(x, y, radix), expected, "{} {} in {}", x, y, radix);
                if let (Ok(a), Ok(b)) = (u8::try_from(x), u8::try_from(y)) {
                    assert_eq!(cmp_int(a, b, radix), expected, "{} {} in {}", a, b, radix);
                }
                assert_eq!(cmp_int(u32::from(x), u32::from(y), radix), expected);
                assert_eq!(cmp_int(u64::from(x), u64::from(y), radix), expected);
                assert_eq!(cmp_int(u128::from(x), u128::from(y), radix), expected);
                assert_eq!(cmp_int(usize::from(x), usize::from(y), radix), expected);
            }
        }
    }
}

#[test]
fn unary_notation_is_as_long_as_the_number() {
    assert_eq!(digits(0, 1), Vec::<u128>::new());
    assert_eq!(digits(3, 1), [1, 1, 1]);
    assert_eq!(digits(240, 10), [2, 4, 0]);
    assert_eq!(digits(0, 10), [0]);
    assert_eq!(digits(0x2a, 16), [2, 10]);
}

#[test]
fn radix_beyond_the_width() {
    // Every value of a byte is one digit in a radix above 255.
    assert_eq!(cmp_int(4_u8, 3_u8, 258), Ordering::Greater);
    assert_eq!(cmp_int(4_u8, 3_u8, 256), Ordering::Greater);
    assert_eq!(cmp_int(200_u8, 3_u8, u32::MAX), Ordering::Greater);
    assert_eq!(cmp_int(3_u8, 200_u8, 70_000), Ordering::Less);
    assert_eq!(cmp_int(65_535_u16, 7_u16, 65_536), Ordering::Greater);
}

#[test]
fn radix_one_is_the_order_of_numbers() {
    for (x, y) in [(0_u64, 0_u64), (0, 1), (1, 0), (9, 10), (10, 9), (42, 240), (u64::MAX, 1)] {
        assert_eq!(cmp_int(x, y, 1), x.cmp(&y));
    }
}

#[test]
fn decimal_between_the_shortcuts() {
    // Five digits that do not fit into sixteen bits, and ten that do not fit
    // into thirty-two.
    check(70_000_u32, 71_u32);
    check(65_536_u32, 65_535_u32);
    check(99_999_u32, 100_000_u32);
    check(4_294_967_296_u64, 43_u64);
    check(9_999_999_999_u64, 10_000_000_000_u64);
    check(5_000_000_000_u64, 51_u64);
    check(10_u128.pow(16), 10_u128.pow(16) - 1);
    check(10_u128.pow(32), 10_u128.pow(32) - 1);
    check(10_u128.pow(32) + 7, 11_u128);
    check(u128::MAX, 34_u128);
    check(u128::MAX, 35_u128);
    check(70_000_usize, 71_usize);
}
