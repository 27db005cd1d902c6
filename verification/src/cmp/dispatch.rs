//! The comparison and the hash with their shortcuts.
//!
//! Two unsigned integers are compared by arithmetic on the numbers, and two
//! texts that are held as wholes byte by byte. Whatever else is compared is
//! rendered. A shortcut gives what the rendering would.

use super::cursor::compare_whole;
use super::decimal::{ascii, decimal};
use super::generic;
use super::stream::{hashed, text_of, Accumulator, Producer};
use super::text::{lemma_text_order_equal, text_order, Verdict};
use crate::integer::cmp_dec;
use crate::integer::digits::{digits, lemma_digits_range};
use crate::integer::order::{digit_order, lemma_digit_order_equal};
use crate::integer::traits::Sealed;
use core::cmp::Ordering;
use vstd::prelude::*;

verus! {

/// Tests two values for equality of their texts.
pub fn eq<T: Producer + ?Sized, U: Producer + ?Sized>(lhs: &T, rhs: &U) -> (r: bool)
    requires
        generic::countable(text_of(lhs), text_of(rhs)),
    ensures
        r == (text_of(lhs) == text_of(rhs)),
{
    if let Some(x) = lhs.number() {
        if let Some(y) = rhs.number() {
            proof {
                lemma_decimal_same(x.value(), y.value());
            }
            return x == y;
        }
    }
    if let Some(a) = lhs.whole() {
        if let Some(b) = rhs.whole() {
            proof {
                lemma_text_order_equal(a@, b@);
            }
            return match compare_whole(a, b) {
                Verdict::Equal => true,
                _ => false,
            };
        }
    }
    generic::eq(lhs, rhs)
}

/// Compares the texts of two values lexicographically.
pub fn cmp<T: Producer + ?Sized, U: Producer + ?Sized>(lhs: &T, rhs: &U) -> (r: Ordering)
    requires
        generic::countable(text_of(lhs), text_of(rhs)),
    ensures
        r == text_order(text_of(lhs), text_of(rhs)),
{
    if let Some(x) = lhs.number() {
        if let Some(y) = rhs.number() {
            proof {
                lemma_decimal_order(x.value(), y.value());
            }
            return cmp_dec(x, y);
        }
    }
    if let Some(a) = lhs.whole() {
        if let Some(b) = rhs.whole() {
            return compare_whole(a, b).ordering();
        }
    }
    generic::cmp(lhs, rhs)
}

/// Hashes a value by its text.
pub fn hash<T: Producer + ?Sized, H: Accumulator>(hashee: &T, hasher: &mut H)
    ensures
        *final(hasher) == hashed(*old(hasher), text_of(hashee)),
{
    if let Some(bytes) = hashee.whole() {
        hasher.update(bytes);
        hasher.write_sentinel();
    } else {
        generic::hash(hashee, hasher)
    }
}

/// Digits below ten are ordered as the characters that stand for them.
proof fn lemma_characters_order(a: Seq<nat>, b: Seq<nat>)
    requires
        forall|i: int| 0 <= i < a.len() ==> #[trigger] a[i] < 10,
        forall|i: int| 0 <= i < b.len() ==> #[trigger] b[i] < 10,
    ensures
        text_order(
            Seq::new(a.len(), |i: int| ascii(a[i])),
            Seq::new(b.len(), |i: int| ascii(b[i])),
        ) == digit_order(a, b),
    decreases a.len(),
{
    let x = Seq::new(a.len(), |i: int| ascii(a[i]));
    let y = Seq::new(b.len(), |i: int| ascii(b[i]));
    if a.len() > 0 && b.len() > 0 {
        assert(a[0] < 10 && b[0] < 10);
        assert(x[0] == ascii(a[0]) && y[0] == ascii(b[0]));
        if a[0] == b[0] {
            let a1 = a.skip(1);
            let b1 = b.skip(1);
            assert forall|i: int| 0 <= i < a1.len() implies #[trigger] a1[i] < 10 by {
                assert(a1[i] == a[i + 1]);
            }
            assert forall|i: int| 0 <= i < b1.len() implies #[trigger] b1[i] < 10 by {
                assert(b1[i] == b[i + 1]);
            }
            lemma_characters_order(a1, b1);
            assert(x.skip(1) == Seq::new(a1.len(), |i: int| ascii(a1[i])));
            assert(y.skip(1) == Seq::new(b1.len(), |i: int| ascii(b1[i])));
        }
    }
}

/// The decimal notations of two numbers are ordered as texts as their digits
/// are: what the arithmetic comparison finds is what a comparison of the
/// rendered numbers would find.
pub proof fn lemma_decimal_order(x: nat, y: nat)
    ensures
        text_order(decimal(x), decimal(y)) == digit_order(digits(x, 10), digits(y, 10)),
{
    lemma_digits_range(x, 10);
    lemma_digits_range(y, 10);
    lemma_characters_order(digits(x, 10), digits(y, 10));
}

/// Only a number itself has its decimal notation.
pub proof fn lemma_decimal_same(x: nat, y: nat)
    ensures
        decimal(x) == decimal(y) <==> x == y,
{
    lemma_decimal_order(x, y);
    lemma_text_order_equal(decimal(x), decimal(y));
    lemma_digit_order_equal(x, y, 10);
}

} // verus!
