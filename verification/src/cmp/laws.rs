//! What holds of the comparison and the hash of any producers, stated over
//! the order of their texts, in which the results of [`cmp`](super::cmp),
//! [`eq`](super::eq) and [`hash`](super::hash) are given.

use super::stream::{feed, hashed, text_of, Mixer, Producer, Sink};
use super::text::{
    lemma_text_order_equal, lemma_text_order_reversed, lemma_text_order_transitive, text_order,
};
use crate::integer::order::reversed;
use core::cmp::Ordering;
use vstd::prelude::*;

verus! {

/// Comparing the other way round gives the reverse.
pub proof fn lemma_antisymmetric<A: Producer + ?Sized, B: Producer + ?Sized>(a: &A, b: &B)
    ensures
        text_order(text_of(b), text_of(a)) == reversed(text_order(text_of(a), text_of(b))),
{
    lemma_text_order_reversed(text_of(a), text_of(b));
}

/// A value compares equal to itself.
pub proof fn lemma_reflexive<A: Producer + ?Sized>(a: &A)
    ensures
        text_order(text_of(a), text_of(a)) == Ordering::Equal,
{
    lemma_text_order_equal(text_of(a), text_of(a));
}

/// Where `a` is not greater than `b` and `b` not greater than `c`, `a` is not
/// greater than `c`; it is less where one of the two is less, and equal where
/// both are equal.
pub proof fn lemma_transitive<A: Producer + ?Sized, B: Producer + ?Sized, C: Producer + ?Sized>(
    a: &A,
    b: &B,
    c: &C,
)
    requires
        text_order(text_of(a), text_of(b)) != Ordering::Greater,
        text_order(text_of(b), text_of(c)) != Ordering::Greater,
    ensures
        text_order(text_of(a), text_of(c)) != Ordering::Greater,
        text_order(text_of(a), text_of(b)) == Ordering::Less || text_order(text_of(b), text_of(c))
            == Ordering::Less ==> text_order(text_of(a), text_of(c)) == Ordering::Less,
        text_order(text_of(a), text_of(b)) == Ordering::Equal && text_order(
            text_of(b),
            text_of(c),
        ) == Ordering::Equal ==> text_order(text_of(a), text_of(c)) == Ordering::Equal,
{
    lemma_text_order_transitive(text_of(a), text_of(b), text_of(c));
    lemma_text_order_equal(text_of(a), text_of(b));
    lemma_text_order_equal(text_of(b), text_of(c));
    lemma_text_order_equal(text_of(a), text_of(c));
}

/// Two values compare equal exactly if their texts are the same, byte for
/// byte.
pub proof fn lemma_equal_is_same_text<A: Producer + ?Sized, B: Producer + ?Sized>(a: &A, b: &B)
    ensures
        text_order(text_of(a), text_of(b)) == Ordering::Equal <==> text_of(a) == text_of(b),
{
    lemma_text_order_equal(text_of(a), text_of(b));
}

/// Rendering the same value again gives the same: whatever two renderings of
/// `a` into sinks in one state leave behind, it is one state.
pub proof fn lemma_rendering_repeatable<A: Producer + ?Sized, S: Sink>(
    a: &A,
    sink: S,
    first: (S, bool),
    second: (S, bool),
)
    requires
        first == feed(sink, a.chunks()),
        second == feed(sink, a.chunks()),
    ensures
        first == second,
{
}

/// Comparing the same two values again gives the same: whatever two
/// comparisons of `a` with `b` return, it is one order.
pub proof fn lemma_repeatable<A: Producer + ?Sized, B: Producer + ?Sized>(
    a: &A,
    b: &B,
    first: Ordering,
    second: Ordering,
)
    requires
        first == text_order(text_of(a), text_of(b)),
        second == text_order(text_of(a), text_of(b)),
    ensures
        first == second,
{
}

/// How a text is cut into chunks does not count: producers of one text
/// compare alike with any other producer, on either side.
pub proof fn lemma_chunking<A: Producer + ?Sized, B: Producer + ?Sized, C: Producer + ?Sized>(
    a: &A,
    b: &B,
    c: &C,
)
    requires
        text_of(a) == text_of(b),
    ensures
        text_order(text_of(a), text_of(c)) == text_order(text_of(b), text_of(c)),
        text_order(text_of(c), text_of(a)) == text_order(text_of(c), text_of(b)),
        text_order(text_of(a), text_of(b)) == Ordering::Equal,
{
    lemma_text_order_equal(text_of(a), text_of(b));
}

/// Values of one text leave an accumulator in one state, however the text is
/// cut into chunks.
pub proof fn lemma_hash_consistent<A: Producer + ?Sized, B: Producer + ?Sized, H: Mixer>(
    a: &A,
    b: &B,
    acc: H,
)
    requires
        text_of(a) == text_of(b),
    ensures
        hashed(acc, text_of(a)) == hashed(acc, text_of(b)),
{
}

} // verus!
