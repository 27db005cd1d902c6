//! The comparison and the hash of any two producers, by streaming.

use super::cursor::{lemma_outer_pass, tail, Rhs};
use super::stream::{hashed, lemma_feed_accumulator, text_of, Accumulator, Producer, Sink};
use super::text::{lemma_text_order_equal, lemma_verdict_same, text_order};
use core::cmp::Ordering;
use vstd::prelude::*;

verus! {

/// Whether the bytes in which two texts agree can be counted: one of the
/// texts is no longer than a `usize` can say.
pub open spec fn countable(lhs: Seq<u8>, rhs: Seq<u8>) -> bool {
    lhs.len() <= usize::MAX || rhs.len() <= usize::MAX
}

/// Tests two values for equality of their texts.
pub fn eq<T: Producer + ?Sized, U: Producer + ?Sized>(lhs: &T, rhs: &U) -> (r: bool)
    requires
        countable(text_of(lhs), text_of(rhs)),
    ensures
        r == (text_of(lhs) == text_of(rhs)),
{
    proof {
        lemma_text_order_equal(text_of(lhs), text_of(rhs));
    }
    match cmp(lhs, rhs) {
        Ordering::Equal => true,
        _ => false,
    }
}

/// Compares the texts of two values lexicographically.
///
/// The left-hand value is rendered once. For each of its chunks the
/// right-hand value is rendered anew, up to the end of that chunk. Both
/// renderings stop at the first difference.
pub fn cmp<T: Producer + ?Sized, U: Producer + ?Sized>(lhs: &T, rhs: &U) -> (r: Ordering)
    requires
        countable(text_of(lhs), text_of(rhs)),
    ensures
        r == text_order(text_of(lhs), text_of(rhs)),
{
    let mut adapter = Rhs::new(rhs);
    proof {
        if lhs.chunks().len() > 0 {
            lemma_outer_pass(adapter, lhs.chunks());
        }
        assert(tail(text_of(rhs), 0) == text_of(rhs));
    }
    // The sink stops the rendering where the outcome is decided.
    let _ = lhs.render_to(&mut adapter);
    if !adapter.seen {
        // A text without any chunk is empty, but nothing has looked at the
        // right-hand text yet: an empty chunk does.
        let nothing: [u8; 0] = [];
        proof {
            assert(text_of(lhs) == Seq::<u8>::empty());
            assert(nothing@.take(0) == Seq::<u8>::empty());
            assert(text_of(rhs).take(0) == Seq::<u8>::empty());
            lemma_verdict_same(Seq::<u8>::empty());
        }
        let _ = adapter.consume(nothing.as_slice());
    }
    adapter.state.conclude().ordering()
}

/// Hashes a value by its text: the bytes of the text in order, and then the
/// byte `0xFF`, which no text in UTF-8 holds, so that the texts fed one after
/// the other stay apart.
pub fn hash<T: Producer + ?Sized, H: Accumulator>(hashee: &T, hasher: &mut H)
    ensures
        *final(hasher) == hashed(*old(hasher), text_of(hashee)),
{
    proof {
        lemma_feed_accumulator(*hasher, hashee.chunks());
    }
    let _ = hashee.render_to(hasher);
    hasher.write_sentinel();
}

} // verus!
