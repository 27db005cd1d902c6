//! The unsigned integers as producers of their decimal notation.

use super::stream::{can_feed, feed, Producer, Sink};
use crate::integer::digits::{
    digits, floor_log, lemma_digits_len, lemma_digits_of_quotient, lemma_digits_range,
    lemma_log_bound, lemma_log_is_digit_count, power,
};
use crate::integer::traits::Sealed;
use crate::integer::Integer;
use vstd::prelude::*;

verus! {

/// The character that stands for a decimal digit, in ASCII.
pub open spec fn ascii(digit: nat) -> u8 {
    (48 + digit) as u8
}

/// The decimal notation of `n` as text.
pub open spec fn decimal(n: nat) -> Seq<u8> {
    Seq::new(digits(n, 10).len(), |i: int| ascii(digits(n, 10)[i]))
}

/// A text cut into chunks of one byte.
pub open spec fn singles(text: Seq<u8>) -> Seq<Seq<u8>> {
    Seq::new(text.len(), |i: int| seq![text[i]])
}

/// The chunks of one byte make up the text.
pub proof fn lemma_singles(text: Seq<u8>)
    ensures
        singles(text).flatten() == text,
    decreases text.len(),
{
    let chunks = singles(text);
    if text.len() == 0 {
        assert(chunks.flatten() == Seq::<u8>::empty());
    } else {
        lemma_singles(text.skip(1));
        assert(chunks.drop_first() == singles(text.skip(1)));
        assert(chunks.flatten() == chunks.first() + chunks.drop_first().flatten());
        assert(seq![text[0]] + text.skip(1) == text);
    }
}

/// The last digit of a number is what division by the radix leaves over.
proof fn lemma_last_digit(n: nat, radix: nat)
    requires
        radix >= 2,
    ensures
        digits(n, radix).last() == n % radix,
{
    if n < radix {
        assert(n % radix == n) by (nonlinear_arith)
            requires
                n < radix,
        ;
    }
}

/// The digit in place `i`, counted from the most significant, is the last
/// digit of the number without the digits that follow it.
pub proof fn lemma_digit_at(n: nat, i: nat)
    requires
        i <= floor_log(n, 10),
    ensures
        digits(n, 10).len() == floor_log(n, 10) + 1,
        digits(n, 10)[i as int] == (n / power(10, (floor_log(n, 10) - i) as nat)) % 10,
        digits(n, 10)[i as int] < 10,
{
    let below = (floor_log(n, 10) - i) as nat;
    lemma_digits_len(n, 10);
    lemma_digits_range(n, 10);
    lemma_digits_of_quotient(n, 10, below);
    lemma_last_digit(n / power(10, below), 10);
    assert(digits(n, 10).take(i as int + 1).last() == digits(n, 10)[i as int]);
}

/// Renders `n` in decimal notation, digit by digit from the most
/// significant, each digit a chunk of its own.
pub fn render_decimal<T: Integer, S: Sink>(n: T, sink: &mut S) -> (stopped: bool)
    requires
        can_feed(*old(sink), singles(decimal(n.value()))),
    ensures
        (*final(sink), stopped) == feed(*old(sink), singles(decimal(n.value()))),
{
    // Zero has no digit to count, and is written with one.
    let count: u32 = n.log10();
    let top: u32 = if count == 0 {
        0
    } else {
        count - 1
    };
    let ghost all = singles(decimal(n.value()));
    let ghost start = *sink;
    proof {
        lemma_digits_len(n.value(), 10);
        if n.value() > 0 {
            lemma_log_is_digit_count(n.value(), 10);
        }
        assert(all.skip(0) == all);
    }
    let mut i: u32 = 0;
    while i <= top
        invariant
            i <= top + 1,
            top < 128,
            top == floor_log(n.value(), 10),
            all == singles(decimal(n.value())),
            all.len() == top + 1,
            start == *old(sink),
            can_feed(*sink, all.skip(i as int)),
            feed(start, all) == feed(*sink, all.skip(i as int)),
        decreases top + 1 - i,
    {
        proof {
            lemma_digit_at(n.value(), i as nat);
        }
        let digit: u8 = n.invpow(10, top - i).rem_small(10);
        let piece: [u8; 1] = [48 + digit];
        let ghost before = *sink;
        proof {
            let rest = all.skip(i as int);
            assert(feed(before, rest) == if before.step(rest[0]).1 {
                before.step(rest[0])
            } else {
                feed(before.step(rest[0]).0, rest.skip(1))
            });
            assert(rest[0] == all[i as int]);
            assert(piece@ == all[i as int]);
            assert(rest.skip(1) == all.skip(i + 1));
        }
        if sink.consume(piece.as_slice()) {
            return true;
        }
        i = i + 1;
    }
    false
}

/// A `u8` renders as its decimal notation.
impl Producer for u8 {
    open spec fn chunks(&self) -> Seq<Seq<u8>> {
        singles(decimal(self.value()))
    }

    fn render_to<S: Sink>(&self, sink: &mut S) -> (stopped: bool) {
        render_decimal(*self, sink)
    }

    fn whole(&self) -> (r: Option<&[u8]>)
        ensures
            r.is_none(),
    {
        None
    }

    fn number(&self) -> (r: Option<u128>)
        ensures
            r matches Some(n) && n == self.value(),
    {
        proof {
            lemma_singles(decimal(self.value()));
        }
        Some(self.widen())
    }
}

/// A `u16` renders as its decimal notation.
impl Producer for u16 {
    open spec fn chunks(&self) -> Seq<Seq<u8>> {
        singles(decimal(self.value()))
    }

    fn render_to<S: Sink>(&self, sink: &mut S) -> (stopped: bool) {
        render_decimal(*self, sink)
    }

    fn whole(&self) -> (r: Option<&[u8]>)
        ensures
            r.is_none(),
    {
        None
    }

    fn number(&self) -> (r: Option<u128>)
        ensures
            r matches Some(n) && n == self.value(),
    {
        proof {
            lemma_singles(decimal(self.value()));
        }
        Some(self.widen())
    }
}

/// A `u32` renders as its decimal notation.
impl Producer for u32 {
    open spec fn chunks(&self) -> Seq<Seq<u8>> {
        singles(decimal(self.value()))
    }

    fn render_to<S: Sink>(&self, sink: &mut S) -> (stopped: bool) {
        render_decimal(*self, sink)
    }

    fn whole(&self) -> (r: Option<&[u8]>)
        ensures
            r.is_none(),
    {
        None
    }

    fn number(&self) -> (r: Option<u128>)
        ensures
            r matches Some(n) && n == self.value(),
    {
        proof {
            lemma_singles(decimal(self.value()));
        }
        Some(self.widen())
    }
}

/// A `u64` renders as its decimal notation.
impl Producer for u64 {
    open spec fn chunks(&self) -> Seq<Seq<u8>> {
        singles(decimal(self.value()))
    }

    fn render_to<S: Sink>(&self, sink: &mut S) -> (stopped: bool) {
        render_decimal(*self, sink)
    }

    fn whole(&self) -> (r: Option<&[u8]>)
        ensures
            r.is_none(),
    {
        None
    }

    fn number(&self) -> (r: Option<u128>)
        ensures
            r matches Some(n) && n == self.value(),
    {
        proof {
            lemma_singles(decimal(self.value()));
        }
        Some(self.widen())
    }
}

/// A `u128` renders as its decimal notation.
impl Producer for u128 {
    open spec fn chunks(&self) -> Seq<Seq<u8>> {
        singles(decimal(self.value()))
    }

    fn render_to<S: Sink>(&self, sink: &mut S) -> (stopped: bool) {
        render_decimal(*self, sink)
    }

    fn whole(&self) -> (r: Option<&[u8]>)
        ensures
            r.is_none(),
    {
        None
    }

    fn number(&self) -> (r: Option<u128>)
        ensures
            r matches Some(n) && n == self.value(),
    {
        proof {
            lemma_singles(decimal(self.value()));
        }
        Some(self.widen())
    }
}

/// A `usize` renders as its decimal notation.
impl Producer for usize {
    open spec fn chunks(&self) -> Seq<Seq<u8>> {
        singles(decimal(self.value()))
    }

    fn render_to<S: Sink>(&self, sink: &mut S) -> (stopped: bool) {
        render_decimal(*self, sink)
    }

    fn whole(&self) -> (r: Option<&[u8]>)
        ensures
            r.is_none(),
    {
        None
    }

    fn number(&self) -> (r: Option<u128>)
        ensures
            r matches Some(n) && n == self.value(),
    {
        proof {
            lemma_singles(decimal(self.value()));
        }
        Some(self.widen())
    }
}

/// The text of an integer is its decimal notation, of no more than 128
/// digits.
pub proof fn lemma_decimal_len<T: Integer>(x: T)
    ensures
        singles(decimal(x.value())).flatten() == decimal(x.value()),
        decimal(x.value()).len() == floor_log(x.value(), 10) + 1,
        decimal(x.value()).len() <= 128,
{
    lemma_singles(decimal(x.value()));
    lemma_digits_len(x.value(), 10);
    T::lemma_limit();
    x.lemma_value();
    lemma_log_bound(x.value(), 10, 128);
}

} // verus!
