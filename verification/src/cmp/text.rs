//! The lexicographic order of texts, as a mathematical model.

use crate::integer::order::reversed;
use core::cmp::Ordering;
use vstd::prelude::*;

verus! {

/// The lexicographic order of two texts: the first byte in which they differ
/// decides, and a proper prefix comes before what it is a prefix of.
pub open spec fn text_order(a: Seq<u8>, b: Seq<u8>) -> Ordering
    decreases a.len(),
{
    if a.len() == 0 {
        if b.len() == 0 {
            Ordering::Equal
        } else {
            Ordering::Less
        }
    } else if b.len() == 0 {
        Ordering::Greater
    } else if a[0] < b[0] {
        Ordering::Less
    } else if a[0] > b[0] {
        Ordering::Greater
    } else {
        text_order(a.skip(1), b.skip(1))
    }
}

/// The outcome of a comparison, as the comparison itself keeps it.
#[derive(Clone, Copy, PartialEq, Eq, Structural, Debug)]
pub enum Verdict {
    Less,
    Equal,
    Greater,
}

impl Verdict {
    /// The verdict that stands for an order.
    pub open spec fn of(o: Ordering) -> Verdict {
        match o {
            Ordering::Less => Verdict::Less,
            Ordering::Equal => Verdict::Equal,
            Ordering::Greater => Verdict::Greater,
        }
    }

    /// The order that a verdict stands for.
    pub open spec fn order(self) -> Ordering {
        match self {
            Verdict::Less => Ordering::Less,
            Verdict::Equal => Ordering::Equal,
            Verdict::Greater => Ordering::Greater,
        }
    }

    /// The verdict as an order.
    pub fn ordering(self) -> (r: Ordering)
        ensures
            r == self.order(),
    {
        match self {
            Verdict::Less => Ordering::Less,
            Verdict::Equal => Ordering::Equal,
            Verdict::Greater => Ordering::Greater,
        }
    }
}

/// Two texts are equal in order exactly if they are the same text.
pub proof fn lemma_text_order_equal(a: Seq<u8>, b: Seq<u8>)
    ensures
        text_order(a, b) == Ordering::Equal <==> a == b,
{
    if a == b {
        lemma_verdict_same(a);
    }
    if text_order(a, b) == Ordering::Equal {
        lemma_verdict_equal(a, b);
    }
}

/// Swapping two texts reverses their order.
pub proof fn lemma_text_order_reversed(a: Seq<u8>, b: Seq<u8>)
    ensures
        text_order(b, a) == reversed(text_order(a, b)),
    decreases a.len(),
{
    if a.len() > 0 && b.len() > 0 && a[0] == b[0] {
        lemma_text_order_reversed(a.skip(1), b.skip(1));
    }
}

/// The order of texts is transitive: what is not greater than something that
/// is not greater than a third is not greater than the third, and it is less
/// where one of the two is.
pub proof fn lemma_text_order_transitive(a: Seq<u8>, b: Seq<u8>, c: Seq<u8>)
    requires
        text_order(a, b) != Ordering::Greater,
        text_order(b, c) != Ordering::Greater,
    ensures
        text_order(a, c) != Ordering::Greater,
        text_order(a, b) == Ordering::Less || text_order(b, c) == Ordering::Less ==> text_order(
            a,
            c,
        ) == Ordering::Less,
    decreases a.len(),
{
    if a.len() > 0 && b.len() > 0 && c.len() > 0 && a[0] == b[0] && b[0] == c[0] {
        lemma_text_order_transitive(a.skip(1), b.skip(1), c.skip(1));
    }
}

/// The verdict on two texts: their lexicographic order.
pub open spec fn verdict(a: Seq<u8>, b: Seq<u8>) -> Verdict {
    Verdict::of(text_order(a, b))
}

/// Where two texts agree up to a place and differ in it, that place decides.
pub proof fn lemma_verdict_at_difference(a: Seq<u8>, b: Seq<u8>, i: int)
    requires
        0 <= i < a.len(),
        i < b.len(),
        a.take(i) == b.take(i),
        a[i] != b[i],
    ensures
        verdict(a, b) == if a[i] < b[i] {
            Verdict::Less
        } else {
            Verdict::Greater
        },
    decreases i,
{
    if i > 0 {
        assert(a[0] == a.take(i)[0]);
        assert(b[0] == b.take(i)[0]);
        assert(a.skip(1).take(i - 1) == a.take(i).skip(1));
        assert(b.skip(1).take(i - 1) == b.take(i).skip(1));
        lemma_verdict_at_difference(a.skip(1), b.skip(1), i - 1);
    }
}

/// A text is equal to itself.
pub proof fn lemma_verdict_same(a: Seq<u8>)
    ensures
        verdict(a, a) == Verdict::Equal,
    decreases a.len(),
{
    if a.len() > 0 {
        lemma_verdict_same(a.skip(1));
    }
}

/// Only a text itself is equal to it.
pub proof fn lemma_verdict_equal(a: Seq<u8>, b: Seq<u8>)
    requires
        verdict(a, b) == Verdict::Equal,
    ensures
        a == b,
    decreases a.len(),
{
    if a.len() > 0 {
        lemma_verdict_equal(a.skip(1), b.skip(1));
        assert(a == seq![a[0]] + a.skip(1));
        assert(b == seq![b[0]] + b.skip(1));
    } else {
        assert(a == b);
    }
}

/// What two texts begin with alike does not count.
pub proof fn lemma_verdict_after_common(p: Seq<u8>, a: Seq<u8>, b: Seq<u8>)
    ensures
        verdict(p + a, p + b) == verdict(a, b),
    decreases p.len(),
{
    if p.len() == 0 {
        assert(p + a == a);
        assert(p + b == b);
    } else {
        assert((p + a).skip(1) == p.skip(1) + a);
        assert((p + b).skip(1) == p.skip(1) + b);
        lemma_verdict_after_common(p.skip(1), a, b);
    }
}

/// Where two beginnings of one length differ, what follows does not count.
pub proof fn lemma_verdict_decided(p: Seq<u8>, q: Seq<u8>, a: Seq<u8>, b: Seq<u8>)
    requires
        p.len() == q.len(),
        verdict(p, q) != Verdict::Equal,
    ensures
        verdict(p + a, q + b) == verdict(p, q),
    decreases p.len(),
{
    if p.len() > 0 {
        assert((p + a).skip(1) == p.skip(1) + a);
        assert((q + b).skip(1) == q.skip(1) + b);
        if p[0] == q[0] {
            lemma_verdict_decided(p.skip(1), q.skip(1), a, b);
        }
    }
}

/// A text with something after it is greater than the text alone, and the
/// text alone is less.
pub proof fn lemma_verdict_longer(p: Seq<u8>, a: Seq<u8>)
    requires
        a.len() > 0,
    ensures
        verdict(p + a, p) == Verdict::Greater,
        verdict(p, p + a) == Verdict::Less,
{
    lemma_verdict_after_common(p, a, Seq::empty());
    lemma_verdict_after_common(p, Seq::empty(), a);
    assert(p + Seq::<u8>::empty() == p);
}

} // verus!
