//! The two sinks of the streaming comparison.
//!
//! The left-hand text is rendered once, into an [`Rhs`]. For each chunk that
//! arrives there, the right-hand text is rendered into an [`Lhs`], which holds
//! that chunk, passes over what earlier chunks were matched against, and
//! compares the rest byte by byte until the chunk is used up.

use super::stream::{can_feed, feed, text_of, Producer, Sink};
use super::text::{
    lemma_verdict_after_common, lemma_verdict_at_difference, lemma_verdict_decided,
    lemma_verdict_equal, lemma_verdict_longer, lemma_verdict_same, verdict, Verdict,
};
use vstd::prelude::*;

verus! {

/// What a comparison has found so far.
#[derive(Clone, Copy)]
pub struct State {
    /// The outcome, `Equal` as long as no difference was found.
    pub ret: Verdict,
    /// Whether the right-hand text went on when the last left-hand chunk was
    /// used up.
    pub rhs_is_remaining: bool,
}

impl State {
    /// Nothing compared yet.
    pub fn new() -> (r: Self)
        ensures
            r == (State { ret: Verdict::Equal, rhs_is_remaining: false }),
    {
        State { ret: Verdict::Equal, rhs_is_remaining: false }
    }

    /// The outcome once the left-hand text has ended: a difference found
    /// stands, and else the left-hand text is less exactly if the right-hand
    /// text went on.
    pub open spec fn answer(self) -> Verdict {
        if self.ret != Verdict::Equal {
            self.ret
        } else if self.rhs_is_remaining {
            Verdict::Less
        } else {
            Verdict::Equal
        }
    }

    /// Computes [`Self::answer`].
    pub fn conclude(self) -> (r: Verdict)
        ensures
            r == self.answer(),
    {
        match self.ret {
            Verdict::Equal => if self.rhs_is_remaining {
                Verdict::Less
            } else {
                Verdict::Equal
            },
            found => found,
        }
    }
}

/// `text` without its first `skip` bytes; nothing where it has no more.
pub open spec fn tail(text: Seq<u8>, skip: usize) -> Seq<u8> {
    if skip <= text.len() {
        text.skip(skip as int)
    } else {
        Seq::empty()
    }
}

/// The smaller of two lengths.
pub open spec fn shorter(a: int, b: int) -> int {
    if a < b {
        a
    } else {
        b
    }
}

/// Compares `n` bytes of `a` from `from_a` on with `n` bytes of `b` from
/// `from_b` on.
pub fn compare(a: &[u8], from_a: usize, b: &[u8], from_b: usize, n: usize) -> (r: Verdict)
    requires
        from_a + n <= a@.len(),
        from_b + n <= b@.len(),
    ensures
        r == verdict(
            a@.subrange(from_a as int, from_a + n),
            b@.subrange(from_b as int, from_b + n),
        ),
{
    let ghost x = a@.subrange(from_a as int, from_a + n);
    let ghost y = b@.subrange(from_b as int, from_b + n);
    assert(a@.len() == a.len() && b@.len() == b.len());
    let mut i: usize = 0;
    while i < n
        invariant
            i <= n,
            from_a + n <= usize::MAX,
            from_b + n <= usize::MAX,
            from_a + n <= a@.len(),
            from_b + n <= b@.len(),
            x == a@.subrange(from_a as int, from_a + n),
            y == b@.subrange(from_b as int, from_b + n),
            x.take(i as int) == y.take(i as int),
        decreases n - i,
    {
        let p: u8 = a[from_a + i];
        let q: u8 = b[from_b + i];
        if p != q {
            proof {
                lemma_verdict_at_difference(x, y, i as int);
            }
            return if p < q {
                Verdict::Less
            } else {
                Verdict::Greater
            };
        }
        proof {
            assert(x.take(i + 1) == x.take(i as int).push(p));
            assert(y.take(i + 1) == y.take(i as int).push(q));
        }
        i = i + 1;
    }
    proof {
        assert(x == x.take(n as int));
        assert(y == y.take(n as int));
        lemma_verdict_same(x);
    }
    Verdict::Equal
}

/// Compares two texts that are held as wholes.
pub fn compare_whole(a: &[u8], b: &[u8]) -> (r: Verdict)
    ensures
        r == verdict(a@, b@),
{
    let n: usize = if a.len() < b.len() {
        a.len()
    } else {
        b.len()
    };
    let found = compare(a, 0, b, 0, n);
    proof {
        let x = a@.subrange(0, n as int);
        let y = b@.subrange(0, n as int);
        assert(a@ == x + a@.skip(n as int));
        assert(b@ == y + b@.skip(n as int));
        if found != Verdict::Equal {
            lemma_verdict_decided(x, y, a@.skip(n as int), b@.skip(n as int));
        } else {
            lemma_verdict_equal(x, y);
            lemma_verdict_same(x);
            if a.len() < b.len() {
                lemma_verdict_longer(x, b@.skip(n as int));
            } else if a.len() > b.len() {
                lemma_verdict_longer(x, a@.skip(n as int));
            }
            assert(x + Seq::<u8>::empty() == x);
        }
    }
    match found {
        Verdict::Equal => if a.len() < b.len() {
            Verdict::Less
        } else if a.len() > b.len() {
            Verdict::Greater
        } else {
            Verdict::Equal
        },
        decided => decided,
    }
}

/// The sink of the right-hand text: it holds one chunk of the left-hand text.
pub struct Lhs<'a> {
    /// The left-hand chunk.
    pub lhs: &'a [u8],
    /// How many bytes of the chunk are matched.
    pub done: usize,
    /// How many bytes of the right-hand text are still to be passed over:
    /// those that earlier left-hand chunks were matched against.
    pub skip: usize,
    pub state: State,
}

impl<'a> Sink for Lhs<'a> {
    open spec fn accepts(&self, chunk: Seq<u8>) -> bool {
        self.done <= self.lhs@.len()
    }

    open spec fn step(self, chunk: Seq<u8>) -> (Self, bool) {
        let skip = shorter(self.skip as int, chunk.len() as int);
        let read = shorter(chunk.len() - skip, self.lhs@.len() - self.done);
        let found = verdict(
            self.lhs@.subrange(self.done as int, self.done + read),
            chunk.subrange(skip, skip + read),
        );
        let rest = (self.skip - skip) as usize;
        if found != Verdict::Equal {
            (
                Lhs {
                    skip: rest,
                    state: State { ret: found, rhs_is_remaining: self.state.rhs_is_remaining },
                    ..self
                },
                true,
            )
        } else if chunk.len() - skip > read {
            (
                Lhs {
                    skip: rest,
                    done: (self.done + read) as usize,
                    state: State { ret: found, rhs_is_remaining: true },
                    ..self
                },
                true,
            )
        } else {
            (
                Lhs {
                    skip: rest,
                    done: (self.done + read) as usize,
                    state: State { ret: found, rhs_is_remaining: self.state.rhs_is_remaining },
                    ..self
                },
                false,
            )
        }
    }

    fn consume(&mut self, rhs: &[u8]) -> (stop: bool) {
        let skip: usize = if self.skip < rhs.len() {
            self.skip
        } else {
            rhs.len()
        };
        self.skip = self.skip - skip;
        let left: usize = rhs.len() - skip;
        let room: usize = self.lhs.len() - self.done;
        let read: usize = if left < room {
            left
        } else {
            room
        };
        self.state.ret = compare(self.lhs, self.done, rhs, skip, read);
        if self.state.ret != Verdict::Equal {
            return true;
        }
        self.done = self.done + read;
        if left > read {
            // This chunk goes on where the left-hand chunk ends, so the whole
            // right-hand text may be the longer. Whether it is shows only when
            // the left-hand text ends or goes on.
            self.state.rhs_is_remaining = true;
            return true;
        }
        false
    }
}

/// What one rendering of the right-hand text into `start` comes to, told
/// from the text alone: `end` holds the verdict on the chunk's unmatched rest
/// and as much of the text, after the bytes to pass over, as is no longer than
/// that rest. Where they agree, `end` also says how far the chunk is matched
/// and whether the text goes on beyond it.
pub open spec fn matched(start: Lhs, text: Seq<u8>, end: Lhs) -> bool {
    let a = start.lhs@.skip(start.done as int);
    let b = tail(text, start.skip);
    let m = shorter(a.len() as int, b.len() as int);
    let found = verdict(a.take(m), b.take(m));
    &&& end.state.ret == found
    &&& found == Verdict::Equal ==> end.done == start.done + m
    &&& end.state.rhs_is_remaining == (found == Verdict::Equal && b.len() > a.len())
}

/// However the right-hand text is cut into chunks, rendering it into an
/// [`Lhs`] that has found nothing yet compares the chunk with the text.
pub proof fn lemma_inner_pass(start: Lhs, chunks: Seq<Seq<u8>>)
    requires
        start.done <= start.lhs@.len(),
        start.state.ret == Verdict::Equal,
        !start.state.rhs_is_remaining,
    ensures
        can_feed(start, chunks),
        matched(start, chunks.flatten(), feed(start, chunks).0),
    decreases chunks.len(),
{
    let a = start.lhs@.skip(start.done as int);
    assert(start.lhs@.len() == start.lhs.len());
    if chunks.len() == 0 {
        assert(a.take(0) == Seq::<u8>::empty());
        lemma_verdict_same(Seq::<u8>::empty());
    } else {
        let chunk = chunks[0];
        let rest = chunks.skip(1);
        let after = rest.flatten();
        assert(rest == chunks.drop_first());
        assert(chunks.flatten() == chunk + after);
        let b = tail(chunk + after, start.skip);
        let m = shorter(a.len() as int, b.len() as int);
        let next = start.step(chunk);
        if start.skip >= chunk.len() {
            lemma_verdict_same(Seq::<u8>::empty());
            assert(start.lhs@.subrange(start.done as int, start.done + 0) == Seq::<u8>::empty());
            assert(chunk.subrange(chunk.len() as int, chunk.len() as int) == Seq::<u8>::empty());
            lemma_inner_pass(next.0, rest);
            assert(tail(after, next.0.skip) == b);
        } else {
            let skip = start.skip as int;
            let near = chunk.skip(skip);
            let read = shorter(near.len() as int, a.len() as int);
            let x = a.take(read);
            let y = near.take(read);
            assert(x == start.lhs@.subrange(start.done as int, start.done + read));
            assert(y == chunk.subrange(skip, skip + read));
            assert(b == near + after);
            let found = verdict(x, y);
            if found != Verdict::Equal {
                assert(a.take(m) == x + a.subrange(read, m));
                assert(b.take(m) == y + b.subrange(read, m));
                lemma_verdict_decided(x, y, a.subrange(read, m), b.subrange(read, m));
            } else if near.len() > read {
                assert(a.take(m) == x);
                assert(b.take(m) == y);
            } else {
                lemma_verdict_equal(x, y);
                lemma_inner_pass(next.0, rest);
                let a2 = next.0.lhs@.skip(next.0.done as int);
                let m2 = shorter(a2.len() as int, after.len() as int);
                assert(tail(after, next.0.skip) == after);
                assert(a2 == a.skip(read));
                assert(a.take(m) == x + a2.take(m2));
                assert(b.take(m) == x + after.take(m2));
                lemma_verdict_after_common(x, a2.take(m2), after.take(m2));
            }
        }
    }
}

/// The sink of the left-hand text: it holds the right-hand value, and how
/// much of its text the left-hand chunks so far were matched against.
pub struct Rhs<'a, U: Producer + ?Sized> {
    /// The right-hand value.
    pub rhs: &'a U,
    /// How many bytes of both texts are matched.
    pub pos: usize,
    pub state: State,
    /// Whether any left-hand chunk has arrived, were it an empty one.
    pub seen: bool,
}

impl<'a, U: Producer + ?Sized> Rhs<'a, U> {
    /// The sink before the first left-hand chunk.
    pub fn new(rhs: &'a U) -> (r: Self)
        ensures
            r == (Rhs {
                rhs,
                pos: 0,
                state: State { ret: Verdict::Equal, rhs_is_remaining: false },
                seen: false,
            }),
    {
        Rhs { rhs, pos: 0, state: State::new(), seen: false }
    }
}

impl<'a, U: Producer + ?Sized> Sink for Rhs<'a, U> {
    /// Nothing is decided yet, and where the chunk is matched in full, the
    /// number of matched bytes still fits.
    open spec fn accepts(&self, chunk: Seq<u8>) -> bool {
        &&& self.state.ret == Verdict::Equal
        &&& !self.step(chunk).1 ==> self.pos + chunk.len() <= usize::MAX
    }

    /// The chunk is compared with what follows the matched bytes in the
    /// right-hand text. A difference stops the comparison, and so does a chunk
    /// that goes on where the right-hand text ends. Else the chunk is matched
    /// in full.
    open spec fn step(self, chunk: Seq<u8>) -> (Self, bool) {
        let b = tail(text_of(self.rhs), self.pos);
        let m = shorter(chunk.len() as int, b.len() as int);
        let found = verdict(chunk.take(m), b.take(m));
        if found != Verdict::Equal {
            (
                Rhs {
                    state: State { ret: found, rhs_is_remaining: false },
                    seen: true,
                    ..self
                },
                true,
            )
        } else if chunk.len() > b.len() {
            (
                Rhs {
                    state: State { ret: Verdict::Greater, rhs_is_remaining: false },
                    seen: true,
                    ..self
                },
                true,
            )
        } else {
            (
                Rhs {
                    pos: (self.pos + chunk.len()) as usize,
                    state: State { ret: found, rhs_is_remaining: b.len() > chunk.len() },
                    seen: true,
                    ..self
                },
                false,
            )
        }
    }

    fn consume(&mut self, lhs: &[u8]) -> (stop: bool) {
        self.seen = true;
        self.state.rhs_is_remaining = false;
        let mut adapter = Lhs { lhs, done: 0, skip: self.pos, state: self.state };
        proof {
            lemma_inner_pass(adapter, self.rhs.chunks());
            assert(lhs@.skip(0) == lhs@);
        }
        let _ = self.rhs.render_to(&mut adapter);
        self.state = adapter.state;
        if self.state.ret != Verdict::Equal {
            return true;
        }
        if adapter.done < lhs.len() {
            // The right-hand text ended within the chunk.
            self.state.ret = Verdict::Greater;
            return true;
        }
        self.pos = self.pos + lhs.len();
        false
    }
}

/// Whether the matched bytes can be counted to the end: one of the two texts
/// that are still to come fits into a `usize` together with them.
pub open spec fn can_count<U: Producer + ?Sized>(start: Rhs<U>, text: Seq<u8>) -> bool {
    start.pos + text.len() <= usize::MAX || text_of(start.rhs).len() <= usize::MAX
}

/// However the left-hand text is cut into chunks, rendering it into an
/// [`Rhs`] that has found nothing yet compares it with what follows the
/// matched bytes in the right-hand text.
pub proof fn lemma_outer_pass<U: Producer + ?Sized>(start: Rhs<U>, chunks: Seq<Seq<u8>>)
    requires
        start.state.ret == Verdict::Equal,
        can_count(start, chunks.flatten()),
        chunks.len() == 0 ==> start.state.rhs_is_remaining == (tail(
            text_of(start.rhs),
            start.pos,
        ).len() > 0),
    ensures
        can_feed(start, chunks),
        feed(start, chunks).0.state.answer() == verdict(
            chunks.flatten(),
            tail(text_of(start.rhs), start.pos),
        ),
        chunks.len() > 0 ==> feed(start, chunks).0.seen,
        chunks.len() == 0 ==> feed(start, chunks).0 == start,
    decreases chunks.len(),
{
    let b = tail(text_of(start.rhs), start.pos);
    if chunks.len() == 0 {
        assert(chunks.flatten() == Seq::<u8>::empty());
    } else {
        let chunk = chunks[0];
        let rest = chunks.skip(1);
        let after = rest.flatten();
        assert(rest == chunks.drop_first());
        assert(chunks.flatten() == chunk + after);
        let m = shorter(chunk.len() as int, b.len() as int);
        let x = chunk.take(m);
        let y = b.take(m);
        let found = verdict(x, y);
        let next = start.step(chunk);
        assert(chunk + after == x + (chunk.skip(m) + after));
        assert(b == y + b.skip(m));
        if found != Verdict::Equal {
            lemma_verdict_decided(x, y, chunk.skip(m) + after, b.skip(m));
        } else {
            lemma_verdict_equal(x, y);
            if chunk.len() > b.len() {
                assert(y == b);
                lemma_verdict_longer(b, chunk.skip(m) + after);
            } else {
                assert(x == chunk);
                let b2 = tail(text_of(next.0.rhs), next.0.pos);
                assert(b2 == b.skip(m));
                lemma_outer_pass(next.0, rest);
                lemma_verdict_after_common(chunk, after, b2);
            }
        }
    }
}

} // verus!
