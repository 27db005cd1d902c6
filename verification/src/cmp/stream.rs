//! How text travels: a producer renders itself as a sequence of chunks, which
//! it hands one by one to a sink, until the chunks end or the sink says stop.

use super::decimal::decimal;
use vstd::prelude::*;

verus! {

/// A consumer of chunks.
///
/// What a sink does with a chunk is a function of its state and the chunk
/// alone: `step` gives the state after the chunk and whether the sink wants no
/// more. That is what lets a caller tell, from the chunks of a producer, the
/// state in which a rendering leaves the sink.
pub trait Sink: Sized {
    /// Whether the sink can take `chunk` in its present state.
    open spec fn accepts(&self, chunk: Seq<u8>) -> bool {
        true
    }

    /// The state after `chunk`, and whether the sink then asks to stop. An
    /// implementation that is to be reasoned about defines it.
    open spec fn step(self, chunk: Seq<u8>) -> (Self, bool) {
        arbitrary()
    }

    /// Takes one chunk, and returns `true` to ask the producer to stop.
    fn consume(&mut self, chunk: &[u8]) -> (stop: bool)
        requires
            old(self).accepts(chunk@),
        ensures
            (*final(self), stop) == (*old(self)).step(chunk@),
    ;
}

/// Whether `sink` can take the chunks in turn, as far as it lets them come.
pub open spec fn can_feed<S: Sink>(sink: S, chunks: Seq<Seq<u8>>) -> bool
    decreases chunks.len(),
{
    if chunks.len() == 0 {
        true
    } else {
        let next = sink.step(chunks[0]);
        sink.accepts(chunks[0]) && (next.1 || can_feed(next.0, chunks.skip(1)))
    }
}

/// The state in which the chunks leave `sink`, and whether it stopped them:
/// the sink takes one chunk after the other, and none after the one at which it
/// asks to stop.
pub open spec fn feed<S: Sink>(sink: S, chunks: Seq<Seq<u8>>) -> (S, bool)
    decreases chunks.len(),
{
    if chunks.len() == 0 {
        (sink, false)
    } else {
        let next = sink.step(chunks[0]);
        if next.1 {
            next
        } else {
            feed(next.0, chunks.skip(1))
        }
    }
}

/// A value that can emit its text as a sequence of chunks.
///
/// The chunks are the producer's own choice: they may be of any size, empty
/// ones included, and there may be none at all. Rendering the same value again
/// gives the same chunks. A producer has no failure of its own to report: the
/// flag that a rendering returns says that the sink asked to stop, and
/// nothing else.
pub trait Producer {
    /// The chunks of one rendering, in order. An implementation that is to be
    /// reasoned about defines it.
    open spec fn chunks(&self) -> Seq<Seq<u8>> {
        arbitrary()
    }

    /// Hands the chunks to `sink` in order, and stops early where the sink
    /// asks for it. Returns whether the sink did.
    fn render_to<S: Sink>(&self, sink: &mut S) -> (stopped: bool)
        requires
            can_feed(*old(sink), self.chunks()),
        ensures
            (*final(sink), stopped) == feed(*old(sink), self.chunks()),
    ;

    /// The whole text, where the value holds it in one piece. A producer that
    /// does not say so is rendered.
    fn whole(&self) -> (r: Option<&[u8]>)
        ensures
            r matches Some(bytes) ==> bytes@ == self.chunks().flatten(),
    {
        None
    }

    /// The number whose decimal notation the text is, where the value is an
    /// unsigned integer. A producer that does not say so is rendered.
    fn number(&self) -> (r: Option<u128>)
        ensures
            r matches Some(n) ==> self.chunks().flatten() == decimal(n as nat),
    {
        None
    }
}

/// The whole text of a producer: its chunks, one after the other.
pub open spec fn text_of<T: Producer + ?Sized>(producer: &T) -> Seq<u8> {
    producer.chunks().flatten()
}

/// A state that takes in bytes, one at a time.
pub trait Mixer: Sized {
    /// The state after one more byte. An implementation that is to be
    /// reasoned about defines it.
    open spec fn push(self, byte: u8) -> Self {
        arbitrary()
    }
}

/// The state of `acc` after `bytes`.
pub open spec fn absorb<H: Mixer>(acc: H, bytes: Seq<u8>) -> H
    decreases bytes.len(),
{
    if bytes.len() == 0 {
        acc
    } else {
        absorb(acc, bytes.drop_last()).push(bytes.last())
    }
}

/// The state of `acc` after a whole text: after its bytes and the byte `0xFF`
/// that ends it.
pub open spec fn hashed<H: Mixer>(acc: H, text: Seq<u8>) -> H {
    absorb(acc, text).push(0xff)
}

/// An incremental hash.
///
/// The state after some bytes is the state after each of them in turn, however
/// they are cut into calls of `update`.
pub trait Accumulator: Mixer {
    /// Takes in `bytes`, in order.
    fn update(&mut self, bytes: &[u8])
        ensures
            *final(self) == absorb(*old(self), bytes@),
    ;

    /// Takes in the byte `0xFF`, which ends a text.
    fn write_sentinel(&mut self)
        ensures
            *final(self) == (*old(self)).push(0xff),
    {
        let sentinel: [u8; 1] = [0xff];
        proof {
            assert(sentinel@.drop_last().len() == 0);
            reveal_with_fuel(absorb, 2);
        }
        self.update(sentinel.as_slice());
    }
}

/// An accumulator is a sink that takes in every chunk and never stops.
impl<H: Accumulator> Sink for H {
    open spec fn accepts(&self, chunk: Seq<u8>) -> bool {
        true
    }

    open spec fn step(self, chunk: Seq<u8>) -> (Self, bool) {
        (absorb(self, chunk), false)
    }

    fn consume(&mut self, chunk: &[u8]) -> (stop: bool) {
        self.update(chunk);
        false
    }
}

/// Bytes taken in one after the other are taken in as one.
pub proof fn lemma_absorb_twice<H: Accumulator>(acc: H, first: Seq<u8>, second: Seq<u8>)
    ensures
        absorb(absorb(acc, first), second) == absorb(acc, first + second),
    decreases second.len(),
{
    if second.len() == 0 {
        assert(first + second == first);
    } else {
        lemma_absorb_twice(acc, first, second.drop_last());
        assert((first + second).drop_last() == first + second.drop_last());
    }
}

/// An accumulator takes any chunks, and they leave it in the state in which
/// their bytes, taken as one, would.
pub proof fn lemma_feed_accumulator<H: Accumulator>(acc: H, chunks: Seq<Seq<u8>>)
    ensures
        can_feed(acc, chunks),
        feed(acc, chunks) == (absorb(acc, chunks.flatten()), false),
    decreases chunks.len(),
{
    if chunks.len() > 0 {
        let next = absorb(acc, chunks[0]);
        lemma_feed_accumulator(next, chunks.skip(1));
        lemma_absorb_twice(acc, chunks[0], chunks.skip(1).flatten());
        assert(chunks.skip(1) == chunks.drop_first());
    }
}

} // verus!
