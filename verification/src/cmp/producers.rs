//! The producers that the library itself knows.

use super::stream::{can_feed, feed, text_of, Producer, Sink};
use vstd::prelude::*;
use vstd::string::StringSliceAdditionalSpecFns;
use vstd::utf8::encode_utf8;

verus! {

/// A string renders as its bytes in UTF-8, in one chunk.
impl Producer for str {
    open spec fn chunks(&self) -> Seq<Seq<u8>> {
        seq![self.spec_bytes()]
    }

    fn render_to<S: Sink>(&self, sink: &mut S) -> (stopped: bool) {
        proof {
            lemma_feed_one(*sink, self.spec_bytes());
        }
        sink.consume(self.as_bytes())
    }

    fn whole(&self) -> (r: Option<&[u8]>)
        ensures
            r matches Some(bytes) && bytes@ == self.spec_bytes(),
    {
        proof {
            lemma_one_chunk(self.spec_bytes());
        }
        Some(self.as_bytes())
    }

    fn number(&self) -> (r: Option<u128>)
        ensures
            r.is_none(),
    {
        None
    }
}

/// An owned string renders as the string it holds.
impl Producer for String {
    open spec fn chunks(&self) -> Seq<Seq<u8>> {
        seq![encode_utf8(self@)]
    }

    fn render_to<S: Sink>(&self, sink: &mut S) -> (stopped: bool) {
        self.as_str().render_to(sink)
    }

    fn whole(&self) -> (r: Option<&[u8]>)
        ensures
            r matches Some(bytes) && bytes@ == encode_utf8(self@),
    {
        self.as_str().whole()
    }

    fn number(&self) -> (r: Option<u128>)
        ensures
            r.is_none(),
    {
        None
    }
}

/// Bytes render as themselves, in one chunk.
impl Producer for [u8] {
    open spec fn chunks(&self) -> Seq<Seq<u8>> {
        seq![self@]
    }

    fn render_to<S: Sink>(&self, sink: &mut S) -> (stopped: bool) {
        proof {
            lemma_feed_one(*sink, self@);
        }
        sink.consume(self)
    }

    fn whole(&self) -> (r: Option<&[u8]>)
        ensures
            r matches Some(bytes) && bytes@ == self@,
    {
        proof {
            lemma_one_chunk(self@);
        }
        Some(self)
    }

    fn number(&self) -> (r: Option<u128>)
        ensures
            r.is_none(),
    {
        None
    }
}

/// A reference renders as what it refers to.
impl<'a, P: Producer + ?Sized> Producer for &'a P {
    open spec fn chunks(&self) -> Seq<Seq<u8>> {
        (**self).chunks()
    }

    fn render_to<S: Sink>(&self, sink: &mut S) -> (stopped: bool) {
        (**self).render_to(sink)
    }

    /// What the value referred to gives as its whole text.
    fn whole(&self) -> (r: Option<&[u8]>)
        ensures
            call_ensures(P::whole, (*self,), r),
    {
        (**self).whole()
    }

    /// What the value referred to gives as its number.
    fn number(&self) -> (r: Option<u128>)
        ensures
            call_ensures(P::number, (*self,), r),
    {
        (**self).number()
    }
}

/// One chunk is one step of the sink.
pub proof fn lemma_feed_one<S: Sink>(sink: S, chunk: Seq<u8>)
    ensures
        can_feed(sink, seq![chunk]) == sink.accepts(chunk),
        feed(sink, seq![chunk]) == sink.step(chunk),
{
    let chunks = seq![chunk];
    assert(chunks[0] == chunk);
    assert(chunks.skip(1).len() == 0);
    reveal_with_fuel(feed, 2);
    reveal_with_fuel(can_feed, 2);
}

/// The text of a string is its bytes in UTF-8.
pub proof fn lemma_text_of_str(s: &str)
    ensures
        text_of(s) == s.spec_bytes(),
{
    lemma_one_chunk(s.spec_bytes());
}

/// The text of bytes is the bytes, and it can be counted.
pub proof fn lemma_text_of_bytes(bytes: &[u8])
    ensures
        text_of(bytes) == bytes@,
        text_of(bytes).len() <= usize::MAX,
{
    lemma_one_chunk(bytes@);
    assert(bytes@.len() == bytes.len());
}

/// The text of one chunk is the chunk.
pub proof fn lemma_one_chunk(chunk: Seq<u8>)
    ensures
        seq![chunk].flatten() == chunk,
{
    let chunks = seq![chunk];
    chunks.lemma_flatten_one_element();
    assert(chunks.first() == chunk);
}

} // verus!
