//! Comparison of values by their text.

pub mod cursor;
pub mod decimal;
pub mod dispatch;
pub mod generic;
pub mod laws;
pub mod producers;
pub mod stream;
pub mod text;

use self::dispatch as imp;
use self::stream::{hashed, text_of, Accumulator, Producer, Sink};
use self::text::text_order;
use core::cmp::Ordering;
use vstd::prelude::*;

verus! {

/// A wrapper type that compares the inner value by its text.
///
/// `Cmp(42)` is greater than `Cmp(240)`, as `"42"` is greater than `"240"`.
#[derive(Clone, Copy, Debug)]
pub struct Cmp<T: ?Sized>(pub T);

impl<T> Cmp<T> {
    /// The inner value.
    pub fn as_ref(&self) -> (r: &T)
        ensures
            *r == self.0,
    {
        &self.0
    }
}

impl<T: Producer + ?Sized> Cmp<T> {
    /// Whether the two inner values have the same text.
    pub fn eq<U: Producer + ?Sized>(&self, other: &Cmp<U>) -> (r: bool)
        requires
            generic::countable(text_of(&self.0), text_of(&other.0)),
        ensures
            r == (text_of(&self.0) == text_of(&other.0)),
    {
        eq(&self.0, &other.0)
    }

    /// The order of the texts of the two inner values. It is always `Some`.
    pub fn partial_cmp<U: Producer + ?Sized>(&self, other: &Cmp<U>) -> (r: Option<Ordering>)
        requires
            generic::countable(text_of(&self.0), text_of(&other.0)),
        ensures
            r == Some(text_order(text_of(&self.0), text_of(&other.0))),
    {
        Some(cmp(&self.0, &other.0))
    }

    /// The order of the texts of the two inner values.
    pub fn cmp(&self, other: &Self) -> (r: Ordering)
        requires
            generic::countable(text_of(&self.0), text_of(&other.0)),
        ensures
            r == text_order(text_of(&self.0), text_of(&other.0)),
    {
        cmp(&self.0, &other.0)
    }

    /// Hashes the inner value by its text.
    pub fn hash<H: Accumulator>(&self, state: &mut H)
        ensures
            *final(state) == hashed(*old(state), text_of(&self.0)),
    {
        hash(&self.0, state)
    }
}

/// The wrapper renders as the inner value does.
impl<T: Producer + ?Sized> Producer for Cmp<T> {
    open spec fn chunks(&self) -> Seq<Seq<u8>> {
        self.0.chunks()
    }

    fn render_to<S: Sink>(&self, sink: &mut S) -> (stopped: bool) {
        self.0.render_to(sink)
    }

    /// What the inner value gives as its whole text.
    fn whole(&self) -> (r: Option<&[u8]>)
        ensures
            call_ensures(T::whole, (&self.0,), r),
    {
        self.0.whole()
    }

    /// What the inner value gives as its number.
    fn number(&self) -> (r: Option<u128>)
        ensures
            call_ensures(T::number, (&self.0,), r),
    {
        self.0.number()
    }
}

/// Tests two values for equality of their texts.
///
/// This yields the same result as comparing the two texts as wholes, without
/// ever holding more of either than one chunk.
pub fn eq<T: Producer + ?Sized, U: Producer + ?Sized>(lhs: &T, rhs: &U) -> (r: bool)
    requires
        generic::countable(text_of(lhs), text_of(rhs)),
    ensures
        r == (text_of(lhs) == text_of(rhs)),
{
    imp::eq(lhs, rhs)
}

/// Compares two values by their texts, lexicographically.
///
/// This yields the same result as comparing the two texts as wholes, without
/// ever holding more of either than one chunk.
pub fn cmp<T: Producer + ?Sized, U: Producer + ?Sized>(lhs: &T, rhs: &U) -> (r: Ordering)
    requires
        generic::countable(text_of(lhs), text_of(rhs)),
    ensures
        r == text_order(text_of(lhs), text_of(rhs)),
{
    imp::cmp(lhs, rhs)
}

/// Hashes a value by its text.
///
/// Values with the same text leave the same accumulator in the same state,
/// however their texts are cut into chunks.
pub fn hash<T: Producer + ?Sized, H: Accumulator>(hashee: &T, hasher: &mut H)
    ensures
        *final(hasher) == hashed(*old(hasher), text_of(hashee)),
{
    imp::hash(hashee, hasher)
}

} // verus!
