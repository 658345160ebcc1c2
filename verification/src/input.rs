//! Inputs: what is left to parse, and whether more may follow it.

use vstd::prelude::*;
use vstd::slice::slice_subrange;

verus! {

/// Marks an input as a prefix of data that is still arriving: a parser that
/// runs out of it suspends instead of failing.
#[derive(Debug, Clone, Copy, PartialEq, Eq)]
pub struct Streaming<I>(pub I);

impl<I: View> View for Streaming<I> {
    type V = I::V;

    open spec fn view(&self) -> I::V {
        self.0@
    }
}

/// An input over bytes. Its model is the sequence of bytes not yet consumed;
/// its completeness mode belongs to the type.
pub trait Input<'a>: Copy + View<V = Seq<u8>> {
    /// Whether more data may follow what the input holds (streaming mode),
    /// or the input is all there is (complete mode).
    spec fn partial() -> bool;

    /// The completeness mode.
    fn is_partial(&self) -> (partial: bool)
        ensures
            partial == Self::partial(),
    ;

    /// The bytes that are left.
    fn as_bytes(&self) -> (bytes: &'a [u8])
        ensures
            bytes@ == self@,
    ;

    /// Splits off the first `count` bytes: the input that follows them, and
    /// the bytes themselves.
    fn take_split(&self, count: usize) -> (parts: (Self, &'a [u8]))
        requires
            count <= self@.len(),
        ensures
            parts.0@ == self@.skip(count as int),
            parts.1@ == self@.take(count as int),
    ;
}

impl<'a> Input<'a> for &'a [u8] {
    open spec fn partial() -> bool {
        false
    }

    fn is_partial(&self) -> (partial: bool) {
        false
    }

    fn as_bytes(&self) -> (bytes: &'a [u8]) {
        *self
    }

    fn take_split(&self, count: usize) -> (parts: (Self, &'a [u8])) {
        let bytes: &'a [u8] = *self;
        (slice_subrange(bytes, count, bytes.len()), slice_subrange(bytes, 0, count))
    }
}

impl<'a, I: Input<'a>> Input<'a> for Streaming<I> {
    open spec fn partial() -> bool {
        true
    }

    fn is_partial(&self) -> (partial: bool) {
        true
    }

    fn as_bytes(&self) -> (bytes: &'a [u8]) {
        self.0.as_bytes()
    }

    fn take_split(&self, count: usize) -> (parts: (Self, &'a [u8])) {
        let (rest, taken) = self.0.take_split(count);
        (Streaming(rest), taken)
    }
}

} // verus!
