//! Taking a part of a source text.

use vstd::prelude::*;
use vstd::slice::slice_subrange;

verus! {

/// A source text of which a part, between two offsets, can be borrowed.
pub trait Ranged {
    /// The bytes of the source text.
    spec fn bytes(&self) -> Seq<u8>;

    /// The part of the text from offset `start` up to, and without, offset `end`.
    fn range(&self, start: usize, end: usize) -> (part: &Self)
        requires
            start <= end <= self.bytes().len(),
        ensures
            part.bytes() == self.bytes().subrange(start as int, end as int),
    ;
}

impl Ranged for [u8] {
    open spec fn bytes(&self) -> Seq<u8> {
        self@
    }

    fn range(&self, start: usize, end: usize) -> (part: &Self) {
        slice_subrange(self, start, end)
    }
}

} // verus!
