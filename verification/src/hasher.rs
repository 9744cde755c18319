//! The abstract checksum capability the engine depends on.

use vstd::prelude::*;

verus! {

/// A stateful 32-bit checksum accumulator over word sequences.
///
/// The engine never fixes a concrete algorithm; callers supply an
/// implementation (for instance a CRC-32 digest). Verification relies only
/// on the contract below: the accumulator folds in exactly the words it was
/// handed since the last `reset`, and `sum` is a function of those words
/// alone, so feeding the same words on the write path and on the validation
/// path yields the same code.
pub trait StorageHasher32: Sized {
    /// The words folded into the accumulator since the last `reset`.
    ///
    /// The default body is only a placeholder: it lets an implementation
    /// written outside `verus!` — a test or demo harness wrapping a CRC
    /// crate, say — omit the ghost items, since nothing is proved about
    /// such an implementation anyway. A verified implementation overrides
    /// it with its real ghost state.
    open spec fn accum(&self) -> Seq<u32> {
        Seq::<u32>::empty()
    }

    /// The code this implementation computes for a given word sequence.
    ///
    /// The default body is only a placeholder in the same way.
    open spec fn spec_sum(words: Seq<u32>) -> u32 {
        0
    }

    /// Clear the accumulated state.
    fn reset(&mut self)
        ensures
            final(self).accum() == Seq::<u32>::empty(),
    ;

    /// Fold additional words into the running code.
    fn write(&mut self, words: &[u32])
        ensures
            final(self).accum() == old(self).accum() + words@,
    ;

    /// The current 32-bit code.
    fn sum(&self) -> (r: u32)
        ensures
            r == Self::spec_sum(self.accum()),
    ;
}

} // verus!
