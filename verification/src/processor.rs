//! The per-block callback contract.
//!
//! The oversampling engine hands a mutable view of oversampled samples to a
//! caller-supplied stage and threads the stage's result back out.  A stage is
//! anything that implements [`BlockProcessor`]: its exact behaviour is its
//! `model`, what it asks of a block is its `pre`, and what it promises of its
//! returned value is its `post`.

use vstd::prelude::*;

use crate::conv::ints;

verus! {

/// A stage that transforms one block of samples in place and may hand back a
/// result.
///
/// The three spec functions describe the stage as a pure transform: a call
/// may update internal scratch state, but must leave `pre`, `model` and
/// `post` as they were, so that a stream of blocks is processed by one
/// unchanging transform.  Their defaults describe a stage that accepts any
/// block and changes nothing; a stage that transforms its block overrides
/// them.
pub trait BlockProcessor: Sized {
    /// The side information a call hands back.
    type Output;

    /// What the stage asks of a block before it will process it.
    open spec fn pre(&self, input: Seq<int>) -> bool {
        true
    }

    /// The block the stage writes back, as a function of the block it read.
    open spec fn model(&self, input: Seq<int>) -> Seq<int> {
        input
    }

    /// What the stage promises of its returned value.
    open spec fn post(&self, input: Seq<int>, out: Self::Output) -> bool {
        true
    }

    /// Transform `buf` in place, keeping its length.
    fn process_block(&mut self, buf: &mut Vec<i64>) -> (r: Self::Output)
        requires
            old(self).pre(ints(old(buf)@)),
        ensures
            ints(final(buf)@) == old(self).model(ints(old(buf)@)),
            final(buf)@.len() == old(buf)@.len(),
            old(self).post(ints(old(buf)@), r),
            forall|s: Seq<int>| #[trigger] final(self).pre(s) == old(self).pre(s),
            forall|s: Seq<int>| #[trigger] final(self).model(s) == old(self).model(s),
            forall|s: Seq<int>, o: Self::Output| #[trigger] final(self).post(s, o) == old(
                self,
            ).post(s, o),
    ;
}

/// The stage that does nothing: the engine's seam with no creative
/// processing plugged in.
pub struct Bypass;

impl BlockProcessor for Bypass {
    type Output = ();

    fn process_block(&mut self, _buf: &mut Vec<i64>) -> (r: ()) {
    }
}

} // verus!
