//! The contract that types used within a [`Graph`](crate::Graph) implement.

use crate::sample::{Amplitude, Sample, UNITY};
use vstd::prelude::*;

verus! {

/// Types to be used as a node within the DSP graph.
///
/// A node states what it does through three spec functions: what it renders from a given
/// input, and its dry and wet shares. The graph's render contract is stated over them.
/// [`BasicNode`](crate::BasicNode) holds ready-made kinds.
pub trait Node {
    /// What the node renders from `input` at the sample rate `sample_hz`.
    spec fn spec_render(&self, input: Seq<Sample>, sample_hz: u32) -> Seq<Sample>;

    /// The share of the dry signal the node keeps.
    open spec fn spec_dry(&self) -> Amplitude {
        0
    }

    /// The share of the wet signal the node keeps.
    open spec fn spec_wet(&self) -> Amplitude {
        UNITY
    }

    /// Renders into `buffer` at the sample rate `sample_hz`.
    ///
    /// On entry `buffer` holds the sum of the node's inputs, or silence if it has none.
    /// Generators write straight to the buffer; effects rewrite what is there.
    fn audio_requested(&mut self, buffer: &mut [Sample], sample_hz: u32)
        ensures
            final(buffer)@.len() == old(buffer)@.len(),
            final(buffer)@ == old(self).spec_render(old(buffer)@, sample_hz),
    ;

    /// The share of the dry signal kept after rendering, as a fraction of `UNITY`: 0 for a
    /// generator, which keeps none of its input.
    fn dry(&self) -> (r: Amplitude)
        ensures
            r == self.spec_dry(),
    ;

    /// The share of the wet signal kept after rendering, as a fraction of `UNITY`: `UNITY`
    /// for a generator, which keeps all of what it renders.
    fn wet(&self) -> (r: Amplitude)
        ensures
            r == self.spec_wet(),
    ;
}

} // verus!
