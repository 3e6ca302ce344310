//! Ready-made nodes: a constant generator, an offset, a volume effect and a pass-through.

use crate::node::Node;
use crate::sample::{
    add_samples, add_spec, blend_samples, blend_spec, Amplitude, Sample, UNITY,
};
use vstd::prelude::*;

verus! {

/// A node of one of a few simple kinds.
#[derive(Copy, Clone, Debug, PartialEq, Eq, Structural)]
pub enum BasicNode {
    /// A generator that writes the same sample everywhere.
    Constant(Sample),
    /// An effect that adds a sample to its input, saturating.
    Offset(Sample),
    /// An effect that scales its input by `gain` (a fraction of `UNITY`), with its own dry and
    /// wet shares.
    Volume { gain: Amplitude, dry: Amplitude, wet: Amplitude },
    /// An effect that leaves its input as it is.
    Pass,
}

impl Node for BasicNode {
    open spec fn spec_render(&self, input: Seq<Sample>, sample_hz: u32) -> Seq<Sample> {
        match *self {
            BasicNode::Constant(v) => Seq::new(input.len(), |i: int| v),
            BasicNode::Offset(v) => Seq::new(
                input.len(),
                |i: int| add_spec(input[i] as int, v as int) as Sample,
            ),
            BasicNode::Volume { gain, .. } => Seq::new(
                input.len(),
                |i: int| blend_spec(input[i] as int, 0, gain as int, 0) as Sample,
            ),
            BasicNode::Pass => input,
        }
    }

    open spec fn spec_dry(&self) -> Amplitude {
        match *self {
            BasicNode::Volume { dry, .. } => dry,
            _ => 0,
        }
    }

    open spec fn spec_wet(&self) -> Amplitude {
        match *self {
            BasicNode::Volume { wet, .. } => wet,
            _ => UNITY,
        }
    }

    fn audio_requested(&mut self, buffer: &mut [Sample], sample_hz: u32) {
        let n = buffer.len();
        let mut i: usize = 0;
        while i < n
            invariant
                n == buffer@.len(),
                n == old(buffer)@.len(),
                0 <= i <= n,
                forall|j: int|
                    0 <= j < i ==> buffer@[j] == self.spec_render(old(buffer)@, sample_hz)[j],
                forall|j: int| i <= j < n ==> buffer@[j] == old(buffer)@[j],
            decreases n - i,
        {
            let s = match *self {
                BasicNode::Constant(v) => v,
                BasicNode::Offset(v) => add_samples(buffer[i], v),
                BasicNode::Volume { gain, .. } => blend_samples(buffer[i], 0, gain, 0),
                BasicNode::Pass => buffer[i],
            };
            buffer[i] = s;
            i = i + 1;
        }
        assert(buffer@ =~= self.spec_render(old(buffer)@, sample_hz));
    }

    fn dry(&self) -> (r: Amplitude) {
        match *self {
            BasicNode::Volume { dry, .. } => dry,
            _ => 0,
        }
    }

    fn wet(&self) -> (r: Amplitude) {
        match *self {
            BasicNode::Volume { wet, .. } => wet,
            _ => UNITY,
        }
    }
}

} // verus!
