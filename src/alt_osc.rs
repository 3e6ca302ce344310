//! A node that passes its summed inputs through unchanged.

use crate::node::Node;
use crate::sample::{Amplitude, Sample, UNITY};
use crate::sound_stream_settings::SoundStreamSettings;
use vstd::prelude::*;

verus! {

/// A node that leaves its buffer as it finds it, so that its output is the sum of its
/// inputs. It records the stream settings it was made for.
#[derive(Copy, Clone, Debug, PartialEq, Eq, Structural)]
pub struct AltOsc {
    /// The settings of the stream the node renders for.
    pub settings: SoundStreamSettings,
}

impl AltOsc {
    /// A pass-through node for the given stream settings.
    pub fn new(settings: SoundStreamSettings) -> (r: AltOsc)
        ensures
            r.settings == settings,
    {
        AltOsc { settings }
    }
}

impl Node for AltOsc {
    open spec fn spec_render(&self, input: Seq<Sample>, sample_hz: u32) -> Seq<Sample> {
        input
    }

    fn audio_requested(&mut self, buffer: &mut [Sample], sample_hz: u32) {
    }

    fn dry(&self) -> (r: Amplitude) {
        0
    }

    fn wet(&self) -> (r: Amplitude) {
        UNITY
    }
}

} // verus!
