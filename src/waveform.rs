//! The waveforms an oscillator can produce.

use vstd::prelude::*;

verus! {

/// A waveform an oscillator can produce.
#[derive(Copy, Clone, Debug, PartialEq, Eq, Structural)]
pub enum Waveform {
    /// Sine wave.
    Sine,
    /// Saw wave.
    Saw,
    /// Square wave.
    Square,
    /// Noise.
    Noise,
    /// A random walk.
    NoiseWalk,
}

} // verus!
