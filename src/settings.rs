//! Settings of an audio stream.

use vstd::prelude::*;

verus! {

/// Samples per second.
pub type SampleHz = u32;

/// Frames per buffer.
pub type Frames = u16;

/// Channels per frame.
pub type Channels = u16;

/// The settings of an audio stream.
#[derive(Copy, Clone, Debug, PartialEq, Eq, Structural)]
pub struct Settings {
    /// The number of samples per second.
    pub sample_hz: SampleHz,
    /// How many frames are requested at a time. More frames make glitches less likely but
    /// respond more slowly.
    pub frames: Frames,
    /// The number of channels, for example 2 for stereo sound (left and right speaker).
    pub channels: Channels,
}

impl Settings {
    /// Settings with the given sample rate, frames per buffer and channels.
    pub fn new(sample_hz: SampleHz, frames: Frames, channels: Channels) -> (r: Settings)
        ensures
            r == (Settings { sample_hz, frames, channels }),
    {
        Settings { sample_hz, frames, channels }
    }

    /// The standard settings: 44100 Hz, 256 frames per buffer, stereo.
    pub fn cd_quality() -> (r: Settings)
        ensures
            r == (Settings { sample_hz: 44100, frames: 256, channels: 2 }),
    {
        Settings { sample_hz: 44100, frames: 256, channels: 2 }
    }

    /// The number of samples in an interleaved buffer of one request: frames times channels.
    pub fn buffer_size(&self) -> (r: usize)
        ensures
            r == self.frames * self.channels,
    {
        proof {
            lemma_u16_product_fits(self.frames, self.channels);
        }
        self.frames as usize * self.channels as usize
    }
}

impl Default for Settings {
    fn default() -> (r: Settings)
        ensures
            r == (Settings { sample_hz: 44100, frames: 256, channels: 2 }),
    {
        Settings::cd_quality()
    }
}

/// The product of two `u16` values fits in a `u32`.
pub proof fn lemma_u16_product_fits(a: u16, b: u16)
    ensures
        a * b <= u32::MAX,
{
    assert(a * b <= 0xffff * 0xffff) by (nonlinear_arith)
        requires
            a <= 0xffff,
            b <= 0xffff,
    ;
}

} // verus!
