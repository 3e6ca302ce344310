//! Settings of a sound stream.

use crate::settings::lemma_u16_product_fits;
use vstd::prelude::*;

verus! {

/// The settings of a sound stream.
#[derive(Copy, Clone, Debug, PartialEq, Eq, Structural)]
pub struct SoundStreamSettings {
    /// The number of samples per second.
    pub samples_per_sec: u32,
    /// How many frames are requested at a time. More frames make glitches less likely but
    /// respond more slowly.
    pub frames: u16,
    /// The number of channels, for example 2 for stereo sound (left and right speaker).
    pub channels: u16,
}

impl SoundStreamSettings {
    /// Settings with the given sample rate, frames per buffer and channels.
    pub fn new(samples_per_sec: u32, frames: u16, channels: u16) -> (r: SoundStreamSettings)
        ensures
            r == (SoundStreamSettings { samples_per_sec, frames, channels }),
    {
        SoundStreamSettings { samples_per_sec, frames, channels }
    }

    /// The standard settings: 44100 Hz, 512 frames per buffer, stereo.
    pub fn cd_quality() -> (r: SoundStreamSettings)
        ensures
            r == (SoundStreamSettings { samples_per_sec: 44100, frames: 512, channels: 2 }),
    {
        SoundStreamSettings { samples_per_sec: 44100, frames: 512, channels: 2 }
    }

    /// The number of samples in an interleaved buffer of one request: frames times channels.
    pub fn buffer_size(&self) -> (r: usize)
        ensures
            r == self.frames * self.channels,
    {
        proof {
            lemma_u16_product_fits(self.frames, self.channels);
        }
        self.frames as usize * self.channels as usize
    }
}

impl Default for SoundStreamSettings {
    fn default() -> (r: SoundStreamSettings)
        ensures
            r == (SoundStreamSettings { samples_per_sec: 44100, frames: 512, channels: 2 }),
    {
        SoundStreamSettings::cd_quality()
    }
}

} // verus!
