//! Recorded sound.
use vstd::prelude::*;

verus! {

/// The channels of a recording, all of the same length, and its sample rate, as `binary32`
/// numbers.
#[derive(Clone, Debug)]
pub struct AudioBuffer {
    pub buffers: Vec<Vec<u32>>,
    pub sample_rate: u32,
}

impl AudioBuffer {
    /// The number of channels, as far as a `u8` counts them.
    pub open spec fn channel_count(self) -> int {
        self.buffers@.len() as int % 256
    }

    /// The number of channels, as far as a `u8` counts them.
    pub fn chans(&self) -> (r: u8)
        ensures
            r == self.channel_count(),
    {
        (self.buffers.len() % 256) as u8
    }

    /// The length of the recording, in frames.
    pub fn len(&self) -> (r: usize)
        requires
            self.buffers@.len() > 0,
        ensures
            r == self.buffers@[0]@.len(),
    {
        self.buffers[0].len()
    }
}

} // verus!
