//! Format of one audio stream.
use vstd::prelude::*;

verus! {

/// Sample rate and channel count of a stream that comes in 10 ms chunks.
#[derive(Clone, Copy, Debug)]
pub struct StreamConfig {
    pub sample_rate_hz: u32,
    pub num_channels: u16,
}

impl StreamConfig {
    pub fn new(sample_rate_hz: u32, num_channels: u16) -> (config: StreamConfig)
        ensures
            config.sample_rate_hz == sample_rate_hz,
            config.num_channels == num_channels,
    {
        StreamConfig { sample_rate_hz, num_channels }
    }

    /// Frames of one 10 ms chunk.
    pub open spec fn frames(self) -> int {
        (self.sample_rate_hz / 100) as int
    }

    /// Frames of one 10 ms chunk.
    pub fn num_frames(&self) -> (n: usize)
        ensures
            n == self.frames(),
            n * 100 <= self.sample_rate_hz < n * 100 + 100,
    {
        (self.sample_rate_hz / 100) as usize
    }

    /// Number of channels.
    pub fn num_channels(&self) -> (n: u16)
        ensures
            n == self.num_channels,
    {
        self.num_channels
    }
}

} // verus!
