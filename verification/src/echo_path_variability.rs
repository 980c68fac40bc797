//! Changes of the path from the loudspeaker to the microphone.
use vstd::prelude::*;

verus! {

/// How the delay of the render signal was adjusted.
#[derive(Clone, Copy, Debug, PartialEq, Eq, Structural)]
pub enum DelayAdjustment {
    Unchanged,
    BufferFlush,
    NewDetectedDelay,
}

/// What changed since the last block.
#[derive(Clone, Copy, Debug, PartialEq, Eq, Structural)]
pub struct EchoPathVariability {
    pub gain_change: bool,
    pub delay_change: DelayAdjustment,
    pub clock_drift: bool,
}

impl EchoPathVariability {
    /// Whether the gain or the delay changed.
    pub open spec fn changes_path(self) -> bool {
        self.gain_change || self.delay_change != DelayAdjustment::Unchanged
    }

    pub fn new(gain_change: bool, delay_change: DelayAdjustment, clock_drift: bool) -> (r:
        EchoPathVariability)
        ensures
            r == (EchoPathVariability { gain_change, delay_change, clock_drift }),
    {
        EchoPathVariability { gain_change, delay_change, clock_drift }
    }

    /// Whether the gain or the delay changed.
    pub fn audio_path_changed(&self) -> (changed: bool)
        ensures
            changed == self.changes_path(),
            changed <==> self.gain_change || self.delay_change == DelayAdjustment::BufferFlush
                || self.delay_change == DelayAdjustment::NewDetectedDelay,
    {
        self.gain_change || self.delay_change != DelayAdjustment::Unchanged
    }
}

/// The echo path changes with every change of the gain and with every adjustment
/// of the delay, whether the buffer was flushed or a new delay was found.
pub proof fn lemma_every_adjustment_changes_the_path(variability: EchoPathVariability)
    ensures
        variability.gain_change ==> variability.changes_path(),
        variability.delay_change == DelayAdjustment::BufferFlush ==> variability.changes_path(),
        variability.delay_change == DelayAdjustment::NewDetectedDelay
            ==> variability.changes_path(),
        !variability.gain_change && variability.delay_change == DelayAdjustment::Unchanged
            ==> !variability.changes_path(),
{
}

} // verus!
