//! Copies split-band render audio into the frame that goes to the render queue.
use crate::audio_buffer::AudioBuffer;
use crate::frame::{bands_of, copy_buffer_into_frame, SPLIT_BAND_SIZE};
use crate::planes::{frame_of, frame_shaped, new_frame, silent_frame};
use crate::sample::Sample;
use vstd::prelude::*;

verus! {

/// Prepares render frames for the render queue.
#[derive(Debug)]
pub struct RenderWriter {
    num_bands: usize,
    num_channels: usize,
    high_pass_filter: bool,
    /// `render_queue_input_frame[band][channel]`
    render_queue_input_frame: Vec<Vec<Vec<Sample>>>,
}

/// What a render writer holds.
#[verifier::ext_equal]
pub struct WriterState {
    pub num_bands: usize,
    pub num_channels: usize,
    pub high_pass_filter: bool,
    pub frame: Seq<Seq<Seq<Sample>>>,
}

impl WriterState {
    pub open spec fn wf(self) -> bool {
        frame_shaped(
            self.frame,
            self.num_bands as int,
            self.num_channels as int,
            SPLIT_BAND_SIZE as int,
        )
    }
}

impl View for RenderWriter {
    type V = WriterState;

    closed spec fn view(&self) -> WriterState {
        WriterState {
            num_bands: self.num_bands,
            num_channels: self.num_channels,
            high_pass_filter: self.high_pass_filter,
            frame: frame_of(self.render_queue_input_frame@),
        }
    }
}

impl RenderWriter {
    /// Creates a writer; `high_pass_filter` says whether the echo reference is
    /// high-pass filtered.
    pub fn new(high_pass_filter: bool, num_bands: usize, num_channels: usize) -> (w: RenderWriter)
        ensures
            w@.wf(),
            w@ == (WriterState {
                num_bands,
                num_channels,
                high_pass_filter,
                frame: silent_frame(
                    num_bands as int,
                    num_channels as int,
                    SPLIT_BAND_SIZE as int,
                ),
            }),
    {
        RenderWriter {
            num_bands,
            num_channels,
            high_pass_filter,
            render_queue_input_frame: new_frame(num_bands, num_channels, SPLIT_BAND_SIZE),
        }
    }

    /// Copies the bands of a buffer into the frame. Says whether band 0 of it is
    /// to be high-pass filtered before it goes to the queue.
    pub fn insert(&mut self, input: &AudioBuffer) -> (filter: bool)
        requires
            old(self)@.wf(),
            input@.wf(),
            input@.num_split_frames == SPLIT_BAND_SIZE,
            input@.num_bands == old(self)@.num_bands,
            input@.num_channels == old(self)@.num_channels,
        ensures
            final(self)@.wf(),
            filter == old(self)@.high_pass_filter,
            final(self)@ == (WriterState {
                frame: bands_of(
                    input@,
                    input@.num_bands as int,
                    input@.num_channels as int,
                    0,
                    SPLIT_BAND_SIZE as int,
                ),
                ..old(self)@
            }),
            forall|b: int, c: int|
                #![trigger final(self)@.frame[b][c]]
                0 <= b < input@.num_bands && 0 <= c < input@.num_channels
                    ==> final(self)@.frame[b][c] == input@.band(c, b),
    {
        proof {
            assert forall|b: int, c: int|
                0 <= b < input@.num_bands && 0 <= c < input@.num_channels implies (
            #[trigger] input@.band(c, b)).len() == SPLIT_BAND_SIZE by {
                input@.lemma_band_length(c, b);
            }
        }
        copy_buffer_into_frame(
            input,
            self.num_bands,
            self.num_channels,
            &mut self.render_queue_input_frame,
        );
        self.high_pass_filter
    }

    /// The frame, for filtering and for the queue.
    pub fn frame_mut(&mut self) -> (frame: &mut Vec<Vec<Vec<Sample>>>)
        ensures
            frame_of(frame@) == old(self)@.frame,
            final(self)@ == (WriterState { frame: frame_of(final(frame)@), ..old(self)@ }),
    {
        &mut self.render_queue_input_frame
    }
}

} // verus!
