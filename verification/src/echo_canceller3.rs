//! Top level of the echo canceller.
//!
//! Coordinates render and capture: 10 ms frames are cut into sub-frames, which
//! are blocked into 64-sample blocks and handed to the block processor.
//!
//! The canceller decides what is to be done next and prepares the samples for
//! it. Its driver owns the render queue, the content detector, the blockers and
//! framers and the block processor: it performs each `Action` and reports back
//! with an `Event`.
use crate::audio_buffer::{AudioBuffer, AudioState};
use crate::block_delay_buffer::{BlockDelayBuffer, DelayState};
use crate::common::{is_full_band_rate, num_bands_for_rate};
use crate::frame::{
    bands_of, downmixed, fill_sub_frame_from_audio_buffer, fill_sub_frame_from_render_frame,
    lemma_band_replaced, lemma_bands_are_read, lemma_downmix_keeps_other_sub_frame,
    lemma_render_sub_frame_by_sample, lemma_sub_frame_write_of_read, lemma_sub_frames_replace_bands,
    render_sub_frame, write_sub_frame_to_audio_buffer, written, SPLIT_BAND_SIZE, SUB_FRAME_LENGTH,
};
use crate::planes::{frame_of, frame_shaped, inner_count, new_frame, planes_shaped, silent_frame};
use crate::render_writer::{RenderWriter, WriterState};
use crate::sample::{is_at_most, of_integer, product, quotient, sum, Sample};
use vstd::prelude::*;

verus! {

/// Whether a sample counts as saturated.
pub open spec fn is_saturated(v: Sample) -> bool {
    is_at_most(of_integer(32700), v) || is_at_most(v, of_integer(-32700))
}

/// Whether any sample of a plane is saturated.
pub open spec fn has_saturation(y: Seq<Sample>) -> bool {
    exists|i: int| 0 <= i < y.len() && is_saturated(#[trigger] y[i])
}

/// Detects microphone saturation.
pub fn detect_saturation(y: &[Sample]) -> (saturated: bool)
    ensures
        saturated == has_saturation(y@),
{
    let high = Sample::from_i32(32700);
    let low = Sample::from_i32(-32700);
    for i in 0..y.len()
        invariant
            high == of_integer(32700),
            low == of_integer(-32700),
            forall|k: int| 0 <= k < i ==> !is_saturated(#[trigger] y@[k]),
    {
        if high.at_most(y[i]) || y[i].at_most(low) {
            assert(is_saturated(y@[i as int]));
            return true;
        }
    }
    false
}

/// Whether any visible channel of a signal is saturated.
pub open spec fn saturates(signal: AudioState) -> bool {
    exists|c: int|
        0 <= c < signal.num_channels && has_saturation(#[trigger] signal.channels[c])
}

/// Detects saturation in the visible channels of a signal.
fn is_signal_saturated(signal: &AudioBuffer) -> (saturated: bool)
    requires
        signal@.wf(),
    ensures
        saturated == saturates(signal@),
{
    let num_channels: usize = signal.num_channels();
    for c in 0..num_channels
        invariant
            signal@.wf(),
            num_channels == signal@.num_channels,
            forall|k: int| 0 <= k < c ==> !has_saturation(#[trigger] signal@.channels[k]),
    {
        if detect_saturation(signal.channel(c)) {
            assert(has_saturation(signal@.channels[c as int]));
            return true;
        }
    }
    false
}

/// What the canceller reads of the active configuration.
#[derive(Clone, Copy, Debug)]
pub struct ActiveConfig {
    pub fixed_capture_delay_samples: usize,
    pub high_pass_filter_echo_reference: bool,
    pub export_linear_aec_output: bool,
}

/// Where a capture call stands: what was last asked of the driver.
#[derive(Clone, Copy, Debug, PartialEq, Eq, Structural)]
pub enum Phase {
    /// No call is under way.
    Idle,
    /// To take a frame from the render queue.
    RenderFrame,
    /// To detect multi-channel content in the frame.
    Detection,
    /// To rebuild what depends on the number of render channels.
    Reinitialisation,
    /// To buffer a sub-frame of the frame.
    RenderSubFrame { index: usize },
    /// To say whether a further block of render samples is complete.
    RenderRemainder,
    /// To buffer that block.
    RenderBlock,
    /// To process a sub-frame of the capture signal.
    CaptureSubFrame { index: usize },
    /// To say whether a further block of capture samples is complete.
    CaptureRemainder,
    /// To process that block.
    CaptureBlock,
}

/// What the driver reports.
#[derive(Clone, Copy, Debug, PartialEq, Eq, Structural)]
pub enum Event {
    /// The queue had a frame; it is in the render frame now.
    FrameTaken,
    /// The queue was empty. `temporary` says whether multi-channel content is
    /// detected for the time being.
    QueueEmpty { temporary: bool },
    /// The frame was looked at. `changed` says whether the detection of proper
    /// multi-channel content changed, `proper` and `temporary` what holds now.
    Detected { changed: bool, proper: bool, temporary: bool },
    /// All is rebuilt. `delays_capture` says whether the configuration that is
    /// now active delays the capture signal.
    Reinitialised { delays_capture: bool },
    /// What was asked is done.
    Done,
    /// Whether a further block is complete.
    BlockAvailable { available: bool },
}

/// How the block processor is to be called.
#[derive(Clone, Copy, Debug, PartialEq, Eq, Structural)]
pub struct ProcessorCall {
    pub echo_path_gain_change: bool,
    pub capture_signal_saturation: bool,
    pub linear_output: bool,
}

/// What the driver is asked to do.
#[derive(Clone, Copy, Debug, PartialEq, Eq, Structural)]
pub enum Action {
    /// The linear output was asked for and is not configured; the call is over.
    RejectLinearOutput,
    /// Take a frame from the render queue into the render frame.
    TakeRenderFrame,
    /// Report a render call and look at the render frame.
    DetectContent,
    /// Rebuild what depends on the number of render channels.
    Reinitialise { proper: bool, num_render_channels: usize },
    /// Insert the render sub-frame, extract a block, buffer it.
    BufferRenderSubFrame,
    /// Say whether a further block of render samples is complete.
    CheckRenderBlock,
    /// Extract that block, buffer it.
    BufferRenderBlock,
    /// Insert the capture sub-frame, extract a block, process it, frame it into
    /// the capture sub-frame.
    ProcessSubFrame { call: ProcessorCall },
    /// Say whether a further block of capture samples is complete.
    CheckCaptureBlock,
    /// Extract that block, process it, frame it.
    ProcessBlock { call: ProcessorCall },
    /// The call is over.
    Finish,
}

/// What a capture call remembers.
#[derive(Clone, Copy, Debug, PartialEq, Eq, Structural)]
pub struct Call {
    pub phase: Phase,
    pub level_change: bool,
    pub linear_output: bool,
    /// Whether proper multi-channel content is detected.
    pub proper: bool,
    /// Whether render frames are to be averaged where they are mixed down.
    pub proper_downmix_needed: bool,
    /// Whether the echo reference is mixed down from several channels.
    pub reference_is_downmixed: bool,
}

/// Whether an event answers what was asked.
pub open spec fn answers(phase: Phase, event: Event) -> bool {
    match phase {
        Phase::Idle => false,
        Phase::RenderFrame => event is FrameTaken || event is QueueEmpty,
        Phase::Detection => event is Detected,
        Phase::Reinitialisation => event is Reinitialised,
        Phase::RenderRemainder | Phase::CaptureRemainder => event is BlockAvailable,
        Phase::RenderSubFrame { .. }
        | Phase::RenderBlock
        | Phase::CaptureSubFrame { .. }
        | Phase::CaptureBlock => event is Done,
    }
}

/// What is asked next.
pub open spec fn next_phase(phase: Phase, event: Event) -> Phase {
    match (phase, event) {
        (Phase::RenderFrame, Event::FrameTaken) => Phase::Detection,
        (Phase::RenderFrame, Event::QueueEmpty { .. }) => Phase::CaptureSubFrame { index: 0 },
        (Phase::Detection, Event::Detected { changed, .. }) => if changed {
            Phase::Reinitialisation
        } else {
            Phase::RenderSubFrame { index: 0 }
        },
        (Phase::Reinitialisation, _) => Phase::RenderSubFrame { index: 0 },
        (Phase::RenderSubFrame { index }, _) => if index == 0 {
            Phase::RenderSubFrame { index: 1 }
        } else {
            Phase::RenderRemainder
        },
        (Phase::RenderRemainder, Event::BlockAvailable { available }) => if available {
            Phase::RenderBlock
        } else {
            Phase::RenderFrame
        },
        (Phase::RenderBlock, _) => Phase::RenderFrame,
        (Phase::CaptureSubFrame { index }, _) => if index == 0 {
            Phase::CaptureSubFrame { index: 1 }
        } else {
            Phase::CaptureRemainder
        },
        (Phase::CaptureRemainder, Event::BlockAvailable { available }) => if available {
            Phase::CaptureBlock
        } else {
            Phase::Idle
        },
        (Phase::CaptureBlock, _) => Phase::Idle,
        _ => phase,
    }
}

/// What an echo canceller holds.
#[verifier::ext_equal]
pub struct CancellerState {
    pub sample_rate_hz: usize,
    pub num_bands: usize,
    pub num_render_input_channels: usize,
    pub num_render_channels_to_aec: usize,
    pub num_capture_channels: usize,
    pub writer: WriterState,
    /// `render_frame[band][channel]`: the frame last taken from the queue.
    pub render_frame: Seq<Seq<Seq<Sample>>>,
    /// `render_view[band][channel]`: the render sub-frame.
    pub render_view: Seq<Seq<Seq<Sample>>>,
    /// `capture_view[band][channel]`: the capture sub-frame.
    pub capture_view: Seq<Seq<Seq<Sample>>>,
    /// `linear_view[band][channel]`: the linear output sub-frame, where it is
    /// configured.
    pub linear_view: Option<Seq<Seq<Seq<Sample>>>>,
    pub delay: Option<DelayState>,
    /// Whether the active configuration delays the capture signal.
    pub delays_capture: bool,
    pub saturated_microphone_signal: bool,
    pub call: Call,
}

impl CancellerState {
    pub open spec fn wf(self) -> bool {
        &&& is_full_band_rate(self.sample_rate_hz)
        &&& self.num_bands * 16000 == self.sample_rate_hz
        &&& 0 < self.num_render_input_channels <= isize::MAX
        &&& 0 < self.num_capture_channels
        &&& self.num_render_channels_to_aec == 1 || self.num_render_channels_to_aec
            == self.num_render_input_channels
        &&& self.writer.wf()
        &&& self.writer.num_bands == self.num_bands
        &&& self.writer.num_channels == self.num_render_input_channels
        &&& frame_shaped(
            self.render_frame,
            self.num_bands as int,
            self.num_render_input_channels as int,
            SPLIT_BAND_SIZE as int,
        )
        &&& frame_shaped(
            self.render_view,
            self.num_bands as int,
            self.num_render_channels_to_aec as int,
            SUB_FRAME_LENGTH as int,
        )
        &&& frame_shaped(
            self.capture_view,
            self.num_bands as int,
            self.num_capture_channels as int,
            SUB_FRAME_LENGTH as int,
        )
        &&& self.linear_view matches Some(view) ==> frame_shaped(
            view,
            1,
            self.num_capture_channels as int,
            SUB_FRAME_LENGTH as int,
        )
        &&& self.delay matches Some(delay) ==> {
            &&& delay.wf()
            &&& delay.lines.len() == self.num_capture_channels
            &&& delay.num_bands == self.num_bands
            &&& delay.frame_length == SPLIT_BAND_SIZE
        }
        &&& self.call.phase matches Phase::RenderSubFrame { index } ==> index <= 1
        &&& self.call.phase matches Phase::CaptureSubFrame { index } ==> index <= 1
    }

    /// What a new canceller holds.
    pub open spec fn fresh(
        config: ActiveConfig,
        sample_rate_hz: usize,
        num_render_channels: usize,
        num_capture_channels: usize,
    ) -> CancellerState {
        let num_bands = sample_rate_hz / 16000;
        let bands = num_bands as int;
        let delay_samples = config.fixed_capture_delay_samples;
        CancellerState {
            sample_rate_hz,
            num_bands,
            num_render_input_channels: num_render_channels,
            num_render_channels_to_aec: 1,
            num_capture_channels,
            writer: WriterState {
                num_bands,
                num_channels: num_render_channels,
                high_pass_filter: config.high_pass_filter_echo_reference,
                frame: silent_frame(bands, num_render_channels as int, SPLIT_BAND_SIZE as int),
            },
            render_frame: silent_frame(
                bands,
                num_render_channels as int,
                SPLIT_BAND_SIZE as int,
            ),
            render_view: silent_frame(bands, 1, SUB_FRAME_LENGTH as int),
            capture_view: silent_frame(
                bands,
                num_capture_channels as int,
                SUB_FRAME_LENGTH as int,
            ),
            linear_view: if config.export_linear_aec_output {
                Some(silent_frame(1, num_capture_channels as int, SUB_FRAME_LENGTH as int))
            } else {
                None
            },
            delay: if delay_samples > 0 {
                Some(
                    DelayState {
                        frame_length: SPLIT_BAND_SIZE,
                        delay: delay_samples,
                        num_bands,
                        lines: silent_frame(
                            num_capture_channels as int,
                            bands,
                            delay_samples as int,
                        ),
                    },
                )
            } else {
                None
            },
            delays_capture: delay_samples > 0,
            saturated_microphone_signal: false,
            call: Call {
                phase: Phase::Idle,
                level_change: false,
                linear_output: false,
                proper: false,
                proper_downmix_needed: false,
                reference_is_downmixed: false,
            },
        }
    }

    /// Whether a capture buffer has the canceller's format.
    pub open spec fn accepts(self, capture: AudioState) -> bool {
        &&& capture.wf()
        &&& capture.num_bands == self.num_bands
        &&& capture.num_split_frames == SPLIT_BAND_SIZE
        &&& capture.num_channels == self.num_capture_channels
    }

    /// The state in another phase.
    pub open spec fn in_phase(self, phase: Phase) -> CancellerState {
        CancellerState { call: Call { phase, ..self.call }, ..self }
    }

    /// Whether a capture call asks for a linear output that is not configured.
    pub open spec fn rejects(self, linear_output: bool) -> bool {
        linear_output && self.linear_view is None
    }

    /// Whether a capture call delays the capture signal.
    pub open spec fn applies_delay(self) -> bool {
        self.delays_capture && self.delay is Some
    }

    /// The capture signal after the start of a call.
    pub open spec fn capture_at_start(self, capture: AudioState) -> AudioState {
        if self.applies_delay() {
            capture.with_bands(self.delay->0.output())
        } else {
            capture
        }
    }

    /// The state after the start of a call.
    pub open spec fn started(
        self,
        capture: AudioState,
        linear_output: bool,
        level_change: bool,
    ) -> CancellerState {
        CancellerState {
            delay: if self.applies_delay() {
                Some(self.delay->0.after(capture))
            } else {
                self.delay
            },
            call: Call { level_change, linear_output, ..self.call },
            ..self
        }.in_phase(Phase::RenderFrame)
    }

    /// The state with a sub-frame of the render frame prepared.
    pub open spec fn with_render_sub_frame(self, index: usize) -> CancellerState {
        let offset = index * SUB_FRAME_LENGTH;
        CancellerState {
            render_view: render_sub_frame(
                self.call.proper_downmix_needed,
                self.render_frame,
                self.num_render_channels_to_aec as int,
                offset,
            ),
            render_frame: if self.num_render_input_channels > self.num_render_channels_to_aec
                && self.call.proper_downmix_needed {
                downmixed(self.render_frame, offset)
            } else {
                self.render_frame
            },
            ..self
        }.in_phase(Phase::RenderSubFrame { index })
    }

    /// The state with a sub-frame of the capture signal prepared.
    pub open spec fn with_capture_sub_frame(
        self,
        capture: AudioState,
        index: usize,
    ) -> CancellerState {
        CancellerState {
            capture_view: bands_of(
                capture,
                self.num_bands as int,
                self.num_capture_channels as int,
                index * SUB_FRAME_LENGTH,
                SUB_FRAME_LENGTH as int,
            ),
            ..self
        }.in_phase(Phase::CaptureSubFrame { index })
    }

    /// The state after the number of render channels was set anew.
    pub open spec fn initialized(self, proper: bool) -> CancellerState {
        let num_channels = if proper {
            self.num_render_input_channels
        } else {
            1
        };
        CancellerState {
            num_render_channels_to_aec: num_channels,
            render_view: silent_frame(
                self.num_bands as int,
                num_channels as int,
                SUB_FRAME_LENGTH as int,
            ),
            call: Call { proper, ..self.call },
            ..self
        }
    }

    /// The capture signal after an event: a sub-frame that was processed is
    /// written back.
    pub open spec fn capture_after(self, capture: AudioState) -> AudioState {
        match self.call.phase {
            Phase::CaptureSubFrame { index } => capture.with_bands(
                written(self.capture_view, index * SUB_FRAME_LENGTH),
            ),
            _ => capture,
        }
    }

    /// The state with what an event reports taken down.
    pub open spec fn noting(self, event: Event) -> CancellerState {
        match event {
            Event::QueueEmpty { temporary } => CancellerState {
                call: Call { reference_is_downmixed: temporary, ..self.call },
                ..self
            },
            Event::Detected { temporary, .. } => CancellerState {
                call: Call { proper_downmix_needed: temporary, ..self.call },
                ..self
            },
            Event::Reinitialised { delays_capture } => CancellerState { delays_capture, ..self },
            _ => self,
        }
    }

    /// The state after an event that no capture sub-frame follows.
    pub open spec fn resumed_render(self, event: Event) -> CancellerState {
        match next_phase(self.call.phase, event) {
            Phase::RenderSubFrame { index } => self.noting(event).with_render_sub_frame(index),
            Phase::Reinitialisation => self.noting(event).initialized(event->proper).in_phase(
                Phase::Reinitialisation,
            ),
            phase => self.noting(event).in_phase(phase),
        }
    }

    /// The state after an event.
    pub open spec fn resumed(self, capture: AudioState, event: Event) -> CancellerState {
        match next_phase(self.call.phase, event) {
            Phase::CaptureSubFrame { index } => self.noting(event).with_capture_sub_frame(
                self.capture_after(capture),
                index,
            ),
            _ => self.resumed_render(event),
        }
    }

    /// The views and the render frame have their numbers of channels.
    proof fn lemma_counts(self)
        requires
            self.wf(),
        ensures
            0 < self.num_bands,
            inner_count(self.render_frame) == self.num_render_input_channels,
            inner_count(self.render_view) == self.num_render_channels_to_aec,
            inner_count(self.capture_view) == self.num_capture_channels,
    {
        assert(planes_shaped(
            self.render_frame[0],
            self.num_render_input_channels as int,
            SPLIT_BAND_SIZE as int,
        ));
        assert(planes_shaped(
            self.render_view[0],
            self.num_render_channels_to_aec as int,
            SUB_FRAME_LENGTH as int,
        ));
        assert(planes_shaped(
            self.capture_view[0],
            self.num_capture_channels as int,
            SUB_FRAME_LENGTH as int,
        ));
    }

    /// How the block processor is called.
    pub open spec fn processor_call(self) -> ProcessorCall {
        ProcessorCall {
            echo_path_gain_change: self.call.level_change || self.call.reference_is_downmixed,
            capture_signal_saturation: self.saturated_microphone_signal,
            linear_output: self.call.linear_output,
        }
    }

    /// What is asked of the driver.
    pub open spec fn request(self) -> Action {
        match self.call.phase {
            Phase::Idle => Action::Finish,
            Phase::RenderFrame => Action::TakeRenderFrame,
            Phase::Detection => Action::DetectContent,
            Phase::Reinitialisation => Action::Reinitialise {
                proper: self.call.proper,
                num_render_channels: self.num_render_channels_to_aec,
            },
            Phase::RenderSubFrame { .. } => Action::BufferRenderSubFrame,
            Phase::RenderRemainder => Action::CheckRenderBlock,
            Phase::RenderBlock => Action::BufferRenderBlock,
            Phase::CaptureSubFrame { .. } => Action::ProcessSubFrame {
                call: self.processor_call(),
            },
            Phase::CaptureRemainder => Action::CheckCaptureBlock,
            Phase::CaptureBlock => Action::ProcessBlock { call: self.processor_call() },
        }
    }
}

/// The sub-frames that are prepared have the shape of the views.
proof fn lemma_render_shapes(
    proper_downmix_needed: bool,
    frame: Seq<Seq<Seq<Sample>>>,
    num_bands: int,
    num_channels: int,
    view_num_channels: int,
    offset: int,
)
    requires
        0 < num_bands,
        0 < view_num_channels <= num_channels,
        0 <= offset <= SPLIT_BAND_SIZE - SUB_FRAME_LENGTH,
        frame_shaped(frame, num_bands, num_channels, SPLIT_BAND_SIZE as int),
    ensures
        frame_shaped(
            render_sub_frame(proper_downmix_needed, frame, view_num_channels, offset),
            num_bands,
            view_num_channels,
            SUB_FRAME_LENGTH as int,
        ),
        frame_shaped(downmixed(frame, offset), num_bands, num_channels, SPLIT_BAND_SIZE as int),
{
    let view = render_sub_frame(proper_downmix_needed, frame, view_num_channels, offset);
    let mixed = downmixed(frame, offset);
    assert forall|b: int| 0 <= b < num_bands implies planes_shaped(
        #[trigger] view[b],
        view_num_channels,
        SUB_FRAME_LENGTH as int,
    ) && planes_shaped(mixed[b], num_channels, SPLIT_BAND_SIZE as int) by {
        assert(planes_shaped(frame[b], num_channels, SPLIT_BAND_SIZE as int));
        assert forall|c: int| 0 <= c < view_num_channels implies (#[trigger] view[b][c]).len()
            == SUB_FRAME_LENGTH by {
            assert(frame[b][c].len() == SPLIT_BAND_SIZE);
        }
        assert forall|c: int| 0 <= c < num_channels implies (#[trigger] mixed[b][c]).len()
            == SPLIT_BAND_SIZE by {
            assert(frame[b][c].len() == SPLIT_BAND_SIZE);
        }
    }
}

/// The sub-frames of a signal have the shape of the view.
proof fn lemma_bands_shaped(state: AudioState, num_bands: int, num_channels: int, index: int)
    requires
        state.wf(),
        state.num_split_frames == SPLIT_BAND_SIZE,
        0 <= num_bands <= state.num_bands,
        0 <= num_channels <= state.num_channels,
        0 <= index <= 1,
    ensures
        frame_shaped(
            bands_of(
                state,
                num_bands,
                num_channels,
                index * SUB_FRAME_LENGTH,
                SUB_FRAME_LENGTH as int,
            ),
            num_bands,
            num_channels,
            SUB_FRAME_LENGTH as int,
        ),
{
    let offset = index * SUB_FRAME_LENGTH;
    let view = bands_of(state, num_bands, num_channels, offset, SUB_FRAME_LENGTH as int);
    assert forall|b: int| 0 <= b < num_bands implies planes_shaped(
        #[trigger] view[b],
        num_channels,
        SUB_FRAME_LENGTH as int,
    ) by {
        assert forall|c: int| 0 <= c < num_channels implies (#[trigger] view[b][c]).len()
            == SUB_FRAME_LENGTH by {
            state.lemma_band_length(c, b);
        }
    }
}

/// Top level of the echo canceller.
#[derive(Debug)]
pub struct EchoCanceller3 {
    sample_rate_hz: usize,
    num_bands: usize,
    num_render_input_channels: usize,
    num_render_channels_to_aec: usize,
    num_capture_channels: usize,
    render_writer: RenderWriter,
    render_queue_output_frame: Vec<Vec<Vec<Sample>>>,
    render_sub_frame_view: Vec<Vec<Vec<Sample>>>,
    capture_sub_frame_view: Vec<Vec<Vec<Sample>>>,
    linear_output_sub_frame_view: Option<Vec<Vec<Vec<Sample>>>>,
    block_delay_buffer: Option<BlockDelayBuffer>,
    delays_capture: bool,
    saturated_microphone_signal: bool,
    call: Call,
}

impl View for EchoCanceller3 {
    type V = CancellerState;

    closed spec fn view(&self) -> CancellerState {
        CancellerState {
            sample_rate_hz: self.sample_rate_hz,
            num_bands: self.num_bands,
            num_render_input_channels: self.num_render_input_channels,
            num_render_channels_to_aec: self.num_render_channels_to_aec,
            num_capture_channels: self.num_capture_channels,
            writer: self.render_writer@,
            render_frame: frame_of(self.render_queue_output_frame@),
            render_view: frame_of(self.render_sub_frame_view@),
            capture_view: frame_of(self.capture_sub_frame_view@),
            linear_view: match self.linear_output_sub_frame_view {
                Some(view) => Some(frame_of(view@)),
                None => None,
            },
            delay: match self.block_delay_buffer {
                Some(buffer) => Some(buffer@),
                None => None,
            },
            delays_capture: self.delays_capture,
            saturated_microphone_signal: self.saturated_microphone_signal,
            call: self.call,
        }
    }
}

impl EchoCanceller3 {
    /// Whether the capture delay, where there is one, is intact.
    pub closed spec fn delay_wf(&self) -> bool {
        self.block_delay_buffer matches Some(buffer) ==> buffer.wf()
    }

    pub open spec fn wf(&self) -> bool {
        self@.wf() && self.delay_wf()
    }

    /// Creates a canceller. It takes one render channel until proper
    /// multi-channel content is detected.
    pub fn new(
        config: ActiveConfig,
        sample_rate_hz: usize,
        num_render_channels: usize,
        num_capture_channels: usize,
    ) -> (canceller: EchoCanceller3)
        requires
            is_full_band_rate(sample_rate_hz),
            0 < num_render_channels <= isize::MAX,
            0 < num_capture_channels,
        ensures
            canceller.wf(),
            canceller@ == CancellerState::fresh(
                config,
                sample_rate_hz,
                num_render_channels,
                num_capture_channels,
            ),
    {
        let num_bands: usize = num_bands_for_rate(sample_rate_hz);
        let block_delay_buffer = if config.fixed_capture_delay_samples > 0 {
            Some(
                BlockDelayBuffer::new(
                    num_capture_channels,
                    num_bands,
                    SPLIT_BAND_SIZE,
                    config.fixed_capture_delay_samples,
                ),
            )
        } else {
            None
        };
        let linear_output_sub_frame_view = if config.export_linear_aec_output {
            Some(new_frame(1, num_capture_channels, SUB_FRAME_LENGTH))
        } else {
            None
        };
        EchoCanceller3 {
            sample_rate_hz,
            num_bands,
            num_render_input_channels: num_render_channels,
            num_render_channels_to_aec: 1,
            num_capture_channels,
            render_writer: RenderWriter::new(
                config.high_pass_filter_echo_reference,
                num_bands,
                num_render_channels,
            ),
            render_queue_output_frame: new_frame(num_bands, num_render_channels, SPLIT_BAND_SIZE),
            render_sub_frame_view: new_frame(num_bands, 1, SUB_FRAME_LENGTH),
            capture_sub_frame_view: new_frame(num_bands, num_capture_channels, SUB_FRAME_LENGTH),
            linear_output_sub_frame_view,
            block_delay_buffer,
            delays_capture: config.fixed_capture_delay_samples > 0,
            saturated_microphone_signal: false,
            call: Call {
                phase: Phase::Idle,
                level_change: false,
                linear_output: false,
                proper: false,
                proper_downmix_needed: false,
                reference_is_downmixed: false,
            },
        }
    }
}

impl EchoCanceller3 {
    /// Takes in the bands of a render signal. Says whether band 0 of the render
    /// input frame is to be high-pass filtered before it goes to the queue.
    pub fn analyze_render(&mut self, render: &AudioBuffer) -> (filter: bool)
        requires
            old(self).wf(),
            render@.wf(),
            render@.num_split_frames == SPLIT_BAND_SIZE,
            render@.num_bands == old(self)@.num_bands,
            render@.num_channels == old(self)@.num_render_input_channels,
        ensures
            final(self).wf(),
            filter == old(self)@.writer.high_pass_filter,
            final(self)@ == (CancellerState {
                writer: WriterState {
                    frame: bands_of(
                        render@,
                        render@.num_bands as int,
                        render@.num_channels as int,
                        0,
                        SPLIT_BAND_SIZE as int,
                    ),
                    ..old(self)@.writer
                },
                ..old(self)@
            }),
    {
        self.render_writer.insert(render)
    }

    /// Detects saturation in a full-band capture signal.
    pub fn analyze_capture(&mut self, capture: &AudioBuffer)
        requires
            old(self).wf(),
            capture@.wf(),
        ensures
            final(self).wf(),
            final(self)@ == (CancellerState {
                saturated_microphone_signal: saturates(capture@),
                ..old(self)@
            }),
            forall|c: int, i: int|
                #![trigger capture@.channels[c][i]]
                0 <= c < capture@.num_channels && 0 <= i < capture@.buffer_num_frames && (
                is_at_most(of_integer(32700), capture@.channels[c][i]) || is_at_most(
                    capture@.channels[c][i],
                    of_integer(-32700),
                )) ==> final(self)@.saturated_microphone_signal,
            final(self)@.saturated_microphone_signal ==> exists|c: int, i: int|
                #![trigger capture@.channels[c][i]]
                0 <= c < capture@.num_channels && 0 <= i < capture@.buffer_num_frames && (
                is_at_most(of_integer(32700), capture@.channels[c][i]) || is_at_most(
                    capture@.channels[c][i],
                    of_integer(-32700),
                )),
    {
        self.saturated_microphone_signal = is_signal_saturated(capture);
        proof {
            lemma_any_visible_sample_saturates(capture@);
        }
    }

    /// Sets the number of render channels: all of them where proper
    /// multi-channel content is detected, one otherwise.
    fn initialize(&mut self, proper: bool)
        requires
            old(self).wf(),
        ensures
            final(self).wf(),
            final(self)@ == old(self)@.initialized(proper),
    {
        let num_channels: usize = if proper {
            self.num_render_input_channels
        } else {
            1
        };
        self.num_render_channels_to_aec = num_channels;
        self.render_sub_frame_view = new_frame(self.num_bands, num_channels, SUB_FRAME_LENGTH);
        self.call.proper = proper;
    }

    /// What is asked of the driver.
    pub fn request(&self) -> (action: Action)
        requires
            self.wf(),
        ensures
            action == self@.request(),
    {
        let call = ProcessorCall {
            echo_path_gain_change: self.call.level_change || self.call.reference_is_downmixed,
            capture_signal_saturation: self.saturated_microphone_signal,
            linear_output: self.call.linear_output,
        };
        match self.call.phase {
            Phase::Idle => Action::Finish,
            Phase::RenderFrame => Action::TakeRenderFrame,
            Phase::Detection => Action::DetectContent,
            Phase::Reinitialisation => Action::Reinitialise {
                proper: self.call.proper,
                num_render_channels: self.num_render_channels_to_aec,
            },
            Phase::RenderSubFrame { .. } => Action::BufferRenderSubFrame,
            Phase::RenderRemainder => Action::CheckRenderBlock,
            Phase::RenderBlock => Action::BufferRenderBlock,
            Phase::CaptureSubFrame { .. } => Action::ProcessSubFrame { call },
            Phase::CaptureRemainder => Action::CheckCaptureBlock,
            Phase::CaptureBlock => Action::ProcessBlock { call },
        }
    }

    /// Starts to process a capture signal: delays it where that is configured
    /// and asks for the render frames that are queued.
    pub fn process_capture(
        &mut self,
        capture: &mut AudioBuffer,
        linear_output: bool,
        level_change: bool,
    ) -> (action: Action)
        requires
            old(self).wf(),
            old(self)@.call.phase is Idle,
            old(self)@.accepts(old(capture)@),
        ensures
            final(self).wf(),
            final(self)@.accepts(final(capture)@),
            action == Action::RejectLinearOutput <==> linear_output && old(self)@.linear_view
                is None,
            old(self)@.rejects(linear_output) ==> action == Action::RejectLinearOutput
                && final(self)@ == old(self)@ && final(capture)@ == old(capture)@,
            !old(self)@.rejects(linear_output) ==> action == Action::TakeRenderFrame
                && final(self)@ == old(self)@.started(old(capture)@, linear_output, level_change)
                && final(capture)@ == old(self)@.capture_at_start(old(capture)@),
    {
        if linear_output && self.linear_output_sub_frame_view.is_none() {
            return Action::RejectLinearOutput;
        }
        if self.delays_capture {
            match &mut self.block_delay_buffer {
                Some(buffer) => {
                    buffer.delay_signal(capture);
                },
                None => {},
            }
        }
        self.call.level_change = level_change;
        self.call.linear_output = linear_output;
        self.call.phase = Phase::RenderFrame;
        Action::TakeRenderFrame
    }
}

impl EchoCanceller3 {
    /// Prepares a sub-frame of the render frame.
    fn prepare_render_sub_frame(&mut self, index: usize)
        requires
            old(self).wf(),
            index <= 1,
        ensures
            final(self).wf(),
            final(self)@ == old(self)@.with_render_sub_frame(index),
    {
        proof {
            self@.lemma_counts();
            lemma_render_shapes(
                self@.call.proper_downmix_needed,
                self@.render_frame,
                self@.num_bands as int,
                self@.num_render_input_channels as int,
                self@.num_render_channels_to_aec as int,
                index * SUB_FRAME_LENGTH,
            );
        }
        fill_sub_frame_from_render_frame(
            self.call.proper_downmix_needed,
            &mut self.render_queue_output_frame,
            index,
            &mut self.render_sub_frame_view,
        );
        self.call.phase = Phase::RenderSubFrame { index };
    }

    /// Acts on what was detected in a render frame.
    fn take_detection(&mut self, changed: bool, proper: bool, temporary: bool)
        requires
            old(self).wf(),
            old(self)@.call.phase is Detection,
        ensures
            final(self).wf(),
            final(self)@ == old(self)@.resumed_render(
                Event::Detected { changed, proper, temporary },
            ),
    {
        self.call.proper_downmix_needed = temporary;
        if changed {
            self.initialize(proper);
            self.call.phase = Phase::Reinitialisation;
        } else {
            self.prepare_render_sub_frame(0);
        }
    }

    /// Goes on with emptying the render queue.
    #[verifier::spinoff_prover]
    #[verifier::rlimit(30)]
    fn empty_render_queue(&mut self, event: Event)
        requires
            old(self).wf(),
            answers(old(self)@.call.phase, event),
            old(self)@.call.phase is RenderFrame ==> event is FrameTaken,
            !(old(self)@.call.phase is CaptureSubFrame),
            !(old(self)@.call.phase is CaptureRemainder),
            !(old(self)@.call.phase is CaptureBlock),
        ensures
            final(self).wf(),
            final(self)@ == old(self)@.resumed_render(event),
    {
        match (self.call.phase, event) {
            (Phase::RenderFrame, _) => {
                self.call.phase = Phase::Detection;
            },
            (Phase::Detection, Event::Detected { changed, proper, temporary }) => {
                self.take_detection(changed, proper, temporary);
            },
            (Phase::Reinitialisation, Event::Reinitialised { delays_capture }) => {
                self.delays_capture = delays_capture;
                self.prepare_render_sub_frame(0);
            },
            (Phase::RenderSubFrame { index }, _) => {
                if index == 0 {
                    self.prepare_render_sub_frame(1);
                } else {
                    self.call.phase = Phase::RenderRemainder;
                }
            },
            (Phase::RenderRemainder, Event::BlockAvailable { available }) => {
                self.call.phase = if available {
                    Phase::RenderBlock
                } else {
                    Phase::RenderFrame
                };
            },
            _ => {
                self.call.phase = Phase::RenderFrame;
            },
        }
    }

    /// Prepares a sub-frame of the capture signal for processing.
    fn process_capture_sub_frame(&mut self, capture: &AudioBuffer, index: usize)
        requires
            old(self).wf(),
            old(self)@.accepts(capture@),
            index <= 1,
        ensures
            final(self).wf(),
            final(self)@ == old(self)@.with_capture_sub_frame(capture@, index),
    {
        proof {
            lemma_bands_shaped(
                capture@,
                self@.num_bands as int,
                self@.num_capture_channels as int,
                index as int,
            );
        }
        fill_sub_frame_from_audio_buffer(capture, index, &mut self.capture_sub_frame_view);
        self.call.phase = Phase::CaptureSubFrame { index };
    }

    /// Asks for the block that may be left of the capture signal, or ends the
    /// call.
    fn process_remaining_capture(&mut self, available: bool)
        requires
            old(self).wf(),
        ensures
            final(self).wf(),
            final(self)@ == old(self)@.in_phase(
                if available {
                    Phase::CaptureBlock
                } else {
                    Phase::Idle
                },
            ),
    {
        self.call.phase = if available {
            Phase::CaptureBlock
        } else {
            Phase::Idle
        };
    }

    /// Goes on with a capture call after the driver did what was asked.
    pub fn resume(&mut self, capture: &mut AudioBuffer, event: Event) -> (action: Action)
        requires
            old(self).wf(),
            old(self)@.accepts(old(capture)@),
            answers(old(self)@.call.phase, event),
        ensures
            final(self).wf(),
            final(self)@.accepts(final(capture)@),
            final(self)@ == old(self)@.resumed(old(capture)@, event),
            final(self)@.call.phase == next_phase(old(self)@.call.phase, event),
            final(capture)@ == old(self)@.capture_after(old(capture)@),
            action == final(self)@.request(),
    {
        match (self.call.phase, event) {
            (Phase::RenderFrame, Event::QueueEmpty { temporary }) => {
                self.call.reference_is_downmixed = temporary;
                self.process_capture_sub_frame(capture, 0);
            },
            (Phase::CaptureSubFrame { index }, _) => {
                proof {
                    self@.lemma_counts();
                }
                write_sub_frame_to_audio_buffer(&self.capture_sub_frame_view, index, capture);
                if index == 0 {
                    self.process_capture_sub_frame(capture, 1);
                } else {
                    self.call.phase = Phase::CaptureRemainder;
                }
            },
            (Phase::CaptureRemainder, Event::BlockAvailable { available }) => {
                self.process_remaining_capture(available);
            },
            (Phase::CaptureBlock, _) => {
                self.call.phase = Phase::Idle;
            },
            _ => {
                self.empty_render_queue(event);
            },
        }
        self.request()
    }
}

impl EchoCanceller3 {
    /// Number of bands of the signals.
    pub fn num_bands(&self) -> (r: usize)
        ensures
            r == self@.num_bands,
    {
        self.num_bands
    }

    /// Number of channels of the render signal.
    pub fn num_render_input_channels(&self) -> (r: usize)
        ensures
            r == self@.num_render_input_channels,
    {
        self.num_render_input_channels
    }

    /// Number of render channels that are processed.
    pub fn num_render_channels_to_aec(&self) -> (r: usize)
        ensures
            r == self@.num_render_channels_to_aec,
    {
        self.num_render_channels_to_aec
    }

    /// Number of channels of the capture signal.
    pub fn num_capture_channels(&self) -> (r: usize)
        ensures
            r == self@.num_capture_channels,
    {
        self.num_capture_channels
    }

    /// Whether the capture signal last analyzed was saturated.
    pub fn saturated_microphone_signal(&self) -> (r: bool)
        ensures
            r == self@.saturated_microphone_signal,
    {
        self.saturated_microphone_signal
    }

    /// Whether echo cancellation is active; it always is.
    pub fn active_processing(&self) -> (active: bool)
        ensures
            active,
    {
        true
    }

    /// Whether the linear output can be asked for.
    pub fn exports_linear_output(&self) -> (exports: bool)
        ensures
            exports == self@.linear_view is Some,
    {
        self.linear_output_sub_frame_view.is_some()
    }

    /// The render input frame, for filtering and for the queue.
    pub fn render_input_frame_mut(&mut self) -> (frame: &mut Vec<Vec<Vec<Sample>>>)
        requires
            old(self).wf(),
        ensures
            frame_of(frame@) == old(self)@.writer.frame,
            final(self)@ == (CancellerState {
                writer: WriterState { frame: frame_of(final(frame)@), ..old(self)@.writer },
                ..old(self)@
            }),
            frame_shaped(
                frame_of(final(frame)@),
                old(self)@.num_bands as int,
                old(self)@.num_render_input_channels as int,
                SPLIT_BAND_SIZE as int,
            ) ==> final(self).wf(),
    {
        self.render_writer.frame_mut()
    }

    /// The render frame, for the queue to fill.
    pub fn render_frame_mut(&mut self) -> (frame: &mut Vec<Vec<Vec<Sample>>>)
        requires
            old(self).wf(),
        ensures
            frame_of(frame@) == old(self)@.render_frame,
            final(self)@ == (CancellerState {
                render_frame: frame_of(final(frame)@),
                ..old(self)@
            }),
            frame_shaped(
                frame_of(final(frame)@),
                old(self)@.num_bands as int,
                old(self)@.num_render_input_channels as int,
                SPLIT_BAND_SIZE as int,
            ) ==> final(self).wf(),
    {
        &mut self.render_queue_output_frame
    }

    /// The capture sub-frame, for processing.
    pub fn capture_sub_frame_mut(&mut self) -> (frame: &mut Vec<Vec<Vec<Sample>>>)
        requires
            old(self).wf(),
        ensures
            frame_of(frame@) == old(self)@.capture_view,
            final(self)@ == (CancellerState {
                capture_view: frame_of(final(frame)@),
                ..old(self)@
            }),
            frame_shaped(
                frame_of(final(frame)@),
                old(self)@.num_bands as int,
                old(self)@.num_capture_channels as int,
                SUB_FRAME_LENGTH as int,
            ) ==> final(self).wf(),
    {
        &mut self.capture_sub_frame_view
    }

    /// The linear output sub-frame, for the output.
    pub fn linear_output_sub_frame_mut(&mut self) -> (frame: Option<&mut Vec<Vec<Vec<Sample>>>>)
        requires
            old(self).wf(),
        ensures
            frame is Some == old(self)@.linear_view is Some,
            frame matches Some(samples) ==> {
                &&& Some(frame_of(samples@)) == old(self)@.linear_view
                &&& final(self)@ == (CancellerState {
                    linear_view: Some(frame_of(final(samples)@)),
                    ..old(self)@
                })
                &&& frame_shaped(
                    frame_of(final(samples)@),
                    1,
                    old(self)@.num_capture_channels as int,
                    SUB_FRAME_LENGTH as int,
                ) ==> final(self).wf()
            },
            frame is None ==> final(self)@ == old(self)@ && final(self).wf(),
    {
        match &mut self.linear_output_sub_frame_view {
            Some(samples) => Some(samples),
            None => None,
        }
    }

    /// The render sub-frame.
    pub fn render_sub_frame_view(&self) -> (frame: &Vec<Vec<Vec<Sample>>>)
        ensures
            frame_of(frame@) == self@.render_view,
    {
        &self.render_sub_frame_view
    }
}

/// The phase that a run of events leads to.
pub open spec fn reached(phase: Phase, events: Seq<Event>) -> Phase
    decreases events.len(),
{
    if events.len() == 0 {
        phase
    } else {
        next_phase(reached(phase, events.drop_last()), events.last())
    }
}

/// Whether each event of a run answers what was asked.
pub open spec fn answered(phase: Phase, events: Seq<Event>) -> bool
    decreases events.len(),
{
    events.len() == 0 || {
        &&& answered(phase, events.drop_last())
        &&& answers(reached(phase, events.drop_last()), events.last())
    }
}

/// How many events of a run answer what is asked in phase `p`.
pub open spec fn answers_in(phase: Phase, events: Seq<Event>, p: Phase) -> nat
    decreases events.len(),
{
    if events.len() == 0 {
        0
    } else {
        let earlier = answers_in(phase, events.drop_last(), p);
        if reached(phase, events.drop_last()) == p {
            earlier + 1
        } else {
            earlier
        }
    }
}

/// How many render frames are taken in a run.
pub open spec fn frames_taken(events: Seq<Event>) -> nat
    decreases events.len(),
{
    if events.len() == 0 {
        0
    } else if events.last() is FrameTaken {
        frames_taken(events.drop_last()) + 1
    } else {
        frames_taken(events.drop_last())
    }
}

/// At most how many events follow a phase when no further frame is taken.
pub open spec fn events_left(phase: Phase) -> nat {
    match phase {
        Phase::Detection => 11,
        Phase::Reinitialisation => 10,
        Phase::RenderSubFrame { index } => if index == 0 {
            9
        } else {
            8
        },
        Phase::RenderRemainder => 7,
        Phase::RenderBlock => 6,
        Phase::RenderFrame => 5,
        Phase::CaptureSubFrame { index } => if index == 0 {
            4
        } else {
            3
        },
        Phase::CaptureRemainder => 2,
        Phase::CaptureBlock => 1,
        Phase::Idle => 0,
    }
}

/// Every capture call ends: a render frame costs at most seven events, what
/// comes after the last of them at most five.
pub proof fn lemma_call_ends(events: Seq<Event>)
    requires
        answered(Phase::RenderFrame, events),
    ensures
        events.len() + events_left(reached(Phase::RenderFrame, events)) <= 7 * frames_taken(events)
            + 5,
    decreases events.len(),
{
    if events.len() > 0 {
        lemma_call_ends(events.drop_last());
    }
}

/// What was answered so far in a run that stands in phase `at`.
proof fn lemma_answers_so_far(events: Seq<Event>)
    requires
        answered(Phase::RenderFrame, events),
    ensures
        ({
            let start = Phase::RenderFrame;
            let at = reached(start, events);
            let frames = frames_taken(events);
            let behind_0 = at is Detection || at is Reinitialisation
                || at == (Phase::RenderSubFrame { index: 0 });
            let behind_1 = behind_0 || at == (Phase::RenderSubFrame { index: 1 });
            let behind_2 = behind_1 || at is RenderRemainder;
            let render = at is RenderFrame || at is RenderBlock || behind_2;
            let capture_0 = at == (Phase::CaptureSubFrame { index: 0 });
            let capture_1 = at == (Phase::CaptureSubFrame { index: 1 });
            &&& at matches Phase::RenderSubFrame { index } ==> index <= 1
            &&& at matches Phase::CaptureSubFrame { index } ==> index <= 1
            &&& frames == answers_in(start, events, Phase::RenderSubFrame { index: 0 }) + (
            if behind_0 {
                1int
            } else {
                0
            })
            &&& frames == answers_in(start, events, Phase::RenderSubFrame { index: 1 }) + (
            if behind_1 {
                1int
            } else {
                0
            })
            &&& frames == answers_in(start, events, Phase::RenderRemainder) + (if behind_2 {
                1int
            } else {
                0
            })
            &&& answers_in(start, events, Phase::CaptureSubFrame { index: 0 }) == (if render
                || capture_0 {
                0int
            } else {
                1
            })
            &&& answers_in(start, events, Phase::CaptureSubFrame { index: 1 }) == (if render
                || capture_0 || capture_1 {
                0int
            } else {
                1
            })
            &&& answers_in(start, events, Phase::CaptureRemainder) == (if at is CaptureBlock
                || at is Idle {
                1int
            } else {
                0
            })
            &&& answers_in(start, events, Phase::CaptureBlock) <= (if at is Idle {
                1int
            } else {
                0
            })
        }),
    decreases events.len(),
{
    if events.len() > 0 {
        lemma_answers_so_far(events.drop_last());
    }
}

/// A call that ended buffered both sub-frames of every render frame it took,
/// and processed each sub-frame of the capture signal once.
pub proof fn lemma_call_is_complete(events: Seq<Event>)
    requires
        answered(Phase::RenderFrame, events),
        reached(Phase::RenderFrame, events) is Idle,
    ensures
        ({
            let start = Phase::RenderFrame;
            let frames = frames_taken(events);
            &&& answers_in(start, events, Phase::RenderSubFrame { index: 0 }) == frames
            &&& answers_in(start, events, Phase::RenderSubFrame { index: 1 }) == frames
            &&& answers_in(start, events, Phase::RenderRemainder) == frames
            &&& answers_in(start, events, Phase::CaptureSubFrame { index: 0 }) == 1
            &&& answers_in(start, events, Phase::CaptureSubFrame { index: 1 }) == 1
            &&& answers_in(start, events, Phase::CaptureRemainder) == 1
            &&& answers_in(start, events, Phase::CaptureBlock) <= 1
        }),
{
    lemma_answers_so_far(events);
}

/// The capture signal is processed only once the render queue is empty: nothing
/// but an empty queue leads from the render signal to the capture signal, and
/// nothing leads back.
pub proof fn lemma_render_goes_first(phase: Phase, event: Event)
    requires
        answers(phase, event),
    ensures
        ({
            let next = next_phase(phase, event);
            let before = phase is CaptureSubFrame || phase is CaptureRemainder
                || phase is CaptureBlock || phase is Idle;
            let after = next is CaptureSubFrame || next is CaptureRemainder || next is CaptureBlock
                || next is Idle;
            &&& before ==> after
            &&& !before && after ==> phase is RenderFrame && event is QueueEmpty && next == (
            Phase::CaptureSubFrame { index: 0 })
        }),
{
}

/// The number of render channels changes only where the detection of proper
/// multi-channel content did.
pub proof fn lemma_channels_follow_detection(
    state: CancellerState,
    capture: AudioState,
    event: Event,
)
    requires
        state.wf(),
        answers(state.call.phase, event),
    ensures
        ({
            let after = state.resumed(capture, event);
            match event {
                Event::Detected { changed: true, proper, .. } => after.num_render_channels_to_aec
                    == (if proper {
                    state.num_render_input_channels
                } else {
                    1
                }),
                _ => after.num_render_channels_to_aec == state.num_render_channels_to_aec,
            }
        }),
{
}

/// A capture call replaces each band of the capture signal by the two
/// sub-frames that were made of it.
pub proof fn lemma_capture_is_replaced(
    capture: AudioState,
    first: CancellerState,
    second: CancellerState,
)
    requires
        first.wf(),
        second.wf(),
        first.accepts(capture),
        second.accepts(capture),
        first.call.phase == (Phase::CaptureSubFrame { index: 0 }),
        second.call.phase == (Phase::CaptureSubFrame { index: 1 }),
    ensures
        forall|c: int, b: int|
            0 <= c < capture.num_channels && 0 <= b < capture.num_bands
                ==> #[trigger] second.capture_after(first.capture_after(capture)).band(c, b)
                == first.capture_view[b][c] + second.capture_view[b][c],
{
    first.lemma_counts();
    second.lemma_counts();
    lemma_sub_frames_replace_bands(
        capture,
        first.capture_view,
        second.capture_view,
        capture.num_channels as int,
    );
}

/// A sub-frame that the driver leaves as it is leaves the capture signal as it
/// is.
pub proof fn lemma_untouched_capture_is_kept(
    state: CancellerState,
    capture: AudioState,
    index: usize,
)
    requires
        state.wf(),
        state.accepts(capture),
        index <= 1,
    ensures
        state.with_capture_sub_frame(capture, index).capture_after(capture) == capture,
{
    lemma_sub_frame_write_of_read(capture, capture.num_channels as int, index as int);
}

/// A step of a capture sub-frame changes only its own samples of each band: those
/// of the visible channels become what the driver made of them, all else stays.
pub proof fn lemma_sub_frame_step_is_local(state: CancellerState, capture: AudioState, index: usize)
    requires
        state.wf(),
        state.accepts(capture),
        state.call.phase == (Phase::CaptureSubFrame { index }),
    ensures
        ({
            let after = state.capture_after(capture);
            let offset = index * SUB_FRAME_LENGTH;
            &&& after == (AudioState { channels: after.channels, split: after.split, ..capture })
            &&& capture.split is Some ==> after.channels == capture.channels
            &&& forall|c: int, b: int, i: int|
                #![trigger after.band(c, b)[i]]
                0 <= c < capture.buffer_num_channels && 0 <= b < capture.num_bands && 0 <= i
                    < SPLIT_BAND_SIZE ==> after.band(c, b)[i] == if c < capture.num_channels
                    && offset <= i < offset + SUB_FRAME_LENGTH {
                    state.capture_view[b][c][i - offset]
                } else {
                    capture.band(c, b)[i]
                }
        }),
{
    let after = state.capture_after(capture);
    let offset = index * SUB_FRAME_LENGTH;
    let f = written(state.capture_view, offset);
    state.lemma_counts();
    assert forall|c: int, b: int, i: int|
        #![trigger after.band(c, b)[i]]
        0 <= c < capture.buffer_num_channels && 0 <= b < capture.num_bands && 0 <= i
            < SPLIT_BAND_SIZE implies after.band(c, b)[i] == if c < capture.num_channels && offset
        <= i < offset + SUB_FRAME_LENGTH {
        state.capture_view[b][c][i - offset]
    } else {
        capture.band(c, b)[i]
    } by {
        lemma_band_replaced(capture, f, c, b);
        capture.lemma_band_length(c, b);
        assert(planes_shaped(
            state.capture_view[b],
            state.num_capture_channels as int,
            SUB_FRAME_LENGTH as int,
        ));
    }
}

/// What can happen in a capture call.
pub enum CallStep {
    /// The driver fills the render frame and the sub-frames.
    Fill {
        render_frame: Seq<Seq<Seq<Sample>>>,
        capture_view: Seq<Seq<Seq<Sample>>>,
        linear_view: Option<Seq<Seq<Seq<Sample>>>>,
    },
    /// The driver reports.
    Report { event: Event },
}

/// A canceller and the capture signal that it works on.
#[verifier::ext_equal]
pub struct CallState {
    pub canceller: CancellerState,
    pub capture: AudioState,
}

impl CallState {
    /// How a capture call starts.
    pub open spec fn start(
        canceller: CancellerState,
        capture: AudioState,
        linear_output: bool,
        level_change: bool,
    ) -> CallState {
        CallState {
            canceller: canceller.started(capture, linear_output, level_change),
            capture: canceller.capture_at_start(capture),
        }
    }

    /// What a step makes of it.
    pub open spec fn stepped(self, step: CallStep) -> CallState {
        match step {
            CallStep::Fill { render_frame, capture_view, linear_view } => CallState {
                canceller: CancellerState {
                    render_frame,
                    capture_view,
                    linear_view,
                    ..self.canceller
                },
                ..self
            },
            CallStep::Report { event } => CallState {
                canceller: self.canceller.resumed(self.capture, event),
                capture: self.canceller.capture_after(self.capture),
            },
        }
    }

    /// What a run of steps makes of it.
    pub open spec fn run(self, steps: Seq<CallStep>) -> CallState
        decreases steps.len(),
    {
        if steps.len() == 0 {
            self
        } else {
            self.run(steps.drop_last()).stepped(steps.last())
        }
    }

    /// Whether the reports of a run answer what was asked.
    pub open spec fn answered(self, steps: Seq<CallStep>) -> bool
        decreases steps.len(),
    {
        steps.len() == 0 || {
            &&& self.answered(steps.drop_last())
            &&& steps.last() matches CallStep::Report { event } ==> answers(
                self.run(steps.drop_last()).canceller.call.phase,
                event,
            )
        }
    }
}

/// A step keeps the saturation flag and, of a signal in several bands, the
/// full-band channels.
proof fn lemma_steps_keep(at: CallState, steps: Seq<CallStep>)
    ensures
        at.run(steps).canceller.saturated_microphone_signal
            == at.canceller.saturated_microphone_signal,
        at.run(steps).capture.split is Some == at.capture.split is Some,
        at.capture.split is Some ==> at.run(steps).capture.channels == at.capture.channels,
    decreases steps.len(),
{
    if steps.len() > 0 {
        lemma_steps_keep(at, steps.drop_last());
    }
}

/// A whole capture call keeps the saturation flag and, of a signal in several
/// bands, the full-band channels.
pub proof fn lemma_call_keeps(
    canceller: CancellerState,
    capture: AudioState,
    linear_output: bool,
    level_change: bool,
    steps: Seq<CallStep>,
)
    requires
        canceller.wf(),
        canceller.accepts(capture),
    ensures
        ({
            let after = CallState::start(canceller, capture, linear_output, level_change).run(
                steps,
            );
            &&& after.canceller.saturated_microphone_signal
                == canceller.saturated_microphone_signal
            &&& capture.num_bands > 1 ==> after.capture.channels == capture.channels
        }),
{
    lemma_steps_keep(
        CallState::start(canceller, capture, linear_output, level_change),
        steps,
    );
}

impl CancellerState {
    /// Whether the capture signal is being processed, or the call is over.
    pub open spec fn is_past_render(self) -> bool {
        self.call.phase is CaptureSubFrame || self.call.phase is CaptureRemainder
            || self.call.phase is CaptureBlock || self.call.phase is Idle
    }

    /// Whether two states differ at most in why the block processor is told of
    /// a gain change.
    pub open spec fn alike_but_for_reason(self, other: CancellerState) -> bool {
        &&& self == (CancellerState {
            call: Call {
                level_change: self.call.level_change,
                reference_is_downmixed: self.call.reference_is_downmixed,
                ..other.call
            },
            ..other
        })
        &&& (self.call.level_change || self.call.reference_is_downmixed) == (
        other.call.level_change || other.call.reference_is_downmixed)
    }
}

/// One report of `lemma_reason_of_gain_change_is_irrelevant`.
#[verifier::spinoff_prover]
#[verifier::rlimit(30)]
proof fn lemma_alike_after_report(
    a: CancellerState,
    b: CancellerState,
    capture: AudioState,
    event: Event,
)
    requires
        a.alike_but_for_reason(b),
        a.is_past_render(),
        answers(a.call.phase, event),
    ensures
        a.resumed(capture, event).is_past_render(),
        a.resumed(capture, event).alike_but_for_reason(b.resumed(capture, event)),
        a.capture_after(capture) == b.capture_after(capture),
{
    let next = next_phase(a.call.phase, event);
    assert(a.noting(event) == a && b.noting(event) == b);
    match next {
        Phase::CaptureSubFrame { index } => {
            let written = a.capture_after(capture);
            assert(b.capture_after(capture) == written);
            assert(a.resumed(capture, event) == a.with_capture_sub_frame(written, index));
            assert(b.resumed(capture, event) == b.with_capture_sub_frame(written, index));
        },
        _ => {
            assert(a.resumed(capture, event) == a.in_phase(next));
            assert(b.resumed(capture, event) == b.in_phase(next));
        },
    }
}

/// One step of `lemma_reason_of_gain_change_is_irrelevant`.
#[verifier::spinoff_prover]
proof fn lemma_alike_after_step(a: CallState, b: CallState, step: CallStep)
    requires
        a.canceller.alike_but_for_reason(b.canceller),
        a.canceller.is_past_render(),
        a.capture == b.capture,
        step matches CallStep::Report { event } ==> answers(a.canceller.call.phase, event),
    ensures
        a.stepped(step).canceller.is_past_render(),
        a.stepped(step).canceller.alike_but_for_reason(b.stepped(step).canceller),
        a.stepped(step).capture == b.stepped(step).capture,
{
    match step {
        CallStep::Report { event } => {
            lemma_alike_after_report(a.canceller, b.canceller, a.capture, event);
        },
        CallStep::Fill { .. } => {},
    }
}

/// The runs of `lemma_reason_of_gain_change_is_irrelevant` stay alike.
#[verifier::spinoff_prover]
proof fn lemma_alike_after_run(a: CallState, b: CallState, steps: Seq<CallStep>)
    requires
        a.canceller.alike_but_for_reason(b.canceller),
        a.canceller.is_past_render(),
        a.capture == b.capture,
        a.answered(steps),
    ensures
        a.run(steps).canceller.is_past_render(),
        a.run(steps).canceller.alike_but_for_reason(b.run(steps).canceller),
        a.run(steps).capture == b.run(steps).capture,
        b.answered(steps),
    decreases steps.len(),
{
    if steps.len() > 0 {
        let earlier = steps.drop_last();
        lemma_alike_after_run(a, b, earlier);
        assert(a.run(earlier).canceller.call.phase == b.run(earlier).canceller.call.phase);
        lemma_alike_after_step(a.run(earlier), b.run(earlier), steps.last());
        assert(a.run(steps) == a.run(earlier).stepped(steps.last()));
        assert(b.run(steps) == b.run(earlier).stepped(steps.last()));
    }
}

/// Once the render queue is empty, only whether the level changed or the
/// reference is mixed down matters, not which of them: from states that agree on
/// that, the same is asked and the same becomes of the capture signal, whatever
/// the driver does.
#[verifier::spinoff_prover]
pub proof fn lemma_reason_of_gain_change_is_irrelevant(
    a: CallState,
    b: CallState,
    steps: Seq<CallStep>,
)
    requires
        a.canceller.alike_but_for_reason(b.canceller),
        a.canceller.is_past_render(),
        a.capture == b.capture,
        a.answered(steps),
    ensures
        a.run(steps).canceller.request() == b.run(steps).canceller.request(),
        a.run(steps).capture == b.run(steps).capture,
        b.answered(steps),
{
    lemma_alike_after_run(a, b, steps);
}

/// What the driver reports of one render frame.
pub struct FrameReport {
    /// Whether the detection of proper multi-channel content changed, and what is
    /// detected now.
    pub changed: bool,
    pub proper: bool,
    pub temporary: bool,
    /// Whether the capture signal is delayed, where the detection changed.
    pub delays_capture: bool,
    /// Whether a further block was complete.
    pub available: bool,
}

impl CancellerState {
    /// The state after the first sub-frame of a frame is prepared.
    #[verifier::opaque]
    pub open spec fn with_frame(
        self,
        capture: AudioState,
        frame: Seq<Seq<Seq<Sample>>>,
        report: FrameReport,
    ) -> CancellerState {
        let filled = CancellerState { render_frame: frame, ..self };
        let taken = filled.resumed(capture, Event::FrameTaken);
        let detected = taken.resumed(
            capture,
            Event::Detected {
                changed: report.changed,
                proper: report.proper,
                temporary: report.temporary,
            },
        );
        if report.changed {
            detected.resumed(
                capture,
                Event::Reinitialised { delays_capture: report.delays_capture },
            )
        } else {
            detected
        }
    }

    /// The state after both sub-frames, and a further block where there is one,
    /// are buffered.
    #[verifier::opaque]
    pub open spec fn with_sub_frames_buffered(
        self,
        capture: AudioState,
        available: bool,
    ) -> CancellerState {
        let second = self.resumed(capture, Event::Done);
        let checked = second.resumed(capture, Event::Done).resumed(
            capture,
            Event::BlockAvailable { available },
        );
        if available {
            checked.resumed(capture, Event::Done)
        } else {
            checked
        }
    }

    /// The state after a queue of frames is emptied, first frame first.
    pub open spec fn queue_emptied(
        self,
        capture: AudioState,
        queue: Seq<Seq<Seq<Seq<Sample>>>>,
        reports: Seq<FrameReport>,
    ) -> CancellerState
        decreases queue.len(),
    {
        if queue.len() == 0 {
            self
        } else {
            self.queue_emptied(capture, queue.drop_last(), reports.drop_last()).with_frame(
                capture,
                queue.last(),
                reports.last(),
            ).with_sub_frames_buffered(capture, reports.last().available)
        }
    }

    /// The sub-frames that are buffered while a queue is emptied.
    pub open spec fn buffered(
        self,
        capture: AudioState,
        queue: Seq<Seq<Seq<Seq<Sample>>>>,
        reports: Seq<FrameReport>,
    ) -> Seq<Seq<Seq<Seq<Sample>>>>
        decreases queue.len(),
    {
        if queue.len() == 0 {
            seq![]
        } else {
            let first = self.queue_emptied(
                capture,
                queue.drop_last(),
                reports.drop_last(),
            ).with_frame(capture, queue.last(), reports.last());
            self.buffered(capture, queue.drop_last(), reports.drop_last()).push(
                first.render_view,
            ).push(first.resumed(capture, Event::Done).render_view)
        }
    }

    /// The number of render channels after a frame was looked at.
    pub open spec fn channels_after(self, report: FrameReport) -> usize {
        if !report.changed {
            self.num_render_channels_to_aec
        } else if report.proper {
            self.num_render_input_channels
        } else {
            1
        }
    }

    /// The number of render channels after a run of frames.
    pub open spec fn channels_after_all(self, reports: Seq<FrameReport>) -> usize
        decreases reports.len(),
    {
        if reports.len() == 0 {
            self.num_render_channels_to_aec
        } else if !reports.last().changed {
            self.channels_after_all(reports.drop_last())
        } else if reports.last().proper {
            self.num_render_input_channels
        } else {
            1
        }
    }
}

/// An empty queue changes nothing: emptying it twice is emptying it once. Of the
/// render side, the report that it is empty changes nothing either.
pub proof fn lemma_empty_queue_changes_nothing(
    state: CancellerState,
    capture: AudioState,
    queue: Seq<Seq<Seq<Seq<Sample>>>>,
    reports: Seq<FrameReport>,
    temporary: bool,
)
    requires
        state.wf(),
        state.call.phase is RenderFrame,
    ensures
        state.queue_emptied(capture, seq![], seq![]) == state,
        state.queue_emptied(capture, queue, reports).queue_emptied(capture, seq![], seq![])
            == state.queue_emptied(capture, queue, reports),
        ({
            let after = state.resumed(capture, Event::QueueEmpty { temporary });
            after == (CancellerState {
                capture_view: after.capture_view,
                call: Call {
                    phase: Phase::CaptureSubFrame { index: 0 },
                    reference_is_downmixed: temporary,
                    ..state.call
                },
                ..state
            })
        }),
        state.capture_after(capture) == capture,
{
}

/// The first sub-frame of a frame is that of the frame.
#[verifier::spinoff_prover]
#[verifier::rlimit(30)]
proof fn lemma_first_sub_frame(
    state: CancellerState,
    capture: AudioState,
    frame: Seq<Seq<Seq<Sample>>>,
    report: FrameReport,
)
    requires
        state.wf(),
        state.call.phase is RenderFrame,
        frame_shaped(
            frame,
            state.num_bands as int,
            state.num_render_input_channels as int,
            SPLIT_BAND_SIZE as int,
        ),
    ensures
        ({
            let first = state.with_frame(capture, frame, report);
            let channels = state.channels_after(report);
            let mixes = state.num_render_input_channels > channels && report.temporary;
            &&& first.wf()
            &&& first == (CancellerState {
                num_render_channels_to_aec: channels,
                render_view: render_sub_frame(report.temporary, frame, channels as int, 0),
                render_frame: if mixes {
                    downmixed(frame, 0)
                } else {
                    frame
                },
                delays_capture: if report.changed {
                    report.delays_capture
                } else {
                    state.delays_capture
                },
                call: Call {
                    phase: Phase::RenderSubFrame { index: 0 },
                    proper: if report.changed {
                        report.proper
                    } else {
                        state.call.proper
                    },
                    proper_downmix_needed: report.temporary,
                    ..state.call
                },
                ..state
            })
        }),
{
    reveal(CancellerState::with_frame);
    let channels = state.channels_after(report);
    state.lemma_counts();
    lemma_render_shapes(
        report.temporary,
        frame,
        state.num_bands as int,
        state.num_render_input_channels as int,
        channels as int,
        0,
    );
}

/// The second sub-frame of a frame is that of the frame, and the queue is asked
/// again.
#[verifier::spinoff_prover]
#[verifier::rlimit(30)]
proof fn lemma_second_sub_frame(
    state: CancellerState,
    capture: AudioState,
    frame: Seq<Seq<Seq<Sample>>>,
    report: FrameReport,
)
    requires
        state.wf(),
        state.call.phase is RenderFrame,
        frame_shaped(
            frame,
            state.num_bands as int,
            state.num_render_input_channels as int,
            SPLIT_BAND_SIZE as int,
        ),
    ensures
        ({
            let first = state.with_frame(capture, frame, report);
            let second = first.resumed(capture, Event::Done);
            let after = first.with_sub_frames_buffered(capture, report.available);
            &&& second.render_view == render_sub_frame(
                report.temporary,
                frame,
                state.channels_after(report) as int,
                SUB_FRAME_LENGTH as int,
            )
            &&& after == second.in_phase(Phase::RenderFrame)
            &&& after.wf()
            &&& after == (CancellerState {
                render_view: second.render_view,
                render_frame: second.render_frame,
                call: Call { phase: Phase::RenderFrame, ..first.call },
                ..first
            })
        }),
{
    reveal(CancellerState::with_sub_frames_buffered);
    let first = state.with_frame(capture, frame, report);
    let second = first.resumed(capture, Event::Done);
    let channels = state.channels_after(report);
    let inputs = state.num_render_input_channels;
    lemma_first_sub_frame(state, capture, frame, report);
    assert(planes_shaped(frame[0], inputs as int, SPLIT_BAND_SIZE as int));
    assert(second == first.with_render_sub_frame(1));
    lemma_render_shapes(
        report.temporary,
        first.render_frame,
        state.num_bands as int,
        inputs as int,
        channels as int,
        SUB_FRAME_LENGTH as int,
    );
    if inputs > channels && report.temporary {
        lemma_downmix_keeps_other_sub_frame(frame, inputs as int, 0);
    }
    assert(second.wf());
}

/// What emptying a queue makes of the canceller.
#[verifier::spinoff_prover]
proof fn lemma_queue_is_emptied(
    state: CancellerState,
    capture: AudioState,
    queue: Seq<Seq<Seq<Seq<Sample>>>>,
    reports: Seq<FrameReport>,
)
    requires
        state.wf(),
        state.call.phase is RenderFrame,
        queue.len() == reports.len(),
        forall|i: int|
            0 <= i < queue.len() ==> frame_shaped(
                #[trigger] queue[i],
                state.num_bands as int,
                state.num_render_input_channels as int,
                SPLIT_BAND_SIZE as int,
            ),
    ensures
        ({
            let after = state.queue_emptied(capture, queue, reports);
            &&& after.wf()
            &&& after.call.phase is RenderFrame
            &&& after.num_render_channels_to_aec == state.channels_after_all(reports)
            &&& after == (CancellerState {
                num_render_channels_to_aec: after.num_render_channels_to_aec,
                render_frame: after.render_frame,
                render_view: after.render_view,
                delays_capture: after.delays_capture,
                call: Call {
                    proper: after.call.proper,
                    proper_downmix_needed: after.call.proper_downmix_needed,
                    ..state.call
                },
                ..state
            })
        }),
    decreases queue.len(),
{
    if queue.len() > 0 {
        let earlier = queue.drop_last();
        let known = reports.drop_last();
        let n = earlier.len() as int;
        let before = state.queue_emptied(capture, earlier, known);
        assert forall|i: int| 0 <= i < earlier.len() implies frame_shaped(
            #[trigger] earlier[i],
            state.num_bands as int,
            state.num_render_input_channels as int,
            SPLIT_BAND_SIZE as int,
        ) by {
            assert(earlier[i] == queue[i]);
        }
        lemma_queue_is_emptied(state, capture, earlier, known);
        lemma_first_sub_frame(before, capture, queue[n], reports[n]);
        lemma_second_sub_frame(before, capture, queue[n], reports[n]);
    }
}

/// Emptying a queue consumes every frame once, first frame first: two sub-frames
/// of each are buffered, those of the frame as it was queued, with the number of
/// channels that holds since it was looked at. The canceller then asks the queue
/// again, and nothing but its render side has changed.
#[verifier::spinoff_prover]
pub proof fn lemma_queue_is_emptied_in_order(
    state: CancellerState,
    capture: AudioState,
    queue: Seq<Seq<Seq<Seq<Sample>>>>,
    reports: Seq<FrameReport>,
)
    requires
        state.wf(),
        state.call.phase is RenderFrame,
        queue.len() == reports.len(),
        forall|i: int|
            0 <= i < queue.len() ==> frame_shaped(
                #[trigger] queue[i],
                state.num_bands as int,
                state.num_render_input_channels as int,
                SPLIT_BAND_SIZE as int,
            ),
    ensures
        ({
            let after = state.queue_emptied(capture, queue, reports);
            &&& after.wf()
            &&& after.request() == Action::TakeRenderFrame
            &&& after.num_render_channels_to_aec == state.channels_after_all(reports)
            &&& after == (CancellerState {
                num_render_channels_to_aec: after.num_render_channels_to_aec,
                render_frame: after.render_frame,
                render_view: after.render_view,
                delays_capture: after.delays_capture,
                call: Call {
                    proper: after.call.proper,
                    proper_downmix_needed: after.call.proper_downmix_needed,
                    ..state.call
                },
                ..state
            })
        }),
        state.buffered(capture, queue, reports).len() == 2 * queue.len(),
        forall|i: int, k: int|
            #![trigger state.buffered(capture, queue, reports)[2 * i + k]]
            0 <= i < queue.len() && 0 <= k <= 1 ==> state.buffered(capture, queue, reports)[2 * i
                + k] == render_sub_frame(
                reports[i].temporary,
                queue[i],
                state.channels_after_all(reports.take(i + 1)) as int,
                k * SUB_FRAME_LENGTH,
            ),
    decreases queue.len(),
{
    lemma_queue_is_emptied(state, capture, queue, reports);
    if queue.len() > 0 {
        let earlier = queue.drop_last();
        let known = reports.drop_last();
        let n = earlier.len() as int;
        let before = state.queue_emptied(capture, earlier, known);
        assert forall|i: int| 0 <= i < earlier.len() implies frame_shaped(
            #[trigger] earlier[i],
            state.num_bands as int,
            state.num_render_input_channels as int,
            SPLIT_BAND_SIZE as int,
        ) by {
            assert(earlier[i] == queue[i]);
        }
        lemma_queue_is_emptied_in_order(state, capture, earlier, known);
        lemma_queue_is_emptied(state, capture, earlier, known);
        lemma_first_sub_frame(before, capture, queue[n], reports[n]);
        lemma_second_sub_frame(before, capture, queue[n], reports[n]);
        assert(reports.take(n + 1) =~= reports);
        assert forall|i: int, k: int|
            #![trigger state.buffered(capture, queue, reports)[2 * i + k]]
            0 <= i < queue.len() && 0 <= k <= 1 implies state.buffered(capture, queue, reports)[2
            * i + k] == render_sub_frame(
            reports[i].temporary,
            queue[i],
            state.channels_after_all(reports.take(i + 1)) as int,
            k * SUB_FRAME_LENGTH,
        ) by {
            if i < n {
                assert(known.take(i + 1) =~= reports.take(i + 1));
                assert(state.buffered(capture, queue, reports)[2 * i + k] == state.buffered(
                    capture,
                    earlier,
                    known,
                )[2 * i + k]);
            }
        }
    }
}

/// A signal is saturated exactly where some sample of some visible channel, at
/// whatever position, is at least 32700 or at most -32700.
pub proof fn lemma_any_visible_sample_saturates(signal: AudioState)
    requires
        signal.wf(),
    ensures
        forall|c: int, i: int|
            #![trigger signal.channels[c][i]]
            0 <= c < signal.num_channels && 0 <= i < signal.buffer_num_frames && (is_at_most(
                of_integer(32700),
                signal.channels[c][i],
            ) || is_at_most(signal.channels[c][i], of_integer(-32700))) ==> saturates(signal),
        saturates(signal) ==> exists|c: int, i: int|
            #![trigger signal.channels[c][i]]
            0 <= c < signal.num_channels && 0 <= i < signal.buffer_num_frames && (is_at_most(
                of_integer(32700),
                signal.channels[c][i],
            ) || is_at_most(signal.channels[c][i], of_integer(-32700))),
{
    assert forall|c: int, i: int|
        #![trigger signal.channels[c][i]]
        0 <= c < signal.num_channels && 0 <= i < signal.buffer_num_frames && (is_at_most(
            of_integer(32700),
            signal.channels[c][i],
        ) || is_at_most(signal.channels[c][i], of_integer(-32700))) implies saturates(signal) by {
        assert(is_saturated(signal.channels[c][i]));
        assert(signal.channels[c].len() == signal.buffer_num_frames);
        assert(has_saturation(signal.channels[c]));
    }
    if saturates(signal) {
        let c = choose|c: int|
            0 <= c < signal.num_channels && has_saturation(#[trigger] signal.channels[c]);
        let y = signal.channels[c];
        let i = choose|i: int| 0 <= i < y.len() && is_saturated(#[trigger] y[i]);
        assert(signal.channels[c].len() == signal.buffer_num_frames);
        assert(is_saturated(signal.channels[c][i]));
    }
}

/// The order of the channels does not matter for saturation: two signals whose
/// visible channels are the same ones, in whatever order, are both saturated or
/// both not.
pub proof fn lemma_saturation_ignores_channel_order(a: AudioState, b: AudioState)
    requires
        a.wf(),
        b.wf(),
        forall|c: int|
            0 <= c < a.num_channels ==> exists|d: int|
                0 <= d < b.num_channels && #[trigger] b.channels[d] == #[trigger] a.channels[c],
        forall|d: int|
            0 <= d < b.num_channels ==> exists|c: int|
                0 <= c < a.num_channels && #[trigger] a.channels[c] == #[trigger] b.channels[d],
    ensures
        saturates(a) == saturates(b),
{
}

/// What a new canceller is: all its samples are zero, no saturation is known, one
/// render channel is processed, the capture signal is delayed where the delay is
/// above zero, and the linear output is there where it is configured.
pub proof fn lemma_new_canceller(
    config: ActiveConfig,
    sample_rate_hz: usize,
    num_render_channels: usize,
    num_capture_channels: usize,
)
    requires
        is_full_band_rate(sample_rate_hz),
    ensures
        ({
            let new = CancellerState::fresh(
                config,
                sample_rate_hz,
                num_render_channels,
                num_capture_channels,
            );
            &&& new.sample_rate_hz == sample_rate_hz
            &&& new.num_bands * 16000 == sample_rate_hz
            &&& new.num_render_input_channels == num_render_channels
            &&& new.num_capture_channels == num_capture_channels
            &&& new.num_render_channels_to_aec == 1
            &&& !new.saturated_microphone_signal
            &&& new.call.phase is Idle
            &&& new.writer.num_bands == new.num_bands
            &&& new.writer.num_channels == num_render_channels
            &&& new.writer.high_pass_filter == config.high_pass_filter_echo_reference
            &&& new.delays_capture == (config.fixed_capture_delay_samples > 0)
            &&& (new.delay is Some) == (config.fixed_capture_delay_samples > 0)
            &&& new.delay matches Some(delay) ==> {
                &&& delay.delay == config.fixed_capture_delay_samples
                &&& delay.frame_length == 160
                &&& delay.num_bands == new.num_bands
                &&& delay.lines.len() == num_capture_channels
                &&& forall|c: int, b: int, i: int|
                    #![trigger delay.lines[c][b][i]]
                    0 <= c < num_capture_channels && 0 <= b < new.num_bands && 0 <= i
                        < delay.delay ==> delay.lines[c][b].len() == delay.delay
                        && delay.lines[c][b][i].bits == 0
            }
            &&& (new.linear_view is Some) == config.export_linear_aec_output
            &&& forall|b: int, c: int, i: int|
                #![trigger new.capture_view[b][c][i]]
                0 <= b < new.num_bands && 0 <= c < num_capture_channels && 0 <= i < 80
                    ==> new.capture_view[b][c][i].bits == 0
            &&& forall|b: int, c: int, i: int|
                #![trigger new.render_frame[b][c][i]]
                0 <= b < new.num_bands && 0 <= c < num_render_channels && 0 <= i < 160
                    ==> new.render_frame[b][c][i].bits == 0
            &&& forall|b: int, i: int|
                #![trigger new.render_view[b][0][i]]
                0 <= b < new.num_bands && 0 <= i < 80 ==> new.render_view[b][0][i].bits == 0
        }),
{
}

/// Which reports answer what is asked.
pub proof fn lemma_reports_that_answer(state: CancellerState, event: Event)
    ensures
        answers(state.call.phase, event) == match state.request() {
            Action::TakeRenderFrame => event is FrameTaken || event is QueueEmpty,
            Action::DetectContent => event is Detected,
            Action::Reinitialise { .. } => event is Reinitialised,
            Action::CheckRenderBlock | Action::CheckCaptureBlock => event is BlockAvailable,
            Action::Finish | Action::RejectLinearOutput => false,
            _ => event is Done,
        },
{
}

/// What is asked after each report, in terms of what was asked before. The block
/// processor is told of a gain change where the level changed or the reference
/// is mixed down, of the saturation that was found, and of the linear output
/// where it was asked for.
pub proof fn lemma_what_is_asked_next(state: CancellerState, capture: AudioState, event: Event)
    requires
        state.wf(),
        answers(state.call.phase, event),
    ensures
        ({
            let next = state.resumed(capture, event).request();
            let call = ProcessorCall {
                echo_path_gain_change: state.call.level_change
                    || state.call.reference_is_downmixed,
                capture_signal_saturation: state.saturated_microphone_signal,
                linear_output: state.call.linear_output,
            };
            match (state.request(), event) {
                (Action::TakeRenderFrame, Event::FrameTaken) => next == Action::DetectContent,
                (Action::TakeRenderFrame, Event::QueueEmpty { temporary }) => next == (
                Action::ProcessSubFrame {
                    call: ProcessorCall {
                        echo_path_gain_change: state.call.level_change || temporary,
                        ..call
                    },
                }),
                (Action::DetectContent, Event::Detected { changed, proper, .. }) => next == (
                if changed {
                    Action::Reinitialise {
                        proper,
                        num_render_channels: if proper {
                            state.num_render_input_channels
                        } else {
                            1
                        },
                    }
                } else {
                    Action::BufferRenderSubFrame
                }),
                (Action::Reinitialise { .. }, _) => next == Action::BufferRenderSubFrame,
                (Action::BufferRenderSubFrame, _) => next == (if state.call.phase == (
                Phase::RenderSubFrame { index: 0 }) {
                    Action::BufferRenderSubFrame
                } else {
                    Action::CheckRenderBlock
                }),
                (Action::CheckRenderBlock, Event::BlockAvailable { available }) => next == (
                if available {
                    Action::BufferRenderBlock
                } else {
                    Action::TakeRenderFrame
                }),
                (Action::BufferRenderBlock, _) => next == Action::TakeRenderFrame,
                (Action::ProcessSubFrame { call: told }, _) => told == call && next == (
                if state.call.phase == (Phase::CaptureSubFrame { index: 0 }) {
                    Action::ProcessSubFrame { call }
                } else {
                    Action::CheckCaptureBlock
                }),
                (Action::CheckCaptureBlock, Event::BlockAvailable { available }) => next == (
                if available {
                    Action::ProcessBlock { call }
                } else {
                    Action::Finish
                }),
                (Action::ProcessBlock { call: told }, _) => told == call && next
                    == Action::Finish,
                _ => true,
            }
        }),
{
}

/// What a report leaves as it is, and what it sets: the delay of the capture
/// signal follows the configuration that a reinitialisation made active, and the
/// mix-down follows the last detection.
pub proof fn lemma_what_a_report_changes(state: CancellerState, capture: AudioState, event: Event)
    requires
        state.wf(),
        answers(state.call.phase, event),
    ensures
        ({
            let after = state.resumed(capture, event);
            &&& after.sample_rate_hz == state.sample_rate_hz
            &&& after.num_bands == state.num_bands
            &&& after.num_render_input_channels == state.num_render_input_channels
            &&& after.num_capture_channels == state.num_capture_channels
            &&& after.writer == state.writer
            &&& after.linear_view == state.linear_view
            &&& after.delay == state.delay
            &&& after.saturated_microphone_signal == state.saturated_microphone_signal
            &&& after.call.level_change == state.call.level_change
            &&& after.call.linear_output == state.call.linear_output
            &&& after.delays_capture == match event {
                Event::Reinitialised { delays_capture } => delays_capture,
                _ => state.delays_capture,
            }
            &&& after.call.proper_downmix_needed == match event {
                Event::Detected { temporary, .. } => temporary,
                _ => state.call.proper_downmix_needed,
            }
            &&& after.call.reference_is_downmixed == match event {
                Event::QueueEmpty { temporary } => temporary,
                _ => state.call.reference_is_downmixed,
            }
        }),
{
}

/// A capture sub-frame that is asked to be processed holds the samples of its half
/// of each band of each channel of the capture signal.
pub proof fn lemma_capture_sub_frame_by_sample(
    state: CancellerState,
    capture: AudioState,
    index: usize,
)
    requires
        state.wf(),
        state.accepts(capture),
        index <= 1,
    ensures
        ({
            let view = state.with_capture_sub_frame(capture, index).capture_view;
            forall|b: int, c: int, k: int|
                #![trigger view[b][c][k]]
                0 <= b < capture.num_bands && 0 <= c < capture.num_channels && 0 <= k < 80
                    ==> view[b][c][k] == if capture.num_bands > 1 {
                    capture.split->0[c][b][80 * index + k]
                } else {
                    capture.channels[c][80 * index + k]
                }
        }),
{
    lemma_bands_are_read(
        capture,
        capture.num_bands as int,
        capture.num_channels as int,
        index * SUB_FRAME_LENGTH,
        SUB_FRAME_LENGTH as int,
    );
}

/// The steps of a capture call that prepare a capture sub-frame: the first once
/// the queue is empty, the second of what the first one left.
pub proof fn lemma_sub_frames_are_prepared_in_turn(
    state: CancellerState,
    capture: AudioState,
    temporary: bool,
)
    requires
        state.wf(),
        state.accepts(capture),
    ensures
        state.call.phase is RenderFrame ==> state.resumed(
            capture,
            Event::QueueEmpty { temporary },
        ).capture_view == state.with_capture_sub_frame(capture, 0).capture_view,
        state.call.phase == (Phase::CaptureSubFrame { index: 0 }) ==> state.resumed(
            capture,
            Event::Done,
        ).capture_view == state.with_capture_sub_frame(
            state.capture_after(capture),
            1,
        ).capture_view,
{
}

/// A render sub-frame that is to be buffered, sample by sample: the samples of its
/// half of each band, of each channel where all are processed, else of channel 0,
/// or the average over all channels of the band where the frame is to be mixed
/// down.
pub proof fn lemma_render_view_by_sample(
    state: CancellerState,
    index: usize,
    b: int,
    c: int,
    k: int,
)
    requires
        state.wf(),
        index <= 1,
        0 <= b < state.num_bands,
        0 <= c < state.num_render_channels_to_aec,
        0 <= k < 80,
    ensures
        ({
            let n = state.num_render_input_channels as int;
            let at = 80 * index + k;
            let band = state.render_frame[b];
            state.with_render_sub_frame(index).render_view[b][c][k] == if n
                > state.num_render_channels_to_aec && state.call.proper_downmix_needed {
                product(
                    Seq::new((n - 1) as nat, |i: int| band[i + 1][at]).fold_left(
                        band[0][at],
                        |a: Sample, x: Sample| sum(a, x),
                    ),
                    quotient(of_integer(1), of_integer(n)),
                )
            } else {
                band[c][at]
            }
        }),
{
    let n = state.num_render_input_channels as int;
    let at = 80 * index + k;
    let band = state.render_frame[b];
    lemma_render_sub_frame_by_sample(
        state.call.proper_downmix_needed,
        state.render_frame,
        n,
        state.num_render_channels_to_aec as int,
        index * SUB_FRAME_LENGTH,
        b,
        c,
        k,
    );
    assert(Seq::new((n - 1) as nat, |i: int| band[i + 1][at]) =~= Seq::new(
        (n - 1) as nat,
        |i: int| state.render_frame[b][i + 1][index * SUB_FRAME_LENGTH + k],
    ));
}

/// The start of a capture call delays the capture signal exactly where the active
/// configuration delays it and there are delay lines: every band of every channel
/// then comes out behind what its line held, and the line keeps the rest. Without
/// a delay neither changes.
pub proof fn lemma_start_delays_every_band(
    state: CancellerState,
    capture: AudioState,
    linear_output: bool,
    level_change: bool,
)
    requires
        state.wf(),
        state.accepts(capture),
    ensures
        ({
            let started = state.started(capture, linear_output, level_change);
            let after = state.capture_at_start(capture);
            &&& started.call.level_change == level_change
            &&& started.call.linear_output == linear_output
            &&& started.request() == Action::TakeRenderFrame
            &&& !state.delays_capture || state.delay is None ==> after == capture && started.delay
                == state.delay
            &&& state.delays_capture && state.delay is Some ==> started.delay is Some && forall|
                c: int,
                b: int,
            |
                #![trigger after.band(c, b)]
                0 <= c < capture.num_channels && 0 <= b < capture.num_bands ==> after.band(c, b)
                    + started.delay->0.lines[c][b] == state.delay->0.lines[c][b] + capture.band(
                    c,
                    b,
                ) && after.band(c, b).len() == 160
        }),
{
    let started = state.started(capture, linear_output, level_change);
    let after = state.capture_at_start(capture);
    if state.delays_capture && state.delay is Some {
        let delay = state.delay->0;
        assert forall|c: int, b: int|
            #![trigger after.band(c, b)]
            0 <= c < capture.num_channels && 0 <= b < capture.num_bands implies after.band(c, b)
            + started.delay->0.lines[c][b] == delay.lines[c][b] + capture.band(c, b) && after.band(
            c,
            b,
        ).len() == 160 by {
            lemma_band_replaced(capture, delay.output(), c, b);
            capture.lemma_band_length(c, b);
            assert(after.band(c, b) + started.delay->0.lines[c][b] =~= delay.lines[c][b]
                + capture.band(c, b));
        }
    }
}

/// What the steps of a capture call keep of its start.
proof fn lemma_told_so_far(at: CallState, steps: Seq<CallStep>, i: int, temporary: bool)
    requires
        at.canceller.call.phase is RenderFrame,
        at.answered(steps),
        0 <= i < steps.len(),
        steps[i] == (CallStep::Report { event: Event::QueueEmpty { temporary } }),
    ensures
        at.run(steps).canceller.is_past_render(),
        at.run(steps).canceller.call.reference_is_downmixed == temporary,
    decreases steps.len(),
{
    let earlier = steps.drop_last();
    if i < earlier.len() {
        assert(earlier[i] == steps[i]);
        lemma_told_so_far(at, earlier, i, temporary);
    }
}

/// What the steps of a capture call do not change.
proof fn lemma_call_keeps_its_inputs(at: CallState, steps: Seq<CallStep>)
    ensures
        at.run(steps).canceller.call.level_change == at.canceller.call.level_change,
        at.run(steps).canceller.call.linear_output == at.canceller.call.linear_output,
        at.run(steps).canceller.saturated_microphone_signal
            == at.canceller.saturated_microphone_signal,
    decreases steps.len(),
{
    if steps.len() > 0 {
        lemma_call_keeps_its_inputs(at, steps.drop_last());
    }
}

/// Each time in a capture call that the block processor is to be called, for a
/// sub-frame or for a further block, it is told of a gain change where the call
/// was made with one or the report that the queue is empty said so, of the
/// saturation that was last found, and of the linear output where the call asked
/// for it.
pub proof fn lemma_processor_is_told(
    canceller: CancellerState,
    capture: AudioState,
    linear_output: bool,
    level_change: bool,
    steps: Seq<CallStep>,
    i: int,
    temporary: bool,
)
    requires
        CallState::start(canceller, capture, linear_output, level_change).answered(steps),
        0 <= i < steps.len(),
        steps[i] == (CallStep::Report { event: Event::QueueEmpty { temporary } }),
    ensures
        match CallState::start(canceller, capture, linear_output, level_change).run(
            steps,
        ).canceller.request() {
            Action::ProcessSubFrame { call } | Action::ProcessBlock { call } => {
                &&& call.echo_path_gain_change == (level_change || temporary)
                &&& call.capture_signal_saturation == canceller.saturated_microphone_signal
                &&& call.linear_output == linear_output
            },
            action => action == Action::CheckCaptureBlock || action == Action::Finish,
        },
{
    let at = CallState::start(canceller, capture, linear_output, level_change);
    lemma_told_so_far(at, steps, i, temporary);
    lemma_call_keeps_its_inputs(at, steps);
}

/// A capture call is rejected exactly where it asks for a linear output that is not
/// configured.
pub proof fn lemma_what_is_rejected(state: CancellerState, linear_output: bool)
    ensures
        linear_output && state.linear_view is None ==> state.rejects(linear_output),
        !linear_output ==> !state.rejects(linear_output),
        state.linear_view is Some ==> !state.rejects(linear_output),
{
}

/// What a report does to the frames. The render sub-frame is zero once the number of
/// render channels was set anew, and is filled where a render sub-frame comes next;
/// the capture sub-frame is filled where a capture sub-frame comes next; the render
/// frame is written to only where it is mixed down. Else they stay.
pub proof fn lemma_frames_after_a_report(state: CancellerState, capture: AudioState, event: Event)
    requires
        state.wf(),
        answers(state.call.phase, event),
    ensures
        ({
            let after = state.resumed(capture, event);
            let channels = after.num_render_channels_to_aec;
            &&& after.request() is Reinitialise ==> {
                &&& after.render_view.len() == state.num_bands
                &&& forall|b: int, c: int, k: int|
                    #![trigger after.render_view[b][c][k]]
                    0 <= b < state.num_bands && 0 <= c < channels && 0 <= k < 80
                        ==> after.render_view[b].len() == channels && after.render_view[b][c].len()
                        == 80 && after.render_view[b][c][k].bits == 0
            }
            &&& !(after.request() is Reinitialise) && after.request()
                != Action::BufferRenderSubFrame ==> after.render_view == state.render_view
            &&& !(after.request() is ProcessSubFrame) ==> after.capture_view == state.capture_view
            &&& after.request() != Action::BufferRenderSubFrame
                || !after.call.proper_downmix_needed || state.num_render_input_channels
                <= channels ==> after.render_frame == state.render_frame
            &&& after.call.phase matches Phase::RenderSubFrame { index } ==> {
                let filled = state.noting(event).with_render_sub_frame(index);
                after.render_view == filled.render_view && after.render_frame
                    == filled.render_frame
            }
        }),
{
}

} // verus!
