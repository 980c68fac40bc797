//! Removes echo from blocks of the capture signal.
//!
//! The remover decides which step comes next, what it is done on and which
//! outputs are used. Its driver owns the adaptive filters, the transforms, the
//! state estimators and the suppressor: it performs each `RemoverAction` on the
//! working buffers and reports back with a `RemoverEvent`.
use crate::capture_scratch::{powers_shaped, CaptureScratch, ScratchState};
use crate::common::{is_full_band_rate, BLOCK_SIZE, FFT_LENGTH_BY_2, FFT_LENGTH_BY_2_PLUS_1};
use crate::echo_path_variability::{DelayAdjustment, EchoPathVariability};
use crate::fft_data::{echo_power, linear_echo_power};
use crate::planes::{
    clear_plane, copy_planes, lemma_planes_update, new_planes, planes_of, planes_shaped, silence,
    silent_plane, silent_planes,
};
use crate::sample::{difference, is_at_most, is_less, minimum, product, sum, Sample};
use crate::subtractor_output::{
    crossfaded, form_linear_filter_output, lemma_linear_output_by_sample,
    use_refined_filter_output, SubtractorState,
};
use vstd::prelude::*;

verus! {

/// For how many blocks a gain change that was acted on stands for others.
pub const MAX_BLOCKS_PER_FRAME: i32 = 3;

/// What the remover reads of the configuration.
#[derive(Clone, Copy, Debug)]
pub struct RemoverConfig {
    pub enable_coarse_filter_output_usage: bool,
    pub has_clock_drift: bool,
}

/// Where the processing of a block stands: what was last asked of the driver.
#[derive(Clone, Copy, Debug, PartialEq, Eq, Structural)]
pub enum RemoverPhase {
    /// No block is being processed.
    Idle,
    /// To take down whether the capture signal is saturated.
    Saturation,
    /// To act on a change of the echo path.
    PathChange,
    /// To put the suppressor into its initial state.
    SuppressorReset,
    /// To analyze the render signal.
    RenderAnalysis,
    /// To say whether the initial state is left.
    TransitionCheck,
    /// To leave the initial state.
    TransitionExit,
    /// To run the adaptive filters.
    Subtraction,
    /// To transform the capture signal and the linear filter output.
    Transform,
    /// To pass on the linear filter output.
    LinearOutput,
    /// To update the state estimate.
    StateUpdate,
    /// To estimate the residual echo.
    ResidualEcho,
    /// To estimate the comfort noise.
    ComfortNoise,
    /// To compute the suppression gain.
    Gain,
    /// To apply the suppression gain.
    Filtering,
    /// To update the metrics.
    Metrics,
}

/// What the driver reports.
#[derive(Clone, Copy, Debug, PartialEq, Eq, Structural)]
pub enum RemoverEvent {
    /// What was asked is done.
    Done,
    /// Whether the initial state is left.
    Transition { triggered: bool },
    /// The state estimate is updated, and says which linear estimates can be
    /// used.
    StateUpdated { use_linear_filter_output: bool, usable_linear_estimate: bool },
}

/// The spectrum that stands for the near end.
#[derive(Clone, Copy, Debug, PartialEq, Eq, Structural)]
pub enum NearendSpectrum {
    /// That of the linear filter output, `e2`.
    LinearOutput,
    /// That of the capture signal, `y2`.
    Capture,
}

/// The spectrum that stands for the echo.
#[derive(Clone, Copy, Debug, PartialEq, Eq, Structural)]
pub enum EchoSpectrum {
    /// The linear echo power, `s2_linear`.
    Linear,
    /// The residual echo power, `r2`.
    Residual,
}

/// The spectra that are filtered.
#[derive(Clone, Copy, Debug, PartialEq, Eq, Structural)]
pub enum FilteredSpectra {
    /// Those of the linear filter output, `e_fft`.
    LinearOutput,
    /// Those of the capture signal, `y_fft`.
    Capture,
}

/// What the driver is asked to do.
#[derive(Clone, Copy, Debug, PartialEq, Eq, Structural)]
pub enum RemoverAction {
    UpdateCaptureSaturation { saturated: bool },
    /// Tell the adaptive filters and the state estimate of the change.
    HandleEchoPathChange { variability: EchoPathVariability },
    EnterInitialState,
    AnalyzeRender,
    CheckTransition,
    ExitInitialState,
    /// Run the adaptive filters into `subtractor_output`.
    Subtract,
    /// Transform the capture signal and `e`, each behind its last block, into
    /// `y_fft` and `e_fft`, and their powers into `y2` and `e2`.
    Transform,
    /// Pass on `e`.
    ReturnLinearOutput,
    UpdateState,
    /// Estimate the residual echo into `r2` and `r2_unbounded`.
    EstimateResidualEcho,
    /// Estimate the comfort noise into `comfort_noise` and
    /// `high_band_comfort_noise`.
    ComputeComfortNoise { nearend: NearendSpectrum },
    /// Compute the suppression gain.
    ComputeGain { nearend: NearendSpectrum, echo: EchoSpectrum, clock_drift: bool },
    /// Apply the suppression gain to the spectra, for the capture signal.
    ApplyGain { spectra: FilteredSpectra },
    /// Update the metrics with the suppression gain.
    UpdateMetrics,
    /// The block is processed.
    Finish,
}

/// What the processing of a block remembers.
#[derive(Clone, Copy, Debug, PartialEq, Eq, Structural)]
pub struct RemoverCall {
    pub phase: RemoverPhase,
    /// What is acted on of the changes of the echo path.
    pub variability: EchoPathVariability,
    /// Whether the echo path changed, acted on or not.
    pub path_changed: bool,
    pub saturated: bool,
    pub linear_output: bool,
    pub output_used: bool,
    pub use_linear_filter_output: bool,
    pub usable_linear_estimate: bool,
}

impl RemoverCall {
    /// Whether an event answers what was asked.
    pub open spec fn answered_by(self, event: RemoverEvent) -> bool {
        match self.phase {
            RemoverPhase::Idle => false,
            RemoverPhase::TransitionCheck => event is Transition,
            RemoverPhase::StateUpdate => event is StateUpdated,
            _ => event is Done,
        }
    }

    /// What is asked next.
    pub open spec fn next_phase(self, event: RemoverEvent) -> RemoverPhase {
        match self.phase {
            RemoverPhase::Idle => RemoverPhase::Idle,
            RemoverPhase::Saturation => if self.path_changed {
                RemoverPhase::PathChange
            } else {
                RemoverPhase::RenderAnalysis
            },
            RemoverPhase::PathChange => if self.variability.delay_change
                != DelayAdjustment::Unchanged {
                RemoverPhase::SuppressorReset
            } else {
                RemoverPhase::RenderAnalysis
            },
            RemoverPhase::SuppressorReset => RemoverPhase::RenderAnalysis,
            RemoverPhase::RenderAnalysis => RemoverPhase::TransitionCheck,
            RemoverPhase::TransitionCheck => if event->triggered {
                RemoverPhase::TransitionExit
            } else {
                RemoverPhase::Subtraction
            },
            RemoverPhase::TransitionExit => RemoverPhase::Subtraction,
            RemoverPhase::Subtraction => RemoverPhase::Transform,
            RemoverPhase::Transform => if self.linear_output {
                RemoverPhase::LinearOutput
            } else {
                RemoverPhase::StateUpdate
            },
            RemoverPhase::LinearOutput => RemoverPhase::StateUpdate,
            RemoverPhase::StateUpdate => if self.output_used {
                RemoverPhase::ResidualEcho
            } else {
                RemoverPhase::ComfortNoise
            },
            RemoverPhase::ResidualEcho => RemoverPhase::ComfortNoise,
            RemoverPhase::ComfortNoise => if self.output_used {
                RemoverPhase::Gain
            } else {
                RemoverPhase::Metrics
            },
            RemoverPhase::Gain => RemoverPhase::Filtering,
            RemoverPhase::Filtering => RemoverPhase::Metrics,
            RemoverPhase::Metrics => RemoverPhase::Idle,
        }
    }

    /// What is remembered after an event.
    pub open spec fn after(self, event: RemoverEvent) -> RemoverCall {
        let phase = self.next_phase(event);
        match event {
            RemoverEvent::StateUpdated { use_linear_filter_output, usable_linear_estimate } =>
            RemoverCall { phase, use_linear_filter_output, usable_linear_estimate, ..self },
            _ => RemoverCall { phase, ..self },
        }
    }

    pub open spec fn nearend(self) -> NearendSpectrum {
        if self.usable_linear_estimate {
            NearendSpectrum::LinearOutput
        } else {
            NearendSpectrum::Capture
        }
    }
}

/// Whether a gain change is acted on when `hangover` blocks are left of the last
/// one.
pub open spec fn acts_on_gain_change(hangover: int, gain_change: bool) -> bool {
    gain_change && hangover == 0
}

/// How many blocks are left after a block.
pub open spec fn hangover_after(hangover: int, gain_change: bool) -> int {
    if acts_on_gain_change(hangover, gain_change) {
        MAX_BLOCKS_PER_FRAME - 1
    } else if hangover > 0 {
        hangover - 1
    } else {
        0
    }
}

/// Whether the refined filter is chosen for the first `num_channels` outputs:
/// always, unless the coarse filter may be used and no channel favors the
/// refined one.
pub open spec fn chooses_refined(
    use_coarse_filter_output: bool,
    outputs: Seq<SubtractorState>,
    num_channels: int,
) -> bool {
    !use_coarse_filter_output || exists|c: int|
        0 <= c < num_channels && (#[trigger] outputs[c]).prefers_refined()
}

/// What an echo remover holds.
#[verifier::ext_equal]
pub struct RemoverState {
    pub sample_rate_hz: usize,
    pub num_render_channels: usize,
    pub num_capture_channels: usize,
    pub use_coarse_filter_output: bool,
    pub has_clock_drift: bool,
    pub echo_leakage_detected: bool,
    pub capture_output_used: bool,
    pub block_counter: usize,
    pub gain_change_hangover: i32,
    pub refined_filter_output_last_selected: bool,
    /// `e_old[channel]`, `y_old[channel]`: the last block of the linear filter
    /// output and of the capture signal.
    pub e_old: Seq<Seq<Sample>>,
    pub y_old: Seq<Seq<Sample>>,
    /// Suppression gain of each frequency bin.
    pub gain: Seq<Sample>,
    pub scratch: ScratchState,
    pub call: RemoverCall,
}

impl RemoverState {
    pub open spec fn wf(self) -> bool {
        &&& is_full_band_rate(self.sample_rate_hz)
        &&& 0 <= self.gain_change_hangover < MAX_BLOCKS_PER_FRAME
        &&& planes_shaped(self.e_old, self.num_capture_channels as int, FFT_LENGTH_BY_2 as int)
        &&& planes_shaped(self.y_old, self.num_capture_channels as int, FFT_LENGTH_BY_2 as int)
        &&& self.gain.len() == FFT_LENGTH_BY_2_PLUS_1
        &&& self.scratch.wf(self.num_capture_channels as int)
    }

    /// What a new remover holds.
    pub open spec fn fresh(
        config: RemoverConfig,
        sample_rate_hz: usize,
        num_render_channels: usize,
        num_capture_channels: usize,
    ) -> RemoverState {
        RemoverState {
            sample_rate_hz,
            num_render_channels,
            num_capture_channels,
            use_coarse_filter_output: config.enable_coarse_filter_output_usage,
            has_clock_drift: config.has_clock_drift,
            echo_leakage_detected: false,
            capture_output_used: true,
            block_counter: 0,
            gain_change_hangover: 0,
            refined_filter_output_last_selected: true,
            e_old: silent_planes(num_capture_channels as int, FFT_LENGTH_BY_2 as int),
            y_old: silent_planes(num_capture_channels as int, FFT_LENGTH_BY_2 as int),
            gain: silence(FFT_LENGTH_BY_2_PLUS_1 as int),
            scratch: ScratchState::silent(num_capture_channels as int),
            call: RemoverCall {
                phase: RemoverPhase::Idle,
                variability: EchoPathVariability {
                    gain_change: false,
                    delay_change: DelayAdjustment::Unchanged,
                    clock_drift: false,
                },
                path_changed: false,
                saturated: false,
                linear_output: false,
                output_used: true,
                use_linear_filter_output: false,
                usable_linear_estimate: false,
            },
        }
    }

    /// The state after the start of a block: the working buffers are zero, and a
    /// gain change is acted on once per frame.
    pub open spec fn started(
        self,
        variability: EchoPathVariability,
        saturated: bool,
        linear_output: bool,
    ) -> RemoverState {
        let hangover = self.gain_change_hangover as int;
        RemoverState {
            block_counter: (self.block_counter + 1) as usize,
            gain_change_hangover: hangover_after(hangover, variability.gain_change) as i32,
            gain: silence(FFT_LENGTH_BY_2_PLUS_1 as int),
            scratch: ScratchState::silent(self.num_capture_channels as int),
            call: RemoverCall {
                phase: RemoverPhase::Saturation,
                variability: EchoPathVariability {
                    gain_change: acts_on_gain_change(hangover, variability.gain_change),
                    ..variability
                },
                path_changed: variability.changes_path(),
                saturated,
                linear_output,
                output_used: self.capture_output_used,
                use_linear_filter_output: false,
                usable_linear_estimate: false,
            },
            ..self
        }
    }

    /// Whether the output of the refined filter is used.
    pub open spec fn uses_refined(self) -> bool {
        chooses_refined(
            self.use_coarse_filter_output,
            self.scratch.subtractor_output,
            self.num_capture_channels as int,
        )
    }

    /// The state with the linear filter output formed.
    pub open spec fn with_linear_output(self) -> RemoverState {
        let last = self.refined_filter_output_last_selected;
        let refined = self.uses_refined();
        RemoverState {
            refined_filter_output_last_selected: refined,
            scratch: ScratchState {
                e: Seq::new(
                    self.num_capture_channels as nat,
                    |c: int| self.scratch.subtractor_output[c].linear_output(last, refined),
                ),
                ..self.scratch
            },
            ..self
        }
    }

    /// The state with the linear echo power computed and the transformed blocks
    /// remembered.
    pub open spec fn with_echo_power(self, capture: Seq<Seq<Sample>>) -> RemoverState {
        RemoverState {
            y_old: capture,
            e_old: self.scratch.e,
            scratch: ScratchState {
                s2_linear: Seq::new(
                    self.num_capture_channels as nat,
                    |c: int| echo_power(self.scratch.e_fft[c], self.scratch.y_fft[c]),
                ),
                ..self.scratch
            },
            ..self
        }
    }

    /// The state with `e2` bounded by `y2` where the linear estimate is usable.
    pub open spec fn with_bounded_nearend(self) -> RemoverState {
        if self.call.usable_linear_estimate {
            RemoverState {
                scratch: ScratchState {
                    e2: bounded_powers(self.scratch.e2, self.scratch.y2),
                    ..self.scratch
                },
                ..self
            }
        } else {
            self
        }
    }

    /// The state with no suppression gain.
    pub open spec fn without_gain(self) -> RemoverState {
        RemoverState { gain: silence(FFT_LENGTH_BY_2_PLUS_1 as int), ..self }
    }

    /// The state after what the driver did is worked on.
    pub open spec fn worked_on(self, capture: Seq<Seq<Sample>>) -> RemoverState {
        match self.call.phase {
            RemoverPhase::Subtraction => self.with_linear_output(),
            RemoverPhase::Transform => self.with_echo_power(capture),
            RemoverPhase::ResidualEcho => self.with_bounded_nearend(),
            RemoverPhase::ComfortNoise => if self.call.output_used {
                self
            } else {
                self.without_gain()
            },
            _ => self,
        }
    }

    /// The state after an event.
    pub open spec fn resumed(
        self,
        capture: Seq<Seq<Sample>>,
        event: RemoverEvent,
    ) -> RemoverState {
        RemoverState { call: self.call.after(event), ..self.worked_on(capture) }
    }

    /// What is asked of the driver.
    pub open spec fn request(self) -> RemoverAction {
        match self.call.phase {
            RemoverPhase::Idle => RemoverAction::Finish,
            RemoverPhase::Saturation => RemoverAction::UpdateCaptureSaturation {
                saturated: self.call.saturated,
            },
            RemoverPhase::PathChange => RemoverAction::HandleEchoPathChange {
                variability: self.call.variability,
            },
            RemoverPhase::SuppressorReset => RemoverAction::EnterInitialState,
            RemoverPhase::RenderAnalysis => RemoverAction::AnalyzeRender,
            RemoverPhase::TransitionCheck => RemoverAction::CheckTransition,
            RemoverPhase::TransitionExit => RemoverAction::ExitInitialState,
            RemoverPhase::Subtraction => RemoverAction::Subtract,
            RemoverPhase::Transform => RemoverAction::Transform,
            RemoverPhase::LinearOutput => RemoverAction::ReturnLinearOutput,
            RemoverPhase::StateUpdate => RemoverAction::UpdateState,
            RemoverPhase::ResidualEcho => RemoverAction::EstimateResidualEcho,
            RemoverPhase::ComfortNoise => RemoverAction::ComputeComfortNoise {
                nearend: self.call.nearend(),
            },
            RemoverPhase::Gain => RemoverAction::ComputeGain {
                nearend: self.call.nearend(),
                echo: if self.call.usable_linear_estimate {
                    EchoSpectrum::Linear
                } else {
                    EchoSpectrum::Residual
                },
                clock_drift: self.has_clock_drift || self.call.variability.clock_drift,
            },
            RemoverPhase::Filtering => RemoverAction::ApplyGain {
                spectra: if self.call.use_linear_filter_output {
                    FilteredSpectra::LinearOutput
                } else {
                    FilteredSpectra::Capture
                },
            },
            RemoverPhase::Metrics => RemoverAction::UpdateMetrics,
        }
    }
}

/// Powers brought down to bounds, bin by bin.
pub open spec fn bounded_powers(powers: Seq<Seq<Sample>>, bounds: Seq<Seq<Sample>>) -> Seq<
    Seq<Sample>,
> {
    Seq::new(
        powers.len(),
        |c: int| Seq::new(powers[c].len(), |k: int| minimum(powers[c][k], bounds[c][k])),
    )
}

/// Brings powers down to bounds, bin by bin.
fn bound_powers(powers: &mut Vec<Vec<Sample>>, bounds: &Vec<Vec<Sample>>, num_channels: usize)
    requires
        powers_shaped(planes_of(old(powers)@), num_channels as int),
        powers_shaped(planes_of(bounds@), num_channels as int),
    ensures
        planes_of(final(powers)@) == bounded_powers(planes_of(old(powers)@), planes_of(bounds@)),
        powers_shaped(planes_of(final(powers)@), num_channels as int),
{
    let ghost before = planes_of(powers@);
    let ghost limits = planes_of(bounds@);
    let ghost all = bounded_powers(before, limits);
    for c in 0..num_channels
        invariant
            powers@.len() == num_channels,
            bounds@.len() == num_channels,
            powers_shaped(before, num_channels as int),
            powers_shaped(limits, num_channels as int),
            limits == planes_of(bounds@),
            all == bounded_powers(before, limits),
            forall|i: int|
                0 <= i < num_channels ==> (#[trigger] powers@[i])@ == if i < c {
                    all[i]
                } else {
                    before[i]
                },
    {
        let ghost held = powers@;
        assert(before[c as int].len() == FFT_LENGTH_BY_2_PLUS_1);
        assert(limits[c as int].len() == FFT_LENGTH_BY_2_PLUS_1);
        for k in 0..FFT_LENGTH_BY_2_PLUS_1
            invariant
                c < num_channels,
                powers@.len() == num_channels,
                bounds@.len() == num_channels,
                limits == planes_of(bounds@),
                before[c as int].len() == FFT_LENGTH_BY_2_PLUS_1,
                limits[c as int].len() == FFT_LENGTH_BY_2_PLUS_1,
                powers@[c as int]@.len() == FFT_LENGTH_BY_2_PLUS_1,
                held.len() == num_channels,
                forall|i: int|
                    0 <= i < num_channels && i != c ==> #[trigger] powers@[i] == held[i],
                forall|i: int|
                    0 <= i < FFT_LENGTH_BY_2_PLUS_1 ==> #[trigger] powers@[c as int]@[i] == if i
                        < k {
                        minimum(before[c as int][i], limits[c as int][i])
                    } else {
                        before[c as int][i]
                    },
        {
            let bound = bounds[c][k];
            assert(bound == limits[c as int][k as int]);
            powers[c][k] = powers[c][k].min(bound);
        }
        assert(powers@[c as int]@ =~= all[c as int]);
    }
    assert(planes_of(powers@) =~= all);
}

/// Removes echo from the capture signal.
pub struct EchoRemover {
    sample_rate_hz: usize,
    num_render_channels: usize,
    num_capture_channels: usize,
    use_coarse_filter_output: bool,
    has_clock_drift: bool,
    echo_leakage_detected: bool,
    capture_output_used: bool,
    block_counter: usize,
    gain_change_hangover: i32,
    refined_filter_output_last_selected: bool,
    e_old: Vec<Vec<Sample>>,
    y_old: Vec<Vec<Sample>>,
    gain: Vec<Sample>,
    scratch: CaptureScratch,
    call: RemoverCall,
}

impl View for EchoRemover {
    type V = RemoverState;

    closed spec fn view(&self) -> RemoverState {
        RemoverState {
            sample_rate_hz: self.sample_rate_hz,
            num_render_channels: self.num_render_channels,
            num_capture_channels: self.num_capture_channels,
            use_coarse_filter_output: self.use_coarse_filter_output,
            has_clock_drift: self.has_clock_drift,
            echo_leakage_detected: self.echo_leakage_detected,
            capture_output_used: self.capture_output_used,
            block_counter: self.block_counter,
            gain_change_hangover: self.gain_change_hangover,
            refined_filter_output_last_selected: self.refined_filter_output_last_selected,
            e_old: planes_of(self.e_old@),
            y_old: planes_of(self.y_old@),
            gain: self.gain@,
            scratch: self.scratch@,
            call: self.call,
        }
    }
}

impl EchoRemover {
    /// Creates a remover whose output is used.
    pub fn new(
        config: RemoverConfig,
        sample_rate_hz: usize,
        num_render_channels: usize,
        num_capture_channels: usize,
    ) -> (remover: EchoRemover)
        requires
            is_full_band_rate(sample_rate_hz),
        ensures
            remover@.wf(),
            remover@ == RemoverState::fresh(
                config,
                sample_rate_hz,
                num_render_channels,
                num_capture_channels,
            ),
    {
        EchoRemover {
            sample_rate_hz,
            num_render_channels,
            num_capture_channels,
            use_coarse_filter_output: config.enable_coarse_filter_output_usage,
            has_clock_drift: config.has_clock_drift,
            echo_leakage_detected: false,
            capture_output_used: true,
            block_counter: 0,
            gain_change_hangover: 0,
            refined_filter_output_last_selected: true,
            e_old: new_planes(num_capture_channels, FFT_LENGTH_BY_2),
            y_old: new_planes(num_capture_channels, FFT_LENGTH_BY_2),
            gain: silent_plane(FFT_LENGTH_BY_2_PLUS_1),
            scratch: CaptureScratch::new(num_capture_channels),
            call: RemoverCall {
                phase: RemoverPhase::Idle,
                variability: EchoPathVariability::new(false, DelayAdjustment::Unchanged, false),
                path_changed: false,
                saturated: false,
                linear_output: false,
                output_used: true,
                use_linear_filter_output: false,
                usable_linear_estimate: false,
            },
        }
    }

    /// What is asked of the driver.
    pub fn request(&self) -> (action: RemoverAction)
        ensures
            action == self@.request(),
    {
        let nearend = if self.call.usable_linear_estimate {
            NearendSpectrum::LinearOutput
        } else {
            NearendSpectrum::Capture
        };
        match self.call.phase {
            RemoverPhase::Idle => RemoverAction::Finish,
            RemoverPhase::Saturation => RemoverAction::UpdateCaptureSaturation {
                saturated: self.call.saturated,
            },
            RemoverPhase::PathChange => RemoverAction::HandleEchoPathChange {
                variability: self.call.variability,
            },
            RemoverPhase::SuppressorReset => RemoverAction::EnterInitialState,
            RemoverPhase::RenderAnalysis => RemoverAction::AnalyzeRender,
            RemoverPhase::TransitionCheck => RemoverAction::CheckTransition,
            RemoverPhase::TransitionExit => RemoverAction::ExitInitialState,
            RemoverPhase::Subtraction => RemoverAction::Subtract,
            RemoverPhase::Transform => RemoverAction::Transform,
            RemoverPhase::LinearOutput => RemoverAction::ReturnLinearOutput,
            RemoverPhase::StateUpdate => RemoverAction::UpdateState,
            RemoverPhase::ResidualEcho => RemoverAction::EstimateResidualEcho,
            RemoverPhase::ComfortNoise => RemoverAction::ComputeComfortNoise { nearend },
            RemoverPhase::Gain => RemoverAction::ComputeGain {
                nearend,
                echo: if self.call.usable_linear_estimate {
                    EchoSpectrum::Linear
                } else {
                    EchoSpectrum::Residual
                },
                clock_drift: self.has_clock_drift || self.call.variability.clock_drift,
            },
            RemoverPhase::Filtering => RemoverAction::ApplyGain {
                spectra: if self.call.use_linear_filter_output {
                    FilteredSpectra::LinearOutput
                } else {
                    FilteredSpectra::Capture
                },
            },
            RemoverPhase::Metrics => RemoverAction::UpdateMetrics,
        }
    }

    /// Starts to process a block of the capture signal.
    pub fn process_capture(
        &mut self,
        echo_path_variability: EchoPathVariability,
        capture_signal_saturation: bool,
        linear_output: bool,
    ) -> (action: RemoverAction)
        requires
            old(self)@.wf(),
            old(self)@.call.phase is Idle,
            old(self)@.block_counter < usize::MAX,
        ensures
            final(self)@.wf(),
            final(self)@ == old(self)@.started(
                echo_path_variability,
                capture_signal_saturation,
                linear_output,
            ),
            action == final(self)@.request(),
    {
        self.block_counter = self.block_counter + 1;
        self.scratch.reset();
        clear_plane(&mut self.gain);
        let mut variability = echo_path_variability;
        let path_changed = variability.audio_path_changed();
        if path_changed {
            // A gain change is acted on only once per frame.
            if variability.gain_change {
                if self.gain_change_hangover == 0 {
                    self.gain_change_hangover = MAX_BLOCKS_PER_FRAME;
                } else {
                    variability.gain_change = false;
                }
            }
        }
        if self.gain_change_hangover > 0 {
            self.gain_change_hangover = self.gain_change_hangover - 1;
        }
        self.call = RemoverCall {
            phase: RemoverPhase::Saturation,
            variability,
            path_changed,
            saturated: capture_signal_saturation,
            linear_output,
            output_used: self.capture_output_used,
            use_linear_filter_output: false,
            usable_linear_estimate: false,
        };
        self.request()
    }

    /// Decides between the refined and the coarse filter, once for all channels.
    fn selects_refined(&self) -> (refined: bool)
        requires
            self@.wf(),
        ensures
            refined == self@.uses_refined(),
    {
        if !self.use_coarse_filter_output {
            return true;
        }
        let num_channels: usize = self.num_capture_channels;
        for c in 0..num_channels
            invariant
                self@.wf(),
                num_channels == self@.num_capture_channels,
                forall|i: int|
                    0 <= i < c ==> !(
                    #[trigger] self@.scratch.subtractor_output[i]).prefers_refined(),
        {
            if use_refined_filter_output(&self.scratch.subtractor_output[c]) {
                assert(self@.scratch.subtractor_output[c as int].prefers_refined());
                return true;
            }
        }
        false
    }

    /// Forms the linear filter output of every channel.
    fn form_linear_outputs(&mut self)
        requires
            old(self)@.wf(),
        ensures
            final(self)@.wf(),
            final(self)@ == old(self)@.with_linear_output(),
    {
        let ghost before = self@;
        let refined = self.selects_refined();
        let last = self.refined_filter_output_last_selected;
        let num_channels: usize = self.num_capture_channels;
        for c in 0..num_channels
            invariant
                before.wf(),
                num_channels == before.num_capture_channels,
                self@ == (RemoverState {
                    scratch: ScratchState { e: self@.scratch.e, ..before.scratch },
                    ..before
                }),
                self.scratch.e@.len() == num_channels,
                self.scratch.subtractor_output@.len() == num_channels,
                planes_shaped(self@.scratch.e, num_channels as int, FFT_LENGTH_BY_2 as int),
                forall|i: int|
                    0 <= i < c ==> #[trigger] self@.scratch.e[i]
                        == before.scratch.subtractor_output[i].linear_output(last, refined),
        {
            let ghost held = self.scratch.e@;
            assert(self.scratch.subtractor_output@[c as int]@
                == before.scratch.subtractor_output[c as int]);
            assert(before.scratch.subtractor_output[c as int].wf());
            assert(planes_of(held)[c as int] == held[c as int]@);
            form_linear_filter_output(
                last,
                refined,
                &self.scratch.subtractor_output[c],
                &mut self.scratch.e[c],
            );
            proof {
                lemma_planes_update(held, c as int, self.scratch.e@[c as int]);
            }
        }
        self.refined_filter_output_last_selected = refined;
        assert(self@.scratch.e =~= before.with_linear_output().scratch.e);
    }

    /// Computes the linear echo power and remembers the blocks that were
    /// transformed.
    fn update_echo_power(&mut self, capture: &Vec<Vec<Sample>>)
        requires
            old(self)@.wf(),
            planes_shaped(
                planes_of(capture@),
                old(self)@.num_capture_channels as int,
                BLOCK_SIZE as int,
            ),
        ensures
            final(self)@.wf(),
            final(self)@ == old(self)@.with_echo_power(planes_of(capture@)),
    {
        let ghost before = self@;
        let num_channels: usize = self.num_capture_channels;
        copy_planes(capture, &mut self.y_old, num_channels, FFT_LENGTH_BY_2);
        copy_planes(&self.scratch.e, &mut self.e_old, num_channels, FFT_LENGTH_BY_2);
        let ghost copied = self@;
        for c in 0..num_channels
            invariant
                copied.wf(),
                num_channels == copied.num_capture_channels,
                self@ == (RemoverState {
                    scratch: ScratchState { s2_linear: self@.scratch.s2_linear, ..copied.scratch },
                    ..copied
                }),
                self.scratch.s2_linear@.len() == num_channels,
                self.scratch.y_fft@.len() == num_channels,
                self.scratch.e_fft@.len() == num_channels,
                powers_shaped(self@.scratch.s2_linear, num_channels as int),
                forall|i: int|
                    0 <= i < c ==> #[trigger] self@.scratch.s2_linear[i] == echo_power(
                        copied.scratch.e_fft[i],
                        copied.scratch.y_fft[i],
                    ),
        {
            let ghost held = self.scratch.s2_linear@;
            assert(self.scratch.e_fft@[c as int]@ == copied.scratch.e_fft[c as int]);
            assert(self.scratch.y_fft@[c as int]@ == copied.scratch.y_fft[c as int]);
            assert(copied.scratch.e_fft[c as int].wf());
            assert(copied.scratch.y_fft[c as int].wf());
            assert(planes_of(held)[c as int] == held[c as int]@);
            linear_echo_power(
                &self.scratch.e_fft[c],
                &self.scratch.y_fft[c],
                &mut self.scratch.s2_linear[c],
            );
            proof {
                lemma_planes_update(held, c as int, self.scratch.s2_linear@[c as int]);
            }
        }
        assert(self@.scratch.s2_linear =~= before.with_echo_power(
            planes_of(capture@),
        ).scratch.s2_linear);
    }

    /// Works on what the driver did.
    fn work_on(&mut self, capture: &Vec<Vec<Sample>>)
        requires
            old(self)@.wf(),
            planes_shaped(
                planes_of(capture@),
                old(self)@.num_capture_channels as int,
                BLOCK_SIZE as int,
            ),
        ensures
            final(self)@.wf(),
            final(self)@ == old(self)@.worked_on(planes_of(capture@)),
    {
        match self.call.phase {
            RemoverPhase::Subtraction => self.form_linear_outputs(),
            RemoverPhase::Transform => self.update_echo_power(capture),
            RemoverPhase::ResidualEcho => {
                if self.call.usable_linear_estimate {
                    bound_powers(
                        &mut self.scratch.e2,
                        &self.scratch.y2,
                        self.num_capture_channels,
                    );
                }
            },
            RemoverPhase::ComfortNoise => {
                if !self.call.output_used {
                    clear_plane(&mut self.gain);
                }
            },
            _ => {},
        }
    }

    /// Goes on with a block after the driver did what was asked. `capture` is
    /// the lowest band of the capture signal.
    pub fn resume(&mut self, capture: &Vec<Vec<Sample>>, event: RemoverEvent) -> (action:
        RemoverAction)
        requires
            old(self)@.wf(),
            old(self)@.call.answered_by(event),
            planes_shaped(
                planes_of(capture@),
                old(self)@.num_capture_channels as int,
                BLOCK_SIZE as int,
            ),
        ensures
            final(self)@.wf(),
            final(self)@ == old(self)@.resumed(planes_of(capture@), event),
            action == final(self)@.request(),
    {
        let call = self.next_call(event);
        self.work_on(capture);
        self.call = call;
        self.request()
    }

    /// What is remembered after an event.
    fn next_call(&self, event: RemoverEvent) -> (call: RemoverCall)
        requires
            self@.call.answered_by(event),
        ensures
            call == self@.call.after(event),
    {
        let mut call = self.call;
        call.phase = self.next_phase(event);
        match event {
            RemoverEvent::StateUpdated { use_linear_filter_output, usable_linear_estimate } => {
                call.use_linear_filter_output = use_linear_filter_output;
                call.usable_linear_estimate = usable_linear_estimate;
            },
            _ => {},
        }
        call
    }

    /// What is asked next.
    fn next_phase(&self, event: RemoverEvent) -> (phase: RemoverPhase)
        requires
            self@.call.answered_by(event),
        ensures
            phase == self@.call.next_phase(event),
    {
        match (self.call.phase, event) {
            (RemoverPhase::Saturation, _) => if self.call.path_changed {
                RemoverPhase::PathChange
            } else {
                RemoverPhase::RenderAnalysis
            },
            (RemoverPhase::PathChange, _) => if self.call.variability.delay_change
                != DelayAdjustment::Unchanged {
                RemoverPhase::SuppressorReset
            } else {
                RemoverPhase::RenderAnalysis
            },
            (RemoverPhase::SuppressorReset, _) => RemoverPhase::RenderAnalysis,
            (RemoverPhase::RenderAnalysis, _) => RemoverPhase::TransitionCheck,
            (RemoverPhase::TransitionCheck, RemoverEvent::Transition { triggered: true }) =>
            RemoverPhase::TransitionExit,
            (RemoverPhase::TransitionCheck, _) => RemoverPhase::Subtraction,
            (RemoverPhase::TransitionExit, _) => RemoverPhase::Subtraction,
            (RemoverPhase::Subtraction, _) => RemoverPhase::Transform,
            (RemoverPhase::Transform, _) => if self.call.linear_output {
                RemoverPhase::LinearOutput
            } else {
                RemoverPhase::StateUpdate
            },
            (RemoverPhase::LinearOutput, _) => RemoverPhase::StateUpdate,
            (RemoverPhase::StateUpdate, _) => if self.call.output_used {
                RemoverPhase::ResidualEcho
            } else {
                RemoverPhase::ComfortNoise
            },
            (RemoverPhase::ResidualEcho, _) => RemoverPhase::ComfortNoise,
            (RemoverPhase::ComfortNoise, _) => if self.call.output_used {
                RemoverPhase::Gain
            } else {
                RemoverPhase::Metrics
            },
            (RemoverPhase::Gain, _) => RemoverPhase::Filtering,
            (RemoverPhase::Filtering, _) => RemoverPhase::Metrics,
            _ => RemoverPhase::Idle,
        }
    }
}

impl EchoRemover {
    /// Whether echo leakage is detected.
    pub fn echo_leakage_detected(&self) -> (r: bool)
        ensures
            r == self@.echo_leakage_detected,
    {
        self.echo_leakage_detected
    }

    /// Whether the capture output is used.
    pub fn capture_output_used(&self) -> (r: bool)
        ensures
            r == self@.capture_output_used,
    {
        self.capture_output_used
    }

    /// Number of channels of the capture signal.
    pub fn num_capture_channels(&self) -> (r: usize)
        ensures
            r == self@.num_capture_channels,
    {
        self.num_capture_channels
    }

    /// Number of channels of the render signal.
    pub fn num_render_channels(&self) -> (r: usize)
        ensures
            r == self@.num_render_channels,
    {
        self.num_render_channels
    }

    /// Number of blocks that were started.
    pub fn block_counter(&self) -> (r: usize)
        ensures
            r == self@.block_counter,
    {
        self.block_counter
    }

    /// Updates the status on whether echo leakage is detected.
    pub fn update_echo_leakage_status(&mut self, leakage_detected: bool)
        ensures
            final(self)@ == (RemoverState {
                echo_leakage_detected: leakage_detected,
                ..old(self)@
            }),
    {
        self.echo_leakage_detected = leakage_detected;
    }

    /// Specifies whether the capture output will be used, from the next block
    /// on.
    pub fn set_capture_output_usage(&mut self, capture_output_used: bool)
        ensures
            final(self)@ == (RemoverState { capture_output_used, ..old(self)@ }),
    {
        self.capture_output_used = capture_output_used;
    }

    /// The last block of the linear filter output, for each channel.
    pub fn e_old(&self) -> (planes: &Vec<Vec<Sample>>)
        ensures
            planes_of(planes@) == self@.e_old,
    {
        &self.e_old
    }

    /// The last block of the capture signal, for each channel.
    pub fn y_old(&self) -> (planes: &Vec<Vec<Sample>>)
        ensures
            planes_of(planes@) == self@.y_old,
    {
        &self.y_old
    }

    /// The working buffers, for the driver to read.
    pub fn scratch(&self) -> (scratch: &CaptureScratch)
        ensures
            scratch@ == self@.scratch,
    {
        &self.scratch
    }

    /// The working buffers, for the driver to fill.
    pub fn scratch_mut(&mut self) -> (scratch: &mut CaptureScratch)
        requires
            old(self)@.wf(),
        ensures
            scratch@ == old(self)@.scratch,
            final(self)@ == (RemoverState { scratch: final(scratch)@, ..old(self)@ }),
            final(scratch)@.wf(old(self)@.num_capture_channels as int) ==> final(self)@.wf(),
    {
        &mut self.scratch
    }

    /// The suppression gain.
    pub fn gain(&self) -> (gain: &Vec<Sample>)
        ensures
            gain@ == self@.gain,
    {
        &self.gain
    }

    /// The suppression gain, for the driver to fill.
    pub fn gain_mut(&mut self) -> (gain: &mut Vec<Sample>)
        requires
            old(self)@.wf(),
        ensures
            gain@ == old(self)@.gain,
            final(self)@ == (RemoverState { gain: final(gain)@, ..old(self)@ }),
            final(gain)@.len() == FFT_LENGTH_BY_2_PLUS_1 ==> final(self)@.wf(),
    {
        &mut self.gain
    }

    /// Copies the linear filter output of every channel to `linear_output`.
    pub fn copy_linear_output(&self, linear_output: &mut Vec<Vec<Sample>>)
        requires
            self@.wf(),
            planes_shaped(
                planes_of(old(linear_output)@),
                self@.num_capture_channels as int,
                BLOCK_SIZE as int,
            ),
        ensures
            planes_of(final(linear_output)@) == self@.scratch.e,
    {
        copy_planes(&self.scratch.e, linear_output, self.num_capture_channels, BLOCK_SIZE);
    }
}

/// The hangover after a run of blocks, each with or without a gain change.
pub open spec fn hangover_of(changes: Seq<bool>) -> int
    decreases changes.len(),
{
    if changes.len() == 0 {
        0
    } else {
        hangover_after(hangover_of(changes.drop_last()), changes.last())
    }
}

/// Whether the gain change of block `i` of a run is acted on.
pub open spec fn acted_on(changes: Seq<bool>, i: int) -> bool {
    0 <= i < changes.len() && acts_on_gain_change(hangover_of(changes.take(i)), changes[i])
}

/// The hangover counts the blocks since a gain change was acted on.
proof fn lemma_hangover_counts(changes: Seq<bool>, n: int)
    requires
        0 <= n <= changes.len(),
    ensures
        hangover_of(changes.take(n)) == (if acted_on(changes, n - 1) {
            2int
        } else if acted_on(changes, n - 2) {
            1
        } else {
            0
        }),
        !(acted_on(changes, n - 1) && acted_on(changes, n - 2)),
    decreases n,
{
    if n > 0 {
        lemma_hangover_counts(changes, n - 1);
        assert(changes.take(n).drop_last() =~= changes.take(n - 1));
        assert(changes.take(n).last() == changes[n - 1]);
    }
}

/// A gain change is acted on once per frame: it is acted on exactly where none
/// was in the two blocks before.
pub proof fn lemma_gain_change_once_per_frame(changes: Seq<bool>, i: int)
    requires
        0 <= i < changes.len(),
    ensures
        acted_on(changes, i) == (changes[i] && !acted_on(changes, i - 1) && !acted_on(
            changes,
            i - 2,
        )),
{
    lemma_hangover_counts(changes, i);
}

/// The near-end power never exceeds that of the capture signal once it is
/// bounded, where both are numbers.
pub proof fn lemma_nearend_is_bounded(powers: Seq<Seq<Sample>>, bounds: Seq<Seq<Sample>>)
    ensures
        forall|c: int, k: int|
            #![trigger bounded_powers(powers, bounds)[c][k]]
            0 <= c < powers.len() && 0 <= k < powers[c].len() && !powers[c][k].is_nan()
                && !bounds[c][k].is_nan() ==> is_at_most(
                bounded_powers(powers, bounds)[c][k],
                bounds[c][k],
            ) && is_at_most(bounded_powers(powers, bounds)[c][k], powers[c][k]),
{
}

/// What is remembered after a run of events.
pub open spec fn call_after(call: RemoverCall, events: Seq<RemoverEvent>) -> RemoverCall
    decreases events.len(),
{
    if events.len() == 0 {
        call
    } else {
        call_after(call, events.drop_last()).after(events.last())
    }
}

/// Whether each event of a run answers what was asked.
pub open spec fn all_answered(call: RemoverCall, events: Seq<RemoverEvent>) -> bool
    decreases events.len(),
{
    events.len() == 0 || {
        &&& all_answered(call, events.drop_last())
        &&& call_after(call, events.drop_last()).answered_by(events.last())
    }
}

/// At most how many events follow a phase.
pub open spec fn steps_left(phase: RemoverPhase) -> nat {
    match phase {
        RemoverPhase::Saturation => 15,
        RemoverPhase::PathChange => 14,
        RemoverPhase::SuppressorReset => 13,
        RemoverPhase::RenderAnalysis => 12,
        RemoverPhase::TransitionCheck => 11,
        RemoverPhase::TransitionExit => 10,
        RemoverPhase::Subtraction => 9,
        RemoverPhase::Transform => 8,
        RemoverPhase::LinearOutput => 7,
        RemoverPhase::StateUpdate => 6,
        RemoverPhase::ResidualEcho => 5,
        RemoverPhase::ComfortNoise => 4,
        RemoverPhase::Gain => 3,
        RemoverPhase::Filtering => 2,
        RemoverPhase::Metrics => 1,
        RemoverPhase::Idle => 0,
    }
}

/// Every block is processed in at most fifteen steps.
pub proof fn lemma_block_ends(call: RemoverCall, events: Seq<RemoverEvent>)
    requires
        call.phase is Saturation,
        all_answered(call, events),
    ensures
        events.len() + steps_left(call_after(call, events).phase) <= 15,
    decreases events.len(),
{
    if events.len() > 0 {
        lemma_block_ends(call, events.drop_last());
    }
}

/// How many events of a run answer what is asked in phase `p`.
pub open spec fn times_answered(
    call: RemoverCall,
    events: Seq<RemoverEvent>,
    p: RemoverPhase,
) -> nat
    decreases events.len(),
{
    if events.len() == 0 {
        0
    } else {
        let earlier = times_answered(call, events.drop_last(), p);
        if call_after(call, events.drop_last()).phase == p {
            earlier + 1
        } else {
            earlier
        }
    }
}

impl RemoverCall {
    /// Whether a step is part of the processing of the block, whatever the
    /// driver reports.
    pub open spec fn takes_step(self, p: RemoverPhase) -> bool {
        match p {
            RemoverPhase::PathChange => self.path_changed,
            RemoverPhase::SuppressorReset => self.path_changed && self.variability.delay_change
                != DelayAdjustment::Unchanged,
            RemoverPhase::LinearOutput => self.linear_output,
            RemoverPhase::ResidualEcho | RemoverPhase::Gain | RemoverPhase::Filtering =>
            self.output_used,
            RemoverPhase::TransitionExit | RemoverPhase::Idle => false,
            _ => true,
        }
    }
}

/// What was answered so far in a run.
proof fn lemma_steps_so_far(call: RemoverCall, events: Seq<RemoverEvent>, p: RemoverPhase)
    requires
        call.phase is Saturation,
        all_answered(call, events),
        !(p is TransitionExit),
    ensures
        ({
            let at = call_after(call, events).phase;
            &&& call.takes_step(at) || at is TransitionExit || at is Idle
            &&& times_answered(call, events, p) == (if call.takes_step(p) && steps_left(p)
                > steps_left(at) {
                1int
            } else {
                0
            })
        }),
    decreases events.len(),
{
    if events.len() > 0 {
        lemma_steps_so_far(call, events.drop_last(), p);
        lemma_flags_are_kept(call, events.drop_last());
    }
}

/// A block that was processed went through each of its steps once, and through
/// no other but to leave the initial state. Where the output is not used, these
/// are none that estimate the residual echo, compute a gain or apply it.
pub proof fn lemma_block_is_complete(
    call: RemoverCall,
    events: Seq<RemoverEvent>,
    p: RemoverPhase,
)
    requires
        call.phase is Saturation,
        all_answered(call, events),
        call_after(call, events).phase is Idle,
        !(p is TransitionExit),
    ensures
        times_answered(call, events, p) == (if call.takes_step(p) {
            1int
        } else {
            0
        }),
{
    lemma_steps_so_far(call, events, p);
}

/// A block keeps what it was started with.
proof fn lemma_flags_are_kept(call: RemoverCall, events: Seq<RemoverEvent>)
    ensures
        ({
            let after = call_after(call, events);
            &&& after.output_used == call.output_used
            &&& after.linear_output == call.linear_output
            &&& after.path_changed == call.path_changed
            &&& after.variability == call.variability
        }),
    decreases events.len(),
{
    if events.len() > 0 {
        lemma_flags_are_kept(call, events.drop_last());
    }
}

/// What an earlier block left in the working buffers and in the gain has no
/// influence on a block: it starts as it would from fresh ones.
pub proof fn lemma_start_forgets_buffers(
    a: RemoverState,
    b: RemoverState,
    variability: EchoPathVariability,
    saturated: bool,
    linear_output: bool,
)
    requires
        a == (RemoverState { scratch: a.scratch, gain: a.gain, call: a.call, ..b }),
    ensures
        a.started(variability, saturated, linear_output) == b.started(
            variability,
            saturated,
            linear_output,
        ),
{
}

/// What can happen to a remover.
pub enum RemoverStep {
    /// The use of the output is set.
    SetUsage { used: bool },
    /// The leakage status is set.
    SetLeakage { detected: bool },
    /// The driver fills the working buffers and the gain.
    Fill { scratch: ScratchState, gain: Seq<Sample> },
    /// A block starts.
    Start { variability: EchoPathVariability, saturated: bool, linear_output: bool },
    /// The driver reports.
    Resume { capture: Seq<Seq<Sample>>, event: RemoverEvent },
}

impl RemoverState {
    /// Whether a step can be taken. The driver leaves the linear filter output
    /// to the remover.
    pub open spec fn allows(self, step: RemoverStep) -> bool {
        match step {
            RemoverStep::SetUsage { .. } | RemoverStep::SetLeakage { .. } => true,
            RemoverStep::Fill { scratch, .. } => scratch.e == self.scratch.e,
            RemoverStep::Start { .. } => self.call.phase is Idle,
            RemoverStep::Resume { event, .. } => self.call.answered_by(event),
        }
    }

    /// The state after a step.
    pub open spec fn stepped(self, step: RemoverStep) -> RemoverState {
        match step {
            RemoverStep::SetUsage { used } => RemoverState { capture_output_used: used, ..self },
            RemoverStep::SetLeakage { detected } => RemoverState {
                echo_leakage_detected: detected,
                ..self
            },
            RemoverStep::Fill { scratch, gain } => RemoverState { scratch, gain, ..self },
            RemoverStep::Start { variability, saturated, linear_output } => self.started(
                variability,
                saturated,
                linear_output,
            ),
            RemoverStep::Resume { capture, event } => self.resumed(capture, event),
        }
    }

    /// The state after a run of steps.
    pub open spec fn run(self, steps: Seq<RemoverStep>) -> RemoverState
        decreases steps.len(),
    {
        if steps.len() == 0 {
            self
        } else {
            self.run(steps.drop_last()).stepped(steps.last())
        }
    }

    /// Whether the steps of a run can be taken, with the linear output asked for
    /// in every block.
    pub open spec fn allows_run(self, steps: Seq<RemoverStep>) -> bool
        decreases steps.len(),
    {
        steps.len() == 0 || {
            &&& self.allows_run(steps.drop_last())
            &&& self.run(steps.drop_last()).allows(steps.last())
            &&& steps.last() matches RemoverStep::Start { linear_output, .. } ==> linear_output
        }
    }

    /// The outputs of the adaptive filters in a run, block by block.
    pub open spec fn filter_outputs(self, steps: Seq<RemoverStep>) -> Seq<Seq<SubtractorState>>
        decreases steps.len(),
    {
        if steps.len() == 0 {
            seq![]
        } else {
            let before = self.run(steps.drop_last());
            let earlier = self.filter_outputs(steps.drop_last());
            if steps.last() is Resume && before.call.phase is Subtraction {
                earlier.push(before.scratch.subtractor_output)
            } else {
                earlier
            }
        }
    }

    /// The linear outputs that are passed on in a run, block by block.
    pub open spec fn returned_outputs(self, steps: Seq<RemoverStep>) -> Seq<Seq<Seq<Sample>>>
        decreases steps.len(),
    {
        if steps.len() == 0 {
            seq![]
        } else {
            let before = self.run(steps.drop_last());
            let earlier = self.returned_outputs(steps.drop_last());
            if steps.last() is Resume && before.call.phase is LinearOutput {
                earlier.push(before.scratch.e)
            } else {
                earlier
            }
        }
    }

    /// The filter that is selected after blocks with these filter outputs.
    pub open spec fn selection_after(self, filters: Seq<Seq<SubtractorState>>) -> bool {
        if filters.len() == 0 {
            self.refined_filter_output_last_selected
        } else {
            chooses_refined(
                self.use_coarse_filter_output,
                filters.last(),
                self.num_capture_channels as int,
            )
        }
    }

    /// The linear outputs of blocks with these filter outputs.
    pub open spec fn linear_outputs(self, filters: Seq<Seq<SubtractorState>>) -> Seq<
        Seq<Seq<Sample>>,
    > {
        Seq::new(
            filters.len(),
            |i: int|
                Seq::new(
                    self.num_capture_channels as nat,
                    |c: int|
                        filters[i][c].linear_output(
                            self.selection_after(filters.take(i)),
                            self.selection_after(filters.take(i + 1)),
                        ),
                ),
        )
    }
}

/// Whether the linear filter output of a block is formed and the block is not
/// over.
pub open spec fn has_linear_output(phase: RemoverPhase) -> bool {
    0 < steps_left(phase) < steps_left(RemoverPhase::Subtraction)
}

/// Whether the linear filter output is yet to be passed on.
pub open spec fn owes_linear_output(phase: RemoverPhase) -> bool {
    phase is Transform || phase is LinearOutput
}

/// A further block adds its linear output to those before.
proof fn lemma_linear_outputs_grow(
    state: RemoverState,
    filters: Seq<Seq<SubtractorState>>,
    next: Seq<SubtractorState>,
)
    ensures
        ({
            let more = filters.push(next);
            &&& state.selection_after(more) == chooses_refined(
                state.use_coarse_filter_output,
                next,
                state.num_capture_channels as int,
            )
            &&& state.linear_outputs(more) == state.linear_outputs(filters).push(
                Seq::new(
                    state.num_capture_channels as nat,
                    |c: int|
                        next[c].linear_output(
                            state.selection_after(filters),
                            state.selection_after(more),
                        ),
                ),
            )
        }),
{
    let more = filters.push(next);
    let ours = state.linear_outputs(more);
    let len = filters.len() as int;
    assert(more.take(len) =~= filters);
    assert(more.take(len + 1) =~= more);
    assert forall|i: int| 0 <= i < len implies ours[i] == state.linear_outputs(filters)[i] by {
        assert(more.take(i) =~= filters.take(i));
        assert(more.take(i + 1) =~= filters.take(i + 1));
        assert(ours[i] =~= state.linear_outputs(filters)[i]);
    }
}

/// What a run has formed and passed on so far.
#[verifier::spinoff_prover]
proof fn lemma_linear_outputs_so_far(state: RemoverState, steps: Seq<RemoverStep>)
    requires
        state.call.phase is Idle,
        state.allows_run(steps),
    ensures
        ({
            let at = state.run(steps);
            let filters = state.filter_outputs(steps);
            let formed = state.linear_outputs(filters);
            let returned = state.returned_outputs(steps);
            &&& at.num_capture_channels == state.num_capture_channels
            &&& at.use_coarse_filter_output == state.use_coarse_filter_output
            &&& at.refined_filter_output_last_selected == state.selection_after(filters)
            &&& !(at.call.phase is Idle) ==> at.call.linear_output
            &&& has_linear_output(at.call.phase) ==> formed.len() > 0 && at.scratch.e
                == formed.last()
            &&& owes_linear_output(at.call.phase) ==> formed.len() > 0 && returned
                == formed.drop_last()
            &&& !owes_linear_output(at.call.phase) ==> returned == formed
        }),
    decreases steps.len(),
{
    if steps.len() > 0 {
        let earlier = steps.drop_last();
        let before = state.run(earlier);
        lemma_linear_outputs_so_far(state, earlier);
        let filters = state.filter_outputs(earlier);
        let formed = state.linear_outputs(filters);
        if steps.last() is Resume && before.call.phase is Subtraction {
            let next = before.scratch.subtractor_output;
            lemma_linear_outputs_grow(state, filters, next);
            let e = state.run(steps).scratch.e;
            assert(e =~= state.linear_outputs(filters.push(next)).last());
            assert(formed.push(e).drop_last() =~= formed);
        } else {
            assert(state.filter_outputs(steps) == filters);
            if steps.last() is Resume && before.call.phase is LinearOutput {
                assert(formed.drop_last().push(formed.last()) =~= formed);
            }
        }
    } else {
        assert(state.linear_outputs(seq![]) =~= seq![]);
    }
}

/// The linear output depends on the filter outputs alone: two removers with as
/// many channels, the same setting of the coarse filter and the same last
/// selection pass on the same linear outputs for the same filter outputs, and
/// select the same filter. Whether the output is used, the leakage status and
/// all else that is set, reported or filled in between has no influence.
pub proof fn lemma_linear_output_follows_filters(
    a: RemoverState,
    steps_a: Seq<RemoverStep>,
    b: RemoverState,
    steps_b: Seq<RemoverStep>,
)
    requires
        a.num_capture_channels == b.num_capture_channels,
        a.use_coarse_filter_output == b.use_coarse_filter_output,
        a.refined_filter_output_last_selected == b.refined_filter_output_last_selected,
        a.call.phase is Idle,
        b.call.phase is Idle,
        a.allows_run(steps_a),
        b.allows_run(steps_b),
        a.run(steps_a).call.phase is Idle,
        b.run(steps_b).call.phase is Idle,
        a.filter_outputs(steps_a) == b.filter_outputs(steps_b),
    ensures
        a.returned_outputs(steps_a) == b.returned_outputs(steps_b),
        a.returned_outputs(steps_a).len() == a.filter_outputs(steps_a).len(),
        a.run(steps_a).refined_filter_output_last_selected == b.run(
            steps_b,
        ).refined_filter_output_last_selected,
{
    lemma_linear_outputs_so_far(a, steps_a);
    lemma_linear_outputs_so_far(b, steps_b);
    let filters = a.filter_outputs(steps_a);
    lemma_linear_outputs_alike(a, b, filters);
}

/// What decides on the linear outputs.
proof fn lemma_linear_outputs_alike(
    a: RemoverState,
    b: RemoverState,
    filters: Seq<Seq<SubtractorState>>,
)
    requires
        a.num_capture_channels == b.num_capture_channels,
        a.use_coarse_filter_output == b.use_coarse_filter_output,
        a.refined_filter_output_last_selected == b.refined_filter_output_last_selected,
    ensures
        a.linear_outputs(filters) == b.linear_outputs(filters),
        a.selection_after(filters) == b.selection_after(filters),
{
    assert forall|i: int| 0 <= i < filters.len() implies a.linear_outputs(filters)[i]
        == b.linear_outputs(filters)[i] by {
        assert(a.linear_outputs(filters)[i] =~= b.linear_outputs(filters)[i]);
    }
    assert(a.linear_outputs(filters) =~= b.linear_outputs(filters));
}

/// For one block: from two states that agree on the filter outputs, the last
/// selection and the setting of the coarse filter, the same linear filter output
/// is formed and the same filter is selected.
pub proof fn lemma_linear_output_is_local(a: RemoverState, b: RemoverState)
    requires
        a.num_capture_channels == b.num_capture_channels,
        a.use_coarse_filter_output == b.use_coarse_filter_output,
        a.refined_filter_output_last_selected == b.refined_filter_output_last_selected,
        a.scratch.subtractor_output == b.scratch.subtractor_output,
    ensures
        a.with_linear_output().scratch.e == b.with_linear_output().scratch.e,
        a.with_linear_output().refined_filter_output_last_selected
            == b.with_linear_output().refined_filter_output_last_selected,
{
    assert(a.with_linear_output().scratch.e =~= b.with_linear_output().scratch.e);
}

/// What a block that was started with the output unused is never asked to do.
proof fn lemma_unused_so_far(started: RemoverState, steps: Seq<RemoverStep>)
    requires
        started.call.phase is Saturation,
        !started.call.output_used,
        started.allows_run(steps),
        forall|i: int| 0 <= i < steps.len() ==> !(#[trigger] steps[i] is Start),
    ensures
        ({
            let at = started.run(steps);
            &&& !at.call.output_used
            &&& !(at.call.phase is ResidualEcho)
            &&& !(at.call.phase is Gain)
            &&& !(at.call.phase is Filtering)
        }),
    decreases steps.len(),
{
    if steps.len() > 0 {
        let earlier = steps.drop_last();
        assert forall|i: int| 0 <= i < earlier.len() implies !(#[trigger] earlier[i] is Start) by {
            assert(earlier[i] == steps[i]);
        }
        lemma_unused_so_far(started, earlier);
        assert(!(steps[steps.len() - 1] is Start));
    }
}

/// A block that starts while the output is not used leaves the capture signal
/// alone: whatever happens until the next block, the driver is never asked to
/// apply a gain, nor to compute one or to estimate the residual echo for it.
pub proof fn lemma_unused_output_is_left_alone(
    state: RemoverState,
    variability: EchoPathVariability,
    saturated: bool,
    linear_output: bool,
    steps: Seq<RemoverStep>,
)
    requires
        !state.capture_output_used,
        state.started(variability, saturated, linear_output).allows_run(steps),
        forall|i: int| 0 <= i < steps.len() ==> !(#[trigger] steps[i] is Start),
    ensures
        ({
            let action = state.started(variability, saturated, linear_output).run(
                steps,
            ).request();
            &&& !(action is ApplyGain)
            &&& !(action is ComputeGain)
            &&& !(action is EstimateResidualEcho)
        }),
{
    lemma_unused_so_far(state.started(variability, saturated, linear_output), steps);
}

impl RemoverState {
    /// What was asked and done in a run, in order.
    pub open spec fn asked(self, steps: Seq<RemoverStep>) -> Seq<RemoverAction>
        decreases steps.len(),
    {
        if steps.len() == 0 {
            seq![]
        } else if steps.last() is Resume {
            self.asked(steps.drop_last()).push(self.run(steps.drop_last()).request())
        } else {
            self.asked(steps.drop_last())
        }
    }
}

/// What decides on the steps of a block.
struct BlockScript {
    saturated: bool,
    told: EchoPathVariability,
    changed: bool,
    adjusted: bool,
    triggered: bool,
    linear_output: bool,
    used: bool,
    use_linear_filter_output: bool,
    usable_linear_estimate: bool,
    clock_drift: bool,
}

/// What is left to be asked of a block from a phase on.
#[verifier::opaque]
spec fn remaining(script: BlockScript, phase: RemoverPhase) -> Seq<RemoverAction> {
    let nearend = if script.usable_linear_estimate {
        NearendSpectrum::LinearOutput
    } else {
        NearendSpectrum::Capture
    };
    let ending = seq![RemoverAction::UpdateMetrics];
    let filtering = seq![
        RemoverAction::ApplyGain {
            spectra: if script.use_linear_filter_output {
                FilteredSpectra::LinearOutput
            } else {
                FilteredSpectra::Capture
            },
        },
    ] + ending;
    let gain = seq![
        RemoverAction::ComputeGain {
            nearend,
            echo: if script.usable_linear_estimate {
                EchoSpectrum::Linear
            } else {
                EchoSpectrum::Residual
            },
            clock_drift: script.clock_drift,
        },
    ] + filtering;
    let noise = seq![RemoverAction::ComputeComfortNoise { nearend }] + if script.used {
        gain
    } else {
        ending
    };
    let residual = seq![RemoverAction::EstimateResidualEcho] + noise;
    let update = seq![RemoverAction::UpdateState] + if script.used {
        residual
    } else {
        noise
    };
    let linear = seq![RemoverAction::ReturnLinearOutput] + update;
    let transform = seq![RemoverAction::Transform] + if script.linear_output {
        linear
    } else {
        update
    };
    let subtraction = seq![RemoverAction::Subtract] + transform;
    let exit = seq![RemoverAction::ExitInitialState] + subtraction;
    let check = seq![RemoverAction::CheckTransition] + if script.triggered {
        exit
    } else {
        subtraction
    };
    let render = seq![RemoverAction::AnalyzeRender] + check;
    let reset = seq![RemoverAction::EnterInitialState] + render;
    let change = seq![
        RemoverAction::HandleEchoPathChange { variability: script.told },
    ] + if script.adjusted {
        reset
    } else {
        render
    };
    match phase {
        RemoverPhase::Idle => seq![],
        RemoverPhase::Saturation => seq![
            RemoverAction::UpdateCaptureSaturation { saturated: script.saturated },
        ] + if script.changed {
            change
        } else {
            render
        },
        RemoverPhase::PathChange => change,
        RemoverPhase::SuppressorReset => reset,
        RemoverPhase::RenderAnalysis => render,
        RemoverPhase::TransitionCheck => check,
        RemoverPhase::TransitionExit => exit,
        RemoverPhase::Subtraction => subtraction,
        RemoverPhase::Transform => transform,
        RemoverPhase::LinearOutput => linear,
        RemoverPhase::StateUpdate => update,
        RemoverPhase::ResidualEcho => residual,
        RemoverPhase::ComfortNoise => noise,
        RemoverPhase::Gain => gain,
        RemoverPhase::Filtering => filtering,
        RemoverPhase::Metrics => ending,
    }
}

/// Whether a block follows a script.
#[verifier::opaque]
spec fn follows(state: RemoverState, script: BlockScript) -> bool {
    &&& state.call.saturated == script.saturated
    &&& state.call.variability == script.told
    &&& state.call.path_changed == script.changed
    &&& (state.call.variability.delay_change != DelayAdjustment::Unchanged) == script.adjusted
    &&& state.call.linear_output == script.linear_output
    &&& state.call.output_used == script.used
    &&& (state.has_clock_drift || state.call.variability.clock_drift) == script.clock_drift
    &&& script.adjusted ==> script.changed
    &&& 0 < steps_left(state.call.phase) < steps_left(RemoverPhase::StateUpdate) ==> {
        &&& state.call.use_linear_filter_output == script.use_linear_filter_output
        &&& state.call.usable_linear_estimate == script.usable_linear_estimate
    }
}

/// Whether what is reported is what a script says.
pub open spec fn reports_agree(
    event: RemoverEvent,
    triggered: bool,
    use_linear_filter_output: bool,
    usable_linear_estimate: bool,
) -> bool {
    match event {
        RemoverEvent::Done => true,
        RemoverEvent::Transition { triggered: t } => t == triggered,
        RemoverEvent::StateUpdated { use_linear_filter_output: u, usable_linear_estimate: v } => u
            == use_linear_filter_output && v == usable_linear_estimate,
    }
}

/// One report takes one action off what is left.
#[verifier::spinoff_prover]
proof fn lemma_script_step(
    state: RemoverState,
    script: BlockScript,
    capture: Seq<Seq<Sample>>,
    event: RemoverEvent,
)
    requires
        follows(state, script),
        state.call.answered_by(event),
        reports_agree(
            event,
            script.triggered,
            script.use_linear_filter_output,
            script.usable_linear_estimate,
        ),
    ensures
        follows(state.resumed(capture, event), script),
        remaining(script, state.call.phase) == seq![state.request()] + remaining(
            script,
            state.resumed(capture, event).call.phase,
        ),
{
    reveal(remaining);
    reveal(follows);
    if state.call.phase is Metrics {
        let left = remaining(script, RemoverPhase::Metrics);
        assert(left =~= seq![state.request()] + remaining(script, RemoverPhase::Idle));
    }
}

/// Between the reports nothing that decides on the steps changes.
proof fn lemma_script_is_kept(state: RemoverState, script: BlockScript, step: RemoverStep)
    requires
        follows(state, script),
        !(step is Start),
        !(step is Resume),
    ensures
        follows(state.stepped(step), script),
        state.stepped(step).call.phase == state.call.phase,
{
    reveal(follows);
}

/// What was asked so far and what is left make up the whole script.
#[verifier::spinoff_prover]
proof fn lemma_script_so_far(started: RemoverState, script: BlockScript, steps: Seq<RemoverStep>)
    requires
        started.call.phase is Saturation,
        follows(started, script),
        started.allows_run(steps),
        forall|i: int| 0 <= i < steps.len() ==> !(#[trigger] steps[i] is Start),
        forall|i: int|
            0 <= i < steps.len() ==> (#[trigger] steps[i] matches RemoverStep::Resume {
                event,
                ..
            } ==> reports_agree(
                event,
                script.triggered,
                script.use_linear_filter_output,
                script.usable_linear_estimate,
            )),
    ensures
        follows(started.run(steps), script),
        started.asked(steps) + remaining(script, started.run(steps).call.phase) == remaining(
            script,
            RemoverPhase::Saturation,
        ),
    decreases steps.len(),
{
    if steps.len() > 0 {
        let earlier = steps.drop_last();
        let before = started.run(earlier);
        assert(forall|i: int| 0 <= i < earlier.len() ==> earlier[i] == #[trigger] steps[i]);
        lemma_script_so_far(started, script, earlier);
        assert(!(steps[steps.len() - 1] is Start));
        match steps.last() {
            RemoverStep::Resume { capture, event } => {
                assert(steps[steps.len() - 1] is Resume);
                lemma_script_step(before, script, capture, event);
                let after = remaining(script, started.run(steps).call.phase);
                assert(started.asked(earlier) + (seq![before.request()] + after)
                    =~= started.asked(steps) + after);
            },
            step => {
                lemma_script_is_kept(before, script, step);
            },
        }
    } else {
        assert(started.asked(steps) + remaining(script, RemoverPhase::Saturation) =~= remaining(
            script,
            RemoverPhase::Saturation,
        ));
    }
}

/// What is asked of the driver for a block, from first to last, in terms of what
/// the block was started with and what was reported. The change of the echo path
/// is handled once for every change of the gain and every adjustment of the delay,
/// the suppressor goes back to its initial state for every adjustment of the
/// delay, and the output is suppressed where it is used.
pub proof fn lemma_steps_of_a_block(
    state: RemoverState,
    variability: EchoPathVariability,
    saturated: bool,
    linear_output: bool,
    steps: Seq<RemoverStep>,
    triggered: bool,
    use_linear_filter_output: bool,
    usable_linear_estimate: bool,
)
    requires
        state.started(variability, saturated, linear_output).allows_run(steps),
        state.started(variability, saturated, linear_output).run(steps).request()
            == RemoverAction::Finish,
        forall|i: int| 0 <= i < steps.len() ==> !(#[trigger] steps[i] is Start),
        forall|i: int|
            0 <= i < steps.len() ==> (#[trigger] steps[i] matches RemoverStep::Resume {
                event,
                ..
            } ==> reports_agree(
                event,
                triggered,
                use_linear_filter_output,
                usable_linear_estimate,
            )),
    ensures
        ({
            let adjusted = variability.delay_change != DelayAdjustment::Unchanged;
            let changed = variability.gain_change || adjusted;
            let told = EchoPathVariability {
                gain_change: variability.gain_change && state.gain_change_hangover == 0,
                delay_change: variability.delay_change,
                clock_drift: variability.clock_drift,
            };
            let nearend = if usable_linear_estimate {
                NearendSpectrum::LinearOutput
            } else {
                NearendSpectrum::Capture
            };
            let ending = seq![RemoverAction::UpdateMetrics];
            let filtering = seq![
                RemoverAction::ApplyGain {
                    spectra: if use_linear_filter_output {
                        FilteredSpectra::LinearOutput
                    } else {
                        FilteredSpectra::Capture
                    },
                },
            ] + ending;
            let gain = seq![
                RemoverAction::ComputeGain {
                    nearend,
                    echo: if usable_linear_estimate {
                        EchoSpectrum::Linear
                    } else {
                        EchoSpectrum::Residual
                    },
                    clock_drift: state.has_clock_drift || variability.clock_drift,
                },
            ] + filtering;
            let noise = seq![
                RemoverAction::ComputeComfortNoise { nearend },
            ] + if state.capture_output_used {
                gain
            } else {
                ending
            };
            let residual = seq![RemoverAction::EstimateResidualEcho] + noise;
            let update = seq![RemoverAction::UpdateState] + if state.capture_output_used {
                residual
            } else {
                noise
            };
            let linear = seq![RemoverAction::ReturnLinearOutput] + update;
            let transform = seq![RemoverAction::Transform] + if linear_output {
                linear
            } else {
                update
            };
            let subtraction = seq![RemoverAction::Subtract] + transform;
            let exit = seq![RemoverAction::ExitInitialState] + subtraction;
            let check = seq![RemoverAction::CheckTransition] + if triggered {
                exit
            } else {
                subtraction
            };
            let render = seq![RemoverAction::AnalyzeRender] + check;
            let reset = seq![RemoverAction::EnterInitialState] + render;
            let change = seq![
                RemoverAction::HandleEchoPathChange { variability: told },
            ] + if adjusted {
                reset
            } else {
                render
            };
            state.started(variability, saturated, linear_output).asked(steps) == seq![
                RemoverAction::UpdateCaptureSaturation { saturated },
            ] + if changed {
                change
            } else {
                render
            }
        }),
{
    let started = state.started(variability, saturated, linear_output);
    let script = BlockScript {
        saturated,
        told: started.call.variability,
        changed: variability.gain_change || variability.delay_change != DelayAdjustment::Unchanged,
        adjusted: variability.delay_change != DelayAdjustment::Unchanged,
        triggered,
        linear_output,
        used: state.capture_output_used,
        use_linear_filter_output,
        usable_linear_estimate,
        clock_drift: state.has_clock_drift || variability.clock_drift,
    };
    assert(follows(started, script)) by {
        reveal(follows);
    }
    lemma_script_so_far(started, script, steps);
    reveal(remaining);
    assert(started.asked(steps) + seq![] =~= started.asked(steps));
}

/// How often a block handles a change of the echo path and puts the suppressor
/// into its initial state: once where the gain changed or the delay was adjusted,
/// and once where the delay was adjusted, by a flush or by a new delay alike;
/// otherwise not at all.
pub proof fn lemma_path_change_is_handled_once(
    state: RemoverState,
    variability: EchoPathVariability,
    saturated: bool,
    linear_output: bool,
    events: Seq<RemoverEvent>,
)
    requires
        all_answered(state.started(variability, saturated, linear_output).call, events),
        call_after(state.started(variability, saturated, linear_output).call, events).phase
            is Idle,
    ensures
        ({
            let call = state.started(variability, saturated, linear_output).call;
            let adjusted = variability.delay_change == DelayAdjustment::BufferFlush
                || variability.delay_change == DelayAdjustment::NewDetectedDelay;
            &&& times_answered(call, events, RemoverPhase::PathChange) == (if adjusted
                || variability.gain_change {
                1int
            } else {
                0
            })
            &&& times_answered(call, events, RemoverPhase::SuppressorReset) == (if adjusted {
                1int
            } else {
                0
            })
        }),
{
    let call = state.started(variability, saturated, linear_output).call;
    lemma_block_is_complete(call, events, RemoverPhase::PathChange);
    lemma_block_is_complete(call, events, RemoverPhase::SuppressorReset);
}

/// What the start of a block sets and what it keeps. A gain change is acted on
/// where no earlier one is less than three blocks ago.
pub proof fn lemma_start_of_a_block(
    state: RemoverState,
    variability: EchoPathVariability,
    saturated: bool,
    linear_output: bool,
)
    requires
        state.wf(),
        state.block_counter < usize::MAX,
    ensures
        ({
            let started = state.started(variability, saturated, linear_output);
            &&& started.block_counter == state.block_counter + 1
            &&& started.call.variability.gain_change == (variability.gain_change
                && state.gain_change_hangover == 0)
            &&& started.call.variability.delay_change == variability.delay_change
            &&& started.call.variability.clock_drift == variability.clock_drift
            &&& started.gain_change_hangover == (if variability.gain_change
                && state.gain_change_hangover == 0 {
                2
            } else if state.gain_change_hangover > 0 {
                state.gain_change_hangover - 1
            } else {
                0
            })
            &&& started.gain.len() == 65
            &&& forall|k: int| 0 <= k < 65 ==> (#[trigger] started.gain[k]).bits == 0
            &&& started.scratch == ScratchState::silent(state.num_capture_channels as int)
            &&& started.request() == (RemoverAction::UpdateCaptureSaturation { saturated })
            &&& started.e_old == state.e_old
            &&& started.y_old == state.y_old
            &&& started.refined_filter_output_last_selected
                == state.refined_filter_output_last_selected
            &&& started.capture_output_used == state.capture_output_used
            &&& started.echo_leakage_detected == state.echo_leakage_detected
            &&& started.use_coarse_filter_output == state.use_coarse_filter_output
            &&& started.has_clock_drift == state.has_clock_drift
            &&& started.num_capture_channels == state.num_capture_channels
        }),
{
}

/// What a new remover is: nothing is processed, everything is zero, the refined
/// filter is selected and the output is used.
pub proof fn lemma_new_remover(
    config: RemoverConfig,
    sample_rate_hz: usize,
    num_render_channels: usize,
    num_capture_channels: usize,
)
    ensures
        ({
            let new = RemoverState::fresh(
                config,
                sample_rate_hz,
                num_render_channels,
                num_capture_channels,
            );
            &&& new.sample_rate_hz == sample_rate_hz
            &&& new.num_render_channels == num_render_channels
            &&& new.num_capture_channels == num_capture_channels
            &&& new.use_coarse_filter_output == config.enable_coarse_filter_output_usage
            &&& new.has_clock_drift == config.has_clock_drift
            &&& !new.echo_leakage_detected
            &&& new.capture_output_used
            &&& new.block_counter == 0
            &&& new.gain_change_hangover == 0
            &&& new.refined_filter_output_last_selected
            &&& new.request() == RemoverAction::Finish
            &&& new.scratch == ScratchState::silent(num_capture_channels as int)
            &&& forall|c: int, k: int|
                #![trigger new.e_old[c][k]]
                0 <= c < num_capture_channels && 0 <= k < 64 ==> new.e_old[c].len() == 64
                    && new.e_old[c][k].bits == 0
            &&& forall|c: int, k: int|
                #![trigger new.y_old[c][k]]
                0 <= c < num_capture_channels && 0 <= k < 64 ==> new.y_old[c].len() == 64
                    && new.y_old[c][k].bits == 0
            &&& forall|k: int| 0 <= k < 65 ==> (#[trigger] new.gain[k]).bits == 0
        }),
{
}

/// The filter is chosen once for all channels: where the coarse filter may be
/// used, a channel at any position that favors the refined filter has it selected
/// for every channel, whose outputs then end in their refined errors; where no
/// channel favors it, all end in their coarse errors. Where the coarse filter may
/// not be used, the refined one is selected.
pub proof fn lemma_one_channel_decides_for_all(
    state: RemoverState,
    capture: Seq<Seq<Sample>>,
    event: RemoverEvent,
)
    requires
        state.wf(),
        state.call.phase is Subtraction,
    ensures
        ({
            let outputs = state.scratch.subtractor_output;
            let after = state.resumed(capture, event);
            let n = state.num_capture_channels as int;
            &&& after.scratch.e.len() == n
            &&& forall|c: int|
                0 <= c < n && (#[trigger] outputs[c]).prefers_refined()
                    ==> after.refined_filter_output_last_selected
            &&& !state.use_coarse_filter_output ==> after.refined_filter_output_last_selected
            &&& state.use_coarse_filter_output && (forall|c: int|
                0 <= c < n ==> !(#[trigger] outputs[c]).prefers_refined())
                ==> !after.refined_filter_output_last_selected
            &&& forall|c: int, k: int|
                #![trigger after.scratch.e[c][k]]
                0 <= c < n && 0 <= k < 64 && (k >= 30 || after.refined_filter_output_last_selected
                    == state.refined_filter_output_last_selected) ==> after.scratch.e[c][k]
                    == if after.refined_filter_output_last_selected {
                    outputs[c].e_refined[k]
                } else {
                    outputs[c].e_coarse[k]
                }
            &&& forall|c: int|
                0 <= c < n && after.refined_filter_output_last_selected
                    != state.refined_filter_output_last_selected ==> #[trigger] after.scratch.e[c]
                    == crossfaded(
                    if state.refined_filter_output_last_selected {
                        outputs[c].e_refined
                    } else {
                        outputs[c].e_coarse
                    },
                    if state.refined_filter_output_last_selected {
                        outputs[c].e_coarse
                    } else {
                        outputs[c].e_refined
                    },
                )
        }),
{
    let outputs = state.scratch.subtractor_output;
    let after = state.resumed(capture, event);
    let last = state.refined_filter_output_last_selected;
    let refined = state.uses_refined();
    assert forall|c: int, k: int|
        #![trigger after.scratch.e[c][k]]
        0 <= c < state.num_capture_channels && 0 <= k < 64 && (k >= 30
            || after.refined_filter_output_last_selected == last) implies after.scratch.e[c][k]
        == if after.refined_filter_output_last_selected {
        outputs[c].e_refined[k]
    } else {
        outputs[c].e_coarse[k]
    } by {
        assert(outputs[c].wf());
        lemma_linear_output_by_sample(outputs[c], last, refined, k);
    }
    assert forall|c: int|
        0 <= c < state.num_capture_channels && refined != last implies #[trigger] after.scratch.e[c]
        == crossfaded(
        if last {
            outputs[c].e_refined
        } else {
            outputs[c].e_coarse
        },
        if last {
            outputs[c].e_coarse
        } else {
            outputs[c].e_refined
        },
    ) by {
        assert(outputs[c].wf());
        lemma_linear_output_by_sample(outputs[c], last, refined, 0);
    }
}

/// The order of the channels does not matter for the choice of the filter.
pub proof fn lemma_choice_ignores_channel_order(
    use_coarse_filter_output: bool,
    a: Seq<SubtractorState>,
    b: Seq<SubtractorState>,
)
    requires
        forall|c: int|
            0 <= c < a.len() ==> exists|d: int|
                0 <= d < b.len() && #[trigger] b[d] == #[trigger] a[c],
        forall|d: int|
            0 <= d < b.len() ==> exists|c: int|
                0 <= c < a.len() && #[trigger] a[c] == #[trigger] b[d],
    ensures
        chooses_refined(use_coarse_filter_output, a, a.len() as int) == chooses_refined(
            use_coarse_filter_output,
            b,
            b.len() as int,
        ),
{
}

/// After the transforms, every channel has its own linear echo power in every bin,
/// the blocks that were transformed are remembered for every channel, and all else
/// stays.
pub proof fn lemma_after_the_transforms(
    state: RemoverState,
    capture: Seq<Seq<Sample>>,
    event: RemoverEvent,
)
    requires
        state.wf(),
        state.call.phase is Transform,
        planes_shaped(capture, state.num_capture_channels as int, BLOCK_SIZE as int),
    ensures
        ({
            let after = state.resumed(capture, event);
            let scratch = state.scratch;
            &&& forall|c: int, k: int|
                #![trigger after.y_old[c][k]]
                0 <= c < state.num_capture_channels && 0 <= k < 64 ==> after.y_old[c][k]
                    == capture[c][k]
            &&& forall|c: int, k: int|
                #![trigger after.e_old[c][k]]
                0 <= c < state.num_capture_channels && 0 <= k < 64 ==> after.e_old[c][k]
                    == scratch.e[c][k]
            &&& forall|c: int, k: int|
                #![trigger after.scratch.s2_linear[c][k]]
                0 <= c < state.num_capture_channels && 0 <= k < 65 ==> ({
                    let re = difference(scratch.y_fft[c].re[k], scratch.e_fft[c].re[k]);
                    let im = difference(scratch.y_fft[c].im[k], scratch.e_fft[c].im[k]);
                    after.scratch.s2_linear[c][k] == sum(product(re, re), product(im, im))
                })
            &&& after == (RemoverState {
                y_old: after.y_old,
                e_old: after.e_old,
                scratch: ScratchState { s2_linear: after.scratch.s2_linear, ..scratch },
                call: after.call,
                ..state
            })
        }),
{
}

/// After the residual echo is estimated, the near-end power of every bin of every
/// channel is the lower of its own and that of the capture signal where the linear
/// estimate is usable, and stays otherwise; all else stays.
pub proof fn lemma_after_the_residual_echo(
    state: RemoverState,
    capture: Seq<Seq<Sample>>,
    event: RemoverEvent,
)
    requires
        state.wf(),
        state.call.phase is ResidualEcho,
    ensures
        ({
            let after = state.resumed(capture, event);
            let e2 = state.scratch.e2;
            let y2 = state.scratch.y2;
            &&& after == (RemoverState {
                scratch: ScratchState { e2: after.scratch.e2, ..state.scratch },
                call: after.call,
                ..state
            })
            &&& !state.call.usable_linear_estimate ==> after.scratch.e2 == e2
            &&& state.call.usable_linear_estimate ==> forall|c: int, k: int|
                #![trigger after.scratch.e2[c][k]]
                0 <= c < state.num_capture_channels && 0 <= k < 65 ==> {
                    &&& is_less(y2[c][k], e2[c][k]) ==> after.scratch.e2[c][k] == y2[c][k]
                    &&& is_less(e2[c][k], y2[c][k]) ==> after.scratch.e2[c][k] == e2[c][k]
                    &&& e2[c][k].is_nan() ==> after.scratch.e2[c][k] == y2[c][k]
                    &&& !e2[c][k].is_nan() && y2[c][k].is_nan() ==> after.scratch.e2[c][k]
                        == e2[c][k]
                    &&& after.scratch.e2[c][k] == e2[c][k] || after.scratch.e2[c][k] == y2[c][k]
                }
        }),
{
    assert forall|c: int| 0 <= c < state.num_capture_channels implies (
    #[trigger] state.scratch.e2[c]).len() == 65 by {
    }
}

/// The other steps leave what the remover holds as it is, but for the gain, which
/// is zero after the comfort noise where the output is not used.
pub proof fn lemma_after_the_other_steps(
    state: RemoverState,
    capture: Seq<Seq<Sample>>,
    event: RemoverEvent,
)
    requires
        !(state.call.phase is Subtraction),
        !(state.call.phase is Transform),
        !(state.call.phase is ResidualEcho),
    ensures
        ({
            let after = state.resumed(capture, event);
            &&& after == (RemoverState { gain: after.gain, call: after.call, ..state })
            &&& !(state.call.phase is ComfortNoise) || state.call.output_used ==> after.gain
                == state.gain
            &&& state.call.phase is ComfortNoise && !state.call.output_used ==> after.gain.len()
                == 65 && forall|k: int| 0 <= k < 65 ==> (#[trigger] after.gain[k]).bits == 0
        }),
{
}

/// Which reports answer which requests: the answer to a check of the transition
/// says whether it was triggered, the one to an update of the state says what the
/// filters are good for, and all others say that it is done. Nothing answers when
/// nothing is asked.
pub proof fn lemma_reports_that_answer(state: RemoverState, event: RemoverEvent)
    ensures
        state.request() == RemoverAction::Finish ==> !state.call.answered_by(event),
        state.request() == RemoverAction::CheckTransition ==> (state.call.answered_by(event)
            <==> event is Transition),
        state.request() == RemoverAction::UpdateState ==> (state.call.answered_by(event)
            <==> event is StateUpdated),
        state.request() != RemoverAction::Finish && state.request()
            != RemoverAction::CheckTransition && state.request() != RemoverAction::UpdateState ==> (
        state.call.answered_by(event) <==> event is Done),
{
}

} // verus!
