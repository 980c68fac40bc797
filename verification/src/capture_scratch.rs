//! Working buffers for one block of the capture signal.
use crate::common::{FFT_LENGTH_BY_2, FFT_LENGTH_BY_2_PLUS_1};
use crate::fft_data::{silent_spectra, spectra_of, spectra_shaped, FftData, FftState};
use crate::planes::{clear_plane, clear_planes, new_planes, planes_of, planes_shaped, silent_planes};
use crate::sample::Sample;
use crate::subtractor_output::{
    outputs_of, outputs_shaped, silent_outputs, SubtractorOutput, SubtractorState,
};
use vstd::prelude::*;

verus! {

/// Per-channel working buffers, allocated once.
pub struct CaptureScratch {
    /// Linear filter output.
    pub e: Vec<Vec<Sample>>,
    /// Power spectra of the capture signal and of the linear filter output.
    pub y2: Vec<Vec<Sample>>,
    pub e2: Vec<Vec<Sample>>,
    /// Power spectra of the residual echo.
    pub r2: Vec<Vec<Sample>>,
    pub r2_unbounded: Vec<Vec<Sample>>,
    /// Linear echo power.
    pub s2_linear: Vec<Vec<Sample>>,
    /// Spectra of the capture signal and of the linear filter output.
    pub y_fft: Vec<FftData>,
    pub e_fft: Vec<FftData>,
    pub comfort_noise: Vec<FftData>,
    pub high_band_comfort_noise: Vec<FftData>,
    pub subtractor_output: Vec<SubtractorOutput>,
}

/// What the working buffers hold.
#[verifier::ext_equal]
pub struct ScratchState {
    pub e: Seq<Seq<Sample>>,
    pub y2: Seq<Seq<Sample>>,
    pub e2: Seq<Seq<Sample>>,
    pub r2: Seq<Seq<Sample>>,
    pub r2_unbounded: Seq<Seq<Sample>>,
    pub s2_linear: Seq<Seq<Sample>>,
    pub y_fft: Seq<FftState>,
    pub e_fft: Seq<FftState>,
    pub comfort_noise: Seq<FftState>,
    pub high_band_comfort_noise: Seq<FftState>,
    pub subtractor_output: Seq<SubtractorState>,
}

/// Whether there is a power spectrum for each channel.
pub open spec fn powers_shaped(p: Seq<Seq<Sample>>, num_channels: int) -> bool {
    planes_shaped(p, num_channels, FFT_LENGTH_BY_2_PLUS_1 as int)
}

impl ScratchState {
    pub open spec fn wf(self, num_channels: int) -> bool {
        &&& planes_shaped(self.e, num_channels, FFT_LENGTH_BY_2 as int)
        &&& powers_shaped(self.y2, num_channels)
        &&& powers_shaped(self.e2, num_channels)
        &&& powers_shaped(self.r2, num_channels)
        &&& powers_shaped(self.r2_unbounded, num_channels)
        &&& powers_shaped(self.s2_linear, num_channels)
        &&& spectra_shaped(self.y_fft, num_channels)
        &&& spectra_shaped(self.e_fft, num_channels)
        &&& spectra_shaped(self.comfort_noise, num_channels)
        &&& spectra_shaped(self.high_band_comfort_noise, num_channels)
        &&& outputs_shaped(self.subtractor_output, num_channels)
    }

    /// Buffers that are zero.
    pub open spec fn silent(num_channels: int) -> ScratchState {
        let powers = silent_planes(num_channels, FFT_LENGTH_BY_2_PLUS_1 as int);
        let spectra = silent_spectra(num_channels);
        ScratchState {
            e: silent_planes(num_channels, FFT_LENGTH_BY_2 as int),
            y2: powers,
            e2: powers,
            r2: powers,
            r2_unbounded: powers,
            s2_linear: powers,
            y_fft: spectra,
            e_fft: spectra,
            comfort_noise: spectra,
            high_band_comfort_noise: spectra,
            subtractor_output: silent_outputs(num_channels),
        }
    }
}

impl View for CaptureScratch {
    type V = ScratchState;

    open spec fn view(&self) -> ScratchState {
        ScratchState {
            e: planes_of(self.e@),
            y2: planes_of(self.y2@),
            e2: planes_of(self.e2@),
            r2: planes_of(self.r2@),
            r2_unbounded: planes_of(self.r2_unbounded@),
            s2_linear: planes_of(self.s2_linear@),
            y_fft: spectra_of(self.y_fft@),
            e_fft: spectra_of(self.e_fft@),
            comfort_noise: spectra_of(self.comfort_noise@),
            high_band_comfort_noise: spectra_of(self.high_band_comfort_noise@),
            subtractor_output: outputs_of(self.subtractor_output@),
        }
    }
}

/// Makes a list of spectra that are zero.
fn new_spectra(count: usize) -> (v: Vec<FftData>)
    ensures
        spectra_of(v@) == silent_spectra(count as int),
{
    let mut v: Vec<FftData> = Vec::with_capacity(count);
    for i in 0..count
        invariant
            spectra_of(v@) == silent_spectra(i as int),
    {
        let ghost before = v@;
        v.push(FftData::new());
        assert(spectra_of(v@) =~= spectra_of(before).push(FftState::zero()));
        assert(spectra_of(v@) =~= silent_spectra(i + 1));
    }
    v
}

/// Makes a list of filter outputs that are zero.
fn new_outputs(count: usize) -> (v: Vec<SubtractorOutput>)
    ensures
        outputs_of(v@) == silent_outputs(count as int),
{
    let mut v: Vec<SubtractorOutput> = Vec::with_capacity(count);
    for i in 0..count
        invariant
            outputs_of(v@) == silent_outputs(i as int),
    {
        let ghost before = v@;
        v.push(SubtractorOutput::new());
        assert(outputs_of(v@) =~= outputs_of(before).push(SubtractorState::zero()));
        assert(outputs_of(v@) =~= silent_outputs(i + 1));
    }
    v
}

/// Sets power spectra to zero in place.
fn clear_powers(powers: &mut Vec<Vec<Sample>>, num_channels: usize)
    requires
        powers_shaped(planes_of(old(powers)@), num_channels as int),
    ensures
        planes_of(final(powers)@) == silent_planes(
            num_channels as int,
            FFT_LENGTH_BY_2_PLUS_1 as int,
        ),
{
    clear_planes(powers);
    assert(planes_of(powers@) =~= silent_planes(
        num_channels as int,
        FFT_LENGTH_BY_2_PLUS_1 as int,
    ));
}

/// Sets spectra to zero in place.
fn clear_spectra(spectra: &mut Vec<FftData>, num_channels: usize)
    requires
        spectra_shaped(spectra_of(old(spectra)@), num_channels as int),
    ensures
        spectra_of(final(spectra)@) == silent_spectra(num_channels as int),
{
    let ghost before = spectra_of(spectra@);
    for i in 0..num_channels
        invariant
            spectra@.len() == num_channels == before.len(),
            spectra_shaped(before, num_channels as int),
            forall|k: int|
                0 <= k < num_channels ==> #[trigger] spectra@[k]@ == if k < i {
                    FftState::zero()
                } else {
                    before[k]
                },
    {
        assert(before[i as int].wf());
        assert(spectra@[i as int]@ == before[i as int]);
        clear_plane(&mut spectra[i].re);
        clear_plane(&mut spectra[i].im);
    }
    assert(spectra_of(spectra@) =~= silent_spectra(num_channels as int));
}

/// Sets filter outputs to zero in place.
fn clear_outputs(outputs: &mut Vec<SubtractorOutput>, num_channels: usize)
    requires
        outputs_shaped(outputs_of(old(outputs)@), num_channels as int),
    ensures
        outputs_of(final(outputs)@) == silent_outputs(num_channels as int),
{
    let ghost before = outputs_of(outputs@);
    for i in 0..num_channels
        invariant
            outputs@.len() == num_channels == before.len(),
            outputs_shaped(before, num_channels as int),
            forall|k: int|
                0 <= k < num_channels ==> #[trigger] outputs@[k]@ == if k < i {
                    SubtractorState::zero()
                } else {
                    before[k]
                },
    {
        assert(before[i as int].wf());
        assert(outputs@[i as int]@ == before[i as int]);
        clear_plane(&mut outputs[i].e_refined);
        clear_plane(&mut outputs[i].e_coarse);
        outputs[i].e2_refined_sum = Sample::zero();
        outputs[i].e2_coarse_sum = Sample::zero();
        outputs[i].y2 = Sample::zero();
        outputs[i].s2_refined = Sample::zero();
        outputs[i].s2_coarse = Sample::zero();
    }
    assert(outputs_of(outputs@) =~= silent_outputs(num_channels as int));
}

impl CaptureScratch {
    /// Makes buffers that are zero.
    pub fn new(num_capture_channels: usize) -> (scratch: CaptureScratch)
        ensures
            scratch@.wf(num_capture_channels as int),
            scratch@ == ScratchState::silent(num_capture_channels as int),
    {
        CaptureScratch {
            e: new_planes(num_capture_channels, FFT_LENGTH_BY_2),
            y2: new_planes(num_capture_channels, FFT_LENGTH_BY_2_PLUS_1),
            e2: new_planes(num_capture_channels, FFT_LENGTH_BY_2_PLUS_1),
            r2: new_planes(num_capture_channels, FFT_LENGTH_BY_2_PLUS_1),
            r2_unbounded: new_planes(num_capture_channels, FFT_LENGTH_BY_2_PLUS_1),
            s2_linear: new_planes(num_capture_channels, FFT_LENGTH_BY_2_PLUS_1),
            y_fft: new_spectra(num_capture_channels),
            e_fft: new_spectra(num_capture_channels),
            comfort_noise: new_spectra(num_capture_channels),
            high_band_comfort_noise: new_spectra(num_capture_channels),
            subtractor_output: new_outputs(num_capture_channels),
        }
    }

    /// Resets every buffer to the state that `new` creates, in place.
    pub fn reset(&mut self)
        requires
            old(self)@.wf(old(self)@.e.len() as int),
        ensures
            final(self)@.wf(old(self)@.e.len() as int),
            final(self)@ == ScratchState::silent(old(self)@.e.len() as int),
    {
        let num_channels: usize = self.e.len();
        clear_planes(&mut self.e);
        assert(self@.e =~= silent_planes(num_channels as int, FFT_LENGTH_BY_2 as int));
        clear_powers(&mut self.y2, num_channels);
        clear_powers(&mut self.e2, num_channels);
        clear_powers(&mut self.r2, num_channels);
        clear_powers(&mut self.r2_unbounded, num_channels);
        clear_powers(&mut self.s2_linear, num_channels);
        clear_spectra(&mut self.y_fft, num_channels);
        clear_spectra(&mut self.e_fft, num_channels);
        clear_spectra(&mut self.comfort_noise, num_channels);
        clear_spectra(&mut self.high_band_comfort_noise, num_channels);
        clear_outputs(&mut self.subtractor_output, num_channels);
    }
}

/// New and reset buffers are zero throughout: every sample of every channel of
/// every buffer.
pub proof fn lemma_silent_buffers_are_zero(num_channels: int, c: int)
    requires
        0 <= c < num_channels,
    ensures
        ({
            let silent = ScratchState::silent(num_channels);
            &&& silent.wf(num_channels)
            &&& forall|k: int| 0 <= k < 64 ==> (#[trigger] silent.e[c][k]).bits == 0
            &&& forall|k: int| 0 <= k < 65 ==> (#[trigger] silent.y2[c][k]).bits == 0
            &&& forall|k: int| 0 <= k < 65 ==> (#[trigger] silent.e2[c][k]).bits == 0
            &&& forall|k: int| 0 <= k < 65 ==> (#[trigger] silent.r2[c][k]).bits == 0
            &&& forall|k: int| 0 <= k < 65 ==> (#[trigger] silent.r2_unbounded[c][k]).bits == 0
            &&& forall|k: int| 0 <= k < 65 ==> (#[trigger] silent.s2_linear[c][k]).bits == 0
            &&& forall|k: int| 0 <= k < 65 ==> (#[trigger] silent.y_fft[c].re[k]).bits == 0
            &&& forall|k: int| 0 <= k < 65 ==> (#[trigger] silent.y_fft[c].im[k]).bits == 0
            &&& forall|k: int| 0 <= k < 65 ==> (#[trigger] silent.e_fft[c].re[k]).bits == 0
            &&& forall|k: int| 0 <= k < 65 ==> (#[trigger] silent.e_fft[c].im[k]).bits == 0
            &&& forall|k: int| 0 <= k < 65 ==> (#[trigger] silent.comfort_noise[c].re[k]).bits == 0
            &&& forall|k: int| 0 <= k < 65 ==> (#[trigger] silent.comfort_noise[c].im[k]).bits == 0
            &&& forall|k: int|
                0 <= k < 65 ==> (#[trigger] silent.high_band_comfort_noise[c].re[k]).bits == 0
            &&& forall|k: int|
                0 <= k < 65 ==> (#[trigger] silent.high_band_comfort_noise[c].im[k]).bits == 0
            &&& forall|k: int|
                0 <= k < 64 ==> (#[trigger] silent.subtractor_output[c].e_refined[k]).bits == 0
            &&& forall|k: int|
                0 <= k < 64 ==> (#[trigger] silent.subtractor_output[c].e_coarse[k]).bits == 0
            &&& silent.subtractor_output[c].e2_refined_sum.bits == 0
            &&& silent.subtractor_output[c].e2_coarse_sum.bits == 0
            &&& silent.subtractor_output[c].y2.bits == 0
            &&& silent.subtractor_output[c].s2_refined.bits == 0
            &&& silent.subtractor_output[c].s2_coarse.bits == 0
        }),
{
}

} // verus!
