//! Audio buffer for the processing pipeline.
//!
//! Holds one 10 ms chunk per channel at the processing rate, takes input in and
//! hands output out in several formats, and holds the frequency bands.
//!
//! Where the rates differ, samples pass through a resampler on their way. The
//! buffer says what each resampler is fed, and takes what comes back.
use crate::conversion::{
    float_s16_to_float, float_s16_to_s16, float_to_float_s16, lemma_float_round_trip,
    lemma_s16_round_trip, scaled_down, scaled_up, to_s16,
};
use crate::planes::{
    copy_into_frame, copy_planes, copy_samples, frame_of, frame_shaped, group_plane_updates,
    lemma_frame_update, lemma_planes_update, new_frame, new_planes, overlaid, planes_of,
    planes_shaped, silent_frame, silent_plane, silent_planes, slices_of, spliced,
};
use crate::sample::{is_at_most, of_integer, product, quotient, sum, Sample};
use crate::stream_config::StreamConfig;
use vstd::prelude::*;

verus! {

/// Number of frequency bands that a chunk of `num_frames` frames is split into.
pub open spec fn bands_of_frames(num_frames: int) -> int {
    if num_frames == 320 {
        2
    } else if num_frames == 480 {
        3
    } else {
        1
    }
}

/// Number of frequency bands that a chunk of `num_frames` frames is split into.
pub fn num_bands_from_frames_per_channel(num_frames: usize) -> (n: usize)
    ensures
        n == bands_of_frames(num_frames as int),
{
    match num_frames {
        320 => 2,
        480 => 3,
        _ => 1,
    }
}

/// What an audio buffer holds.
#[verifier::ext_equal]
pub struct AudioState {
    pub input_num_frames: usize,
    pub input_num_channels: usize,
    pub buffer_num_frames: usize,
    pub buffer_num_channels: usize,
    pub output_num_frames: usize,
    /// Visible channels, at most `buffer_num_channels`.
    pub num_channels: usize,
    pub num_bands: usize,
    pub num_split_frames: usize,
    /// `channels[channel][frame]`, full band.
    pub channels: Seq<Seq<Sample>>,
    /// `split[channel][band][frame]`, where there is more than one band.
    pub split: Option<Seq<Seq<Seq<Sample>>>>,
    pub downmix_by_averaging: bool,
    pub channel_for_downmixing: usize,
}

impl AudioState {
    pub open spec fn wf(self) -> bool {
        &&& self.input_num_frames > 0
        &&& self.buffer_num_frames > 0
        &&& self.output_num_frames > 0
        &&& 0 < self.buffer_num_channels <= self.input_num_channels
        &&& self.num_channels <= self.buffer_num_channels
        &&& self.channel_for_downmixing < self.input_num_channels
        &&& self.num_bands == bands_of_frames(self.buffer_num_frames as int)
        &&& self.num_split_frames * self.num_bands == self.buffer_num_frames
        &&& planes_shaped(
            self.channels,
            self.buffer_num_channels as int,
            self.buffer_num_frames as int,
        )
        &&& self.split is Some <==> self.num_bands > 1
        &&& self.split matches Some(split) ==> frame_shaped(
            split,
            self.buffer_num_channels as int,
            self.num_bands as int,
            self.num_split_frames as int,
        )
    }

    /// Whether samples pass through a resampler on their way in.
    pub open spec fn resamples_input(self) -> bool {
        self.input_num_frames != self.buffer_num_frames
    }

    /// Whether samples pass through a resampler on their way out.
    pub open spec fn resamples_output(self) -> bool {
        self.output_num_frames != self.buffer_num_frames
    }

    /// The samples of one band of one channel.
    pub open spec fn band(self, channel: int, band: int) -> Seq<Sample> {
        match self.split {
            Some(split) => split[channel][band],
            None => self.channels[channel],
        }
    }

    /// Every band of every channel has as many samples.
    pub proof fn lemma_band_length(self, channel: int, band: int)
        requires
            self.wf(),
            0 <= channel < self.buffer_num_channels,
            0 <= band < self.num_bands,
        ensures
            self.band(channel, band).len() == self.num_split_frames,
    {
        match self.split {
            Some(split) => {
                assert(planes_shaped(
                    split[channel],
                    self.num_bands as int,
                    self.num_split_frames as int,
                ));
            },
            None => {
                assert(self.num_split_frames * self.num_bands == self.num_split_frames)
                    by (nonlinear_arith)
                    requires
                        self.num_bands == 1,
                ;
            },
        }
    }

    /// The state with one band of one channel replaced.
    pub open spec fn with_band(self, channel: int, band: int, samples: Seq<Sample>) -> AudioState {
        match self.split {
            Some(split) => AudioState {
                split: Some(split.update(channel, split[channel].update(band, samples))),
                ..self
            },
            None => self.with_channel(channel, samples),
        }
    }

    /// Replacing one band leaves the others.
    pub proof fn lemma_with_band(self, channel: int, band: int, samples: Seq<Sample>)
        requires
            self.wf(),
            0 <= channel < self.buffer_num_channels,
            0 <= band < self.num_bands,
            samples.len() == self.num_split_frames,
        ensures
            self.with_band(channel, band, samples).wf(),
            self.split is Some ==> self.with_band(channel, band, samples).channels == self.channels,
            forall|c: int, b: int|
                0 <= c < self.buffer_num_channels && 0 <= b < self.num_bands ==> #[trigger]
                self.with_band(channel, band, samples).band(c, b) == if c == channel && b == band {
                    samples
                } else {
                    self.band(c, b)
                },
    {
        let after = self.with_band(channel, band, samples);
        self.lemma_band_length(channel, band);
        match self.split {
            Some(split) => {
                assert(planes_shaped(
                    split[channel],
                    self.num_bands as int,
                    self.num_split_frames as int,
                ));
                assert(frame_shaped(
                    after.split->0,
                    self.buffer_num_channels as int,
                    self.num_bands as int,
                    self.num_split_frames as int,
                ));
            },
            None => {},
        }
        assert forall|c: int, b: int|
            0 <= c < self.buffer_num_channels && 0 <= b < self.num_bands implies #[trigger]
            after.band(c, b) == if c == channel && b == band {
            samples
        } else {
            self.band(c, b)
        } by {
            if self.split is Some {
                assert(planes_shaped(
                    self.split->0[c],
                    self.num_bands as int,
                    self.num_split_frames as int,
                ));
            }
        }
    }

    /// The state with every band of every channel replaced by what `f` makes of
    /// its channel, its band and its samples.
    pub open spec fn with_bands(
        self,
        f: spec_fn(int, int, Seq<Sample>) -> Seq<Sample>,
    ) -> AudioState {
        match self.split {
            Some(split) => AudioState {
                split: Some(
                    Seq::new(
                        split.len(),
                        |c: int| Seq::new(split[c].len(), |b: int| f(c, b, split[c][b])),
                    ),
                ),
                ..self
            },
            None => AudioState {
                channels: Seq::new(self.channels.len(), |c: int| f(c, 0, self.channels[c])),
                ..self
            },
        }
    }

    /// The state with one full-band channel replaced.
    pub open spec fn with_channel(self, channel: int, samples: Seq<Sample>) -> AudioState {
        AudioState { channels: self.channels.update(channel, samples), ..self }
    }

    /// The state with all allocated channels visible.
    pub open spec fn restored(self) -> AudioState {
        AudioState { num_channels: self.buffer_num_channels, ..self }
    }
}

/// Audio buffer for the processing pipeline.
#[derive(Debug)]
pub struct AudioBuffer {
    input_num_frames: usize,
    input_num_channels: usize,
    buffer_num_frames: usize,
    buffer_num_channels: usize,
    output_num_frames: usize,
    num_channels: usize,
    num_bands: usize,
    num_split_frames: usize,
    data: Vec<Vec<Sample>>,
    split_data: Option<Vec<Vec<Vec<Sample>>>>,
    downmix_by_averaging: bool,
    channel_for_downmixing: usize,
}

impl View for AudioBuffer {
    type V = AudioState;

    closed spec fn view(&self) -> AudioState {
        AudioState {
            input_num_frames: self.input_num_frames,
            input_num_channels: self.input_num_channels,
            buffer_num_frames: self.buffer_num_frames,
            buffer_num_channels: self.buffer_num_channels,
            output_num_frames: self.output_num_frames,
            num_channels: self.num_channels,
            num_bands: self.num_bands,
            num_split_frames: self.num_split_frames,
            channels: planes_of(self.data@),
            split: match self.split_data {
                Some(split) => Some(frame_of(split@)),
                None => None,
            },
            downmix_by_averaging: self.downmix_by_averaging,
            channel_for_downmixing: self.channel_for_downmixing,
        }
    }
}

impl AudioBuffer {
    /// Creates a silent buffer.
    ///
    /// - `input_rate`: sample rate of incoming audio
    /// - `input_num_channels`: number of input channels
    /// - `buffer_rate`: processing sample rate
    /// - `buffer_num_channels`: number of processing channels
    /// - `output_rate`: sample rate of outgoing audio
    pub fn new(
        input_rate: usize,
        input_num_channels: usize,
        buffer_rate: usize,
        buffer_num_channels: usize,
        output_rate: usize,
    ) -> (buffer: AudioBuffer)
        requires
            input_rate >= 100,
            buffer_rate >= 100,
            output_rate >= 100,
            0 < buffer_num_channels <= input_num_channels,
        ensures
            buffer@.wf(),
            buffer@ == (AudioState {
                input_num_frames: input_rate / 100,
                input_num_channels,
                buffer_num_frames: buffer_rate / 100,
                buffer_num_channels,
                output_num_frames: output_rate / 100,
                num_channels: buffer_num_channels,
                num_bands: bands_of_frames((buffer_rate / 100) as int) as usize,
                num_split_frames: ((buffer_rate / 100) as int / bands_of_frames(
                    (buffer_rate / 100) as int,
                )) as usize,
                channels: silent_planes(buffer_num_channels as int, (buffer_rate / 100) as int),
                split: if bands_of_frames((buffer_rate / 100) as int) > 1 {
                    Some(
                        silent_frame(
                            buffer_num_channels as int,
                            bands_of_frames((buffer_rate / 100) as int),
                            (buffer_rate / 100) as int / bands_of_frames(
                                (buffer_rate / 100) as int,
                            ),
                        ),
                    )
                } else {
                    None
                },
                downmix_by_averaging: true,
                channel_for_downmixing: 0,
            }),
            buffer@.input_num_frames * 100 <= input_rate < buffer@.input_num_frames * 100 + 100,
            buffer@.buffer_num_frames * 100 <= buffer_rate < buffer@.buffer_num_frames * 100 + 100,
            buffer@.output_num_frames * 100 <= output_rate < buffer@.output_num_frames * 100 + 100,
    {
        let input_num_frames: usize = input_rate / 100;
        let buffer_num_frames: usize = buffer_rate / 100;
        let output_num_frames: usize = output_rate / 100;
        let num_bands: usize = num_bands_from_frames_per_channel(buffer_num_frames);
        let num_split_frames: usize = buffer_num_frames / num_bands;
        let data = new_planes(buffer_num_channels, buffer_num_frames);
        let split_data = if num_bands > 1 {
            Some(new_frame(buffer_num_channels, num_bands, num_split_frames))
        } else {
            None
        };
        assert(num_split_frames * num_bands == buffer_num_frames) by {
            assert(num_bands == 1 || num_bands == 2 || num_bands == 3);
            assert(num_split_frames * num_bands == buffer_num_frames) by (nonlinear_arith)
                requires
                    num_bands == 1 && num_split_frames == buffer_num_frames || num_bands == 2
                        && num_split_frames == 160 && buffer_num_frames == 320 || num_bands == 3
                        && num_split_frames == 160 && buffer_num_frames == 480,
            ;
        }
        AudioBuffer {
            input_num_frames,
            input_num_channels,
            buffer_num_frames,
            buffer_num_channels,
            output_num_frames,
            num_channels: buffer_num_channels,
            num_bands,
            num_split_frames,
            data,
            split_data,
            downmix_by_averaging: true,
            channel_for_downmixing: 0,
        }
    }

    /// Number of visible channels.
    pub fn num_channels(&self) -> (n: usize)
        ensures
            n == self@.num_channels,
    {
        self.num_channels
    }

    /// Number of frames in the buffer, at the processing rate.
    pub fn num_frames(&self) -> (n: usize)
        ensures
            n == self@.buffer_num_frames,
    {
        self.buffer_num_frames
    }

    /// Number of frames per frequency band.
    pub fn num_frames_per_band(&self) -> (n: usize)
        ensures
            n == self@.num_split_frames,
    {
        self.num_split_frames
    }

    /// Number of frequency bands.
    pub fn num_bands(&self) -> (n: usize)
        ensures
            n == self@.num_bands,
    {
        self.num_bands
    }

    /// Number of input frames and of buffer frames per call of each input
    /// resampler, where there are any: one for each allocated channel.
    pub fn input_resampler_frames(&self) -> (frames: Option<(usize, usize)>)
        ensures
            frames == if self@.resamples_input() {
                Some((self@.input_num_frames, self@.buffer_num_frames))
            } else {
                None
            },
    {
        if self.input_num_frames != self.buffer_num_frames {
            Some((self.input_num_frames, self.buffer_num_frames))
        } else {
            None
        }
    }

    /// Number of buffer frames and of output frames per call of each output
    /// resampler, where there are any: one for each allocated channel.
    pub fn output_resampler_frames(&self) -> (frames: Option<(usize, usize)>)
        ensures
            frames == if self@.resamples_output() {
                Some((self@.buffer_num_frames, self@.output_num_frames))
            } else {
                None
            },
    {
        if self.output_num_frames != self.buffer_num_frames {
            Some((self.buffer_num_frames, self.output_num_frames))
        } else {
            None
        }
    }

    /// The samples of one channel, full band.
    pub fn channel(&self, channel: usize) -> (samples: &[Sample])
        requires
            self@.wf(),
            channel < self@.buffer_num_channels,
        ensures
            samples@ == self@.channels[channel as int],
    {
        self.data[channel].as_slice()
    }

    /// The samples of one channel, full band, for writing.
    pub fn channel_mut(&mut self, channel: usize) -> (samples: &mut [Sample])
        requires
            old(self)@.wf(),
            channel < old(self)@.buffer_num_channels,
        ensures
            samples@ == old(self)@.channels[channel as int],
            final(self)@ == old(self)@.with_channel(channel as int, final(samples)@),
    {
        self.data[channel].as_mut_slice()
    }

    /// The samples of one band of one channel.
    pub fn split_band(&self, channel: usize, band: usize) -> (samples: &[Sample])
        requires
            self@.wf(),
            channel < self@.buffer_num_channels,
            band < self@.num_bands,
        ensures
            samples@ == self@.band(channel as int, band as int),
    {
        match &self.split_data {
            Some(split) => {
                proof {
                    assert(frame_of(split@)[channel as int] == planes_of(split@[channel as int]@));
                }
                split[channel][band].as_slice()
            },
            None => self.data[channel].as_slice(),
        }
    }

    /// The samples of one band of one channel, for writing.
    pub fn split_band_mut(&mut self, channel: usize, band: usize) -> (samples: &mut [Sample])
        requires
            old(self)@.wf(),
            channel < old(self)@.buffer_num_channels,
            band < old(self)@.num_bands,
        ensures
            samples@ == old(self)@.band(channel as int, band as int),
            final(self)@ == old(self)@.with_band(channel as int, band as int, final(samples)@),
    {
        broadcast use group_plane_updates;

        match &mut self.split_data {
            Some(split) => {
                proof {
                    assert(frame_of(split@)[channel as int] == planes_of(split@[channel as int]@));
                }
                split[channel][band].as_mut_slice()
            },
            None => self.data[channel].as_mut_slice(),
        }
    }
}

impl AudioBuffer {
    /// Writes samples over those of one band of one channel, from `at` on.
    pub fn write_band(&mut self, channel: usize, band: usize, samples: &[Sample], at: usize)
        requires
            old(self)@.wf(),
            channel < old(self)@.buffer_num_channels,
            band < old(self)@.num_bands,
            at + samples@.len() <= old(self)@.num_split_frames,
        ensures
            final(self)@.wf(),
            final(self)@ == old(self)@.with_band(
                channel as int,
                band as int,
                spliced(samples@, old(self)@.band(channel as int, band as int), at as int),
            ),
    {
        broadcast use group_plane_updates;

        let ghost before = self@;
        let ghost held = before.band(channel as int, band as int);
        let count: usize = samples.len();
        proof {
            before.lemma_band_length(channel as int, band as int);
            before.lemma_with_band(
                channel as int,
                band as int,
                spliced(samples@, held, at as int),
            );
            assert(samples@.subrange(0, count as int) =~= samples@);
        }
        match &mut self.split_data {
            Some(split) => {
                copy_into_frame(samples, 0, count, split, channel, band, at);
            },
            None => {
                copy_samples(samples, 0, count, &mut self.data[channel], at);
            },
        }
    }
}

/// Sum of sample `i` of the first `n` planes, added in order.
pub open spec fn running_sum(planes: Seq<Seq<Sample>>, n: int, i: int) -> Sample
    decreases n,
{
    if n <= 1 {
        planes[0][i]
    } else {
        sum(running_sum(planes, n - 1, i), planes[n - 1][i])
    }
}

/// Average of sample `i` over the first `n` planes.
pub open spec fn average(planes: Seq<Seq<Sample>>, n: int, i: int) -> Sample {
    product(running_sum(planes, n, i), quotient(of_integer(1), of_integer(n)))
}

/// `channels` with the first of them replaced by `planes`.
pub open spec fn stored(channels: Seq<Seq<Sample>>, planes: Seq<Seq<Sample>>) -> Seq<
    Seq<Sample>,
> {
    Seq::new(
        channels.len(),
        |c: int|
            if c < planes.len() {
                planes[c]
            } else {
                channels[c]
            },
    )
}

/// A plane of float samples as float S16.
pub open spec fn plane_up(plane: Seq<Sample>) -> Seq<Sample> {
    Seq::new(plane.len(), |i: int| scaled_up(plane[i]))
}

/// A plane of float S16 samples as float.
pub open spec fn plane_down(plane: Seq<Sample>) -> Seq<Sample> {
    Seq::new(plane.len(), |i: int| scaled_down(plane[i]))
}

/// The first `count` samples.
fn first_samples(samples: &[Sample], count: usize) -> (plane: Vec<Sample>)
    requires
        count <= samples@.len(),
    ensures
        plane@ == samples@.take(count as int),
{
    let mut plane: Vec<Sample> = Vec::with_capacity(count);
    for i in 0..count
        invariant
            count <= samples@.len(),
            plane@ == samples@.take(i as int),
    {
        plane.push(samples[i]);
        assert(plane@ =~= samples@.take(i + 1));
    }
    plane
}

/// Writes the first samples of a float plane over a plane, as float S16.
fn write_up(src: &[Sample], dest: &mut Vec<Sample>)
    requires
        old(dest)@.len() <= src@.len(),
    ensures
        final(dest)@ == plane_up(src@.take(old(dest)@.len() as int)),
{
    let len: usize = dest.len();
    for i in 0..len
        invariant
            len <= src@.len(),
            dest@.len() == len,
            forall|k: int| 0 <= k < i ==> #[trigger] dest@[k] == scaled_up(src@[k]),
    {
        dest[i] = float_to_float_s16(src[i]);
    }
    assert(dest@ =~= plane_up(src@.take(len as int)));
}

/// Writes a float S16 plane over the first samples of a plane, as float.
fn write_down(src: &Vec<Sample>, dest: &mut Vec<Sample>)
    requires
        src@.len() <= old(dest)@.len(),
    ensures
        final(dest)@ == overlaid(plane_down(src@), old(dest)@),
{
    let ghost before = dest@;
    let len: usize = src.len();
    for i in 0..len
        invariant
            len == src@.len(),
            len <= before.len(),
            dest@.len() == before.len(),
            forall|k: int|
                0 <= k < before.len() ==> #[trigger] dest@[k] == if k < i {
                    scaled_down(src@[k])
                } else {
                    before[k]
                },
    {
        dest[i] = float_s16_to_float(src[i]);
    }
    assert(dest@ =~= overlaid(plane_down(src@), before));
}

/// Planes of float samples as float S16.
pub open spec fn planes_up(planes: Seq<Seq<Sample>>) -> Seq<Seq<Sample>> {
    Seq::new(planes.len(), |c: int| plane_up(planes[c]))
}

impl AudioState {
    /// Whether input is mixed down to one channel.
    pub open spec fn downmixes(self) -> bool {
        self.input_num_channels > 1 && self.buffer_num_channels == 1
    }

    /// What `copy_from_float` takes of its input, channel by channel.
    pub open spec fn float_sources(self, input: Seq<Seq<Sample>>) -> Seq<Seq<Sample>> {
        if self.downmixes() {
            seq![
                Seq::new(
                    self.input_num_frames as nat,
                    |i: int|
                        if self.downmix_by_averaging {
                            average(input, self.input_num_channels as int, i)
                        } else {
                            input[self.channel_for_downmixing as int][i]
                        },
                ),
            ]
        } else {
            Seq::new(
                if input.len() < self.buffer_num_channels {
                    input.len()
                } else {
                    self.buffer_num_channels as nat
                },
                |c: int| input[c].take(self.input_num_frames as int),
            )
        }
    }

    /// Whether the input planes that are read are there and long enough.
    pub open spec fn float_input_fits(self, input: Seq<Seq<Sample>>) -> bool {
        if self.downmixes() {
            if self.downmix_by_averaging {
                &&& input.len() >= self.input_num_channels
                &&& forall|c: int|
                    0 <= c < self.input_num_channels ==> (#[trigger] input[c]).len()
                        >= self.input_num_frames
            } else {
                &&& self.channel_for_downmixing < input.len()
                &&& input[self.channel_for_downmixing as int].len() >= self.input_num_frames
            }
        } else {
            forall|c: int|
                0 <= c < input.len() && c < self.buffer_num_channels ==> (#[trigger] input[c]).len()
                    >= self.input_num_frames
        }
    }
}

impl AudioBuffer {
    /// Sets downmixing to pick one channel.
    pub fn set_downmixing_to_specific_channel(&mut self, channel: usize)
        requires
            old(self)@.wf(),
        ensures
            final(self)@.wf(),
            final(self)@ == (AudioState {
                downmix_by_averaging: false,
                channel_for_downmixing: if channel < old(self)@.input_num_channels {
                    channel
                } else {
                    (old(self)@.input_num_channels - 1) as usize
                },
                ..old(self)@
            }),
    {
        self.downmix_by_averaging = false;
        self.channel_for_downmixing = if channel < self.input_num_channels {
            channel
        } else {
            self.input_num_channels - 1
        };
    }

    /// Sets downmixing to average all channels.
    pub fn set_downmixing_by_averaging(&mut self)
        requires
            old(self)@.wf(),
        ensures
            final(self)@.wf(),
            final(self)@ == (AudioState { downmix_by_averaging: true, ..old(self)@ }),
    {
        self.downmix_by_averaging = true;
    }

    /// Sets the number of visible channels.
    pub fn set_num_channels(&mut self, num_channels: usize)
        requires
            old(self)@.wf(),
            num_channels <= old(self)@.buffer_num_channels,
        ensures
            final(self)@.wf(),
            final(self)@ == (AudioState { num_channels, ..old(self)@ }),
    {
        self.num_channels = num_channels;
    }

    /// Makes all allocated channels visible.
    pub fn restore_num_channels(&mut self)
        requires
            old(self)@.wf(),
        ensures
            final(self)@.wf(),
            final(self)@ == old(self)@.restored(),
    {
        self.num_channels = self.buffer_num_channels;
    }

    /// Copies deinterleaved float data into the buffer, as float S16.
    ///
    /// Where the input rate is not the processing rate, nothing is stored yet:
    /// the planes that come back are what the resamplers are to be fed, and
    /// `store_resampled_float` takes what they make of them.
    pub fn copy_from_float(
        &mut self,
        stacked_data: &[&[Sample]],
        stream_config: &StreamConfig,
    ) -> (pending: Vec<Vec<Sample>>)
        requires
            old(self)@.wf(),
            stream_config.frames() == old(self)@.input_num_frames,
            stream_config.num_channels == old(self)@.input_num_channels,
            old(self)@.float_input_fits(slices_of(stacked_data@)),
        ensures
            final(self)@.wf(),
            ({
                let sources = old(self)@.float_sources(slices_of(stacked_data@));
                if old(self)@.resamples_input() {
                    &&& planes_of(pending@) == sources
                    &&& final(self)@ == old(self)@.restored()
                } else {
                    &&& pending@.len() == 0
                    &&& final(self)@ == (AudioState {
                        channels: stored(old(self)@.channels, planes_up(sources)),
                        ..old(self)@.restored()
                    })
                }
            }),
    {
        self.restore_num_channels();
        if self.input_num_frames != self.buffer_num_frames {
            return self.take_float_sources(stacked_data);
        }
        if self.input_num_channels > 1 && self.num_channels == 1 {
            let sources = self.take_float_sources(stacked_data);
            proof {
                assert forall|c: int|
                    0 <= c < sources@.len() implies (#[trigger] sources@[c])@.len()
                    == self@.buffer_num_frames by {
                    assert(sources@[c]@ == planes_of(sources@)[c]);
                }
            }
            self.store_resampled_float(&sources);
        } else {
            self.store_float(stacked_data);
        }
        Vec::new()
    }

    /// Stores input channels as they are, as float S16.
    fn store_float(&mut self, stacked_data: &[&[Sample]])
        requires
            old(self)@.wf(),
            old(self)@.num_channels == old(self)@.buffer_num_channels,
            !old(self)@.resamples_input(),
            !old(self)@.downmixes(),
            old(self)@.float_input_fits(slices_of(stacked_data@)),
        ensures
            final(self)@.wf(),
            final(self)@ == (AudioState {
                channels: stored(
                    old(self)@.channels,
                    planes_up(old(self)@.float_sources(slices_of(stacked_data@))),
                ),
                ..old(self)@
            }),
    {
        let ghost before = self@;
        let ghost input = slices_of(stacked_data@);
        let ghost planes = planes_up(before.float_sources(input));
        let count: usize = if stacked_data.len() < self.num_channels {
            stacked_data.len()
        } else {
            self.num_channels
        };
        for c in 0..count
            invariant
                before.wf(),
                !before.resamples_input(),
                !before.downmixes(),
                before.float_input_fits(input),
                input == slices_of(stacked_data@),
                count <= stacked_data@.len(),
                count <= before.buffer_num_channels,
                planes == planes_up(before.float_sources(input)),
                count == planes.len(),
                self@ == (AudioState {
                    channels: stored(before.channels, planes.take(c as int)),
                    ..before
                }),
                self.data@.len() == before.buffer_num_channels,
        {
            let ghost held = self.data@;
            assert(planes_of(held)[c as int] == held[c as int]@);
            assert(before.channels[c as int].len() == before.buffer_num_frames);
            assert(input[c as int] == stacked_data@[c as int]@);
            write_up(stacked_data[c], &mut self.data[c]);
            proof {
                lemma_planes_update(held, c as int, self.data@[c as int]);
                assert(self.data@[c as int]@ =~= planes[c as int]);
                assert(planes_of(held).update(c as int, planes[c as int]) =~= stored(
                    before.channels,
                    planes.take(c + 1),
                ));
            }
        }
        assert(planes.take(count as int) =~= planes);
    }

    /// What float input contributes to each channel: the mixed-down channel, or
    /// the input channels as they are.
    fn take_float_sources(&self, stacked_data: &[&[Sample]]) -> (sources: Vec<Vec<Sample>>)
        requires
            self@.wf(),
            self@.num_channels == self@.buffer_num_channels,
            self@.input_num_channels <= u16::MAX,
            self@.float_input_fits(slices_of(stacked_data@)),
        ensures
            planes_of(sources@) == self@.float_sources(slices_of(stacked_data@)),
    {
        let ghost input = slices_of(stacked_data@);
        let mut sources: Vec<Vec<Sample>> = Vec::new();
        if self.input_num_channels > 1 && self.num_channels == 1 {
            let plane = if self.downmix_by_averaging {
                self.average_of(stacked_data)
            } else {
                assert(input[self.channel_for_downmixing as int]
                    == stacked_data@[self.channel_for_downmixing as int]@);
                first_samples(stacked_data[self.channel_for_downmixing], self.input_num_frames)
            };
            assert(plane@ =~= self@.float_sources(input)[0]);
            sources.push(plane);
            assert(planes_of(sources@) =~= self@.float_sources(input));
        } else {
            let count: usize = if stacked_data.len() < self.num_channels {
                stacked_data.len()
            } else {
                self.num_channels
            };
            for c in 0..count
                invariant
                    self@.wf(),
                    self@.float_input_fits(input),
                    !self@.downmixes(),
                    input == slices_of(stacked_data@),
                    count <= stacked_data@.len(),
                    count <= self@.buffer_num_channels,
                    count == self@.float_sources(input).len(),
                    sources@.len() == c,
                    forall|k: int|
                        0 <= k < c ==> (#[trigger] sources@[k])@ == self@.float_sources(input)[k],
            {
                assert(input[c as int] == stacked_data@[c as int]@);
                sources.push(first_samples(stacked_data[c], self.input_num_frames));
            }
            assert(planes_of(sources@) =~= self@.float_sources(input));
        }
        sources
    }

    /// Average of the input channels.
    fn average_of(&self, stacked_data: &[&[Sample]]) -> (plane: Vec<Sample>)
        requires
            self@.wf(),
            self@.downmixes(),
            self@.downmix_by_averaging,
            self@.input_num_channels <= u16::MAX,
            self@.float_input_fits(slices_of(stacked_data@)),
        ensures
            plane@ == self@.float_sources(slices_of(stacked_data@))[0],
    {
        let ghost input = slices_of(stacked_data@);
        let n: usize = self.input_num_channels;
        let scale = Sample::from_i32(1).over(Sample::from_i32(n as i32));
        let mut plane: Vec<Sample> = Vec::with_capacity(self.input_num_frames);
        for i in 0..self.input_num_frames
            invariant
                n == self@.input_num_channels,
                1 < n <= u16::MAX,
                self@.wf(),
                self@.downmixes(),
                self@.downmix_by_averaging,
                self@.float_input_fits(input),
                input == slices_of(stacked_data@),
                scale == quotient(of_integer(1), of_integer(n as int)),
                plane@.len() == i,
                forall|k: int| 0 <= k < i ==> #[trigger] plane@[k] == average(input, n as int, k),
        {
            assert(input[0] == stacked_data@[0]@);
            let mut value = stacked_data[0][i];
            for c in 1..n
                invariant
                    self@.wf(),
                    self@.downmixes(),
                    self@.downmix_by_averaging,
                    self@.float_input_fits(input),
                    input == slices_of(stacked_data@),
                    n == self@.input_num_channels,
                    i < self@.input_num_frames,
                    value == running_sum(input, c as int, i as int),
            {
                assert(input[c as int] == stacked_data@[c as int]@);
                value = value.plus(stacked_data[c][i]);
            }
            plane.push(value.times(scale));
        }
        assert(plane@ =~= self@.float_sources(input)[0]);
        plane
    }

    /// Stores what the input resamplers made of float planes.
    pub fn store_resampled_float(&mut self, resampled: &Vec<Vec<Sample>>)
        requires
            old(self)@.wf(),
            resampled@.len() <= old(self)@.buffer_num_channels,
            forall|c: int|
                0 <= c < resampled@.len() ==> (#[trigger] resampled@[c])@.len()
                    == old(self)@.buffer_num_frames,
        ensures
            final(self)@.wf(),
            final(self)@ == (AudioState {
                channels: stored(old(self)@.channels, planes_up(planes_of(resampled@))),
                ..old(self)@
            }),
    {
        let ghost before = self@;
        let ghost planes = planes_up(planes_of(resampled@));
        let count: usize = resampled.len();
        let frames: usize = self.buffer_num_frames;
        for c in 0..count
            invariant
                count == resampled@.len(),
                count <= before.buffer_num_channels,
                frames == before.buffer_num_frames,
                before.wf(),
                planes == planes_up(planes_of(resampled@)),
                forall|k: int|
                    0 <= k < resampled@.len() ==> (#[trigger] resampled@[k])@.len()
                        == before.buffer_num_frames,
                self@ == (AudioState {
                    channels: stored(before.channels, planes.take(c as int)),
                    ..before
                }),
                self.data@.len() == before.buffer_num_channels,
        {
            let ghost held = self.data@;
            assert(planes_of(held)[c as int] == held[c as int]@);
            assert(before.channels[c as int].len() == frames);
            write_up(resampled[c].as_slice(), &mut self.data[c]);
            proof {
                lemma_planes_update(held, c as int, self.data@[c as int]);
                assert(self.data@[c as int]@ =~= planes[c as int]);
                assert(planes_of(held).update(c as int, planes[c as int]) =~= stored(
                    before.channels,
                    planes.take(c + 1),
                ));
            }
        }
        proof {
            assert(planes.take(count as int) =~= planes);
        }
    }
}

/// Sum of the `n` values from `start` on.
pub open spec fn total(data: Seq<i16>, start: int, n: int) -> int
    decreases n,
{
    if n <= 0 {
        0
    } else {
        total(data, start, n - 1) + data[start + n - 1]
    }
}

impl AudioState {
    /// What `copy_from_interleaved_i16` takes of its input, channel by channel.
    pub open spec fn s16_sources(self, data: Seq<i16>) -> Seq<Seq<Sample>> {
        let stride = self.input_num_channels as int;
        Seq::new(
            self.buffer_num_channels as nat,
            |c: int|
                Seq::new(
                    self.input_num_frames as nat,
                    |j: int|
                        if self.buffer_num_channels > 1 || stride == 1 {
                            of_integer(data[j * stride + c] as int)
                        } else if self.downmix_by_averaging {
                            quotient(
                                of_integer(total(data, j * stride, stride)),
                                of_integer(stride),
                            )
                        } else {
                            of_integer(data[j * stride + self.channel_for_downmixing] as int)
                        },
                ),
        )
    }

    /// The last channel of each interleaved frame that is read.
    pub open spec fn last_channel_read(self) -> int {
        if self.buffer_num_channels > 1 {
            self.buffer_num_channels - 1
        } else if self.downmix_by_averaging {
            self.input_num_channels - 1
        } else {
            self.channel_for_downmixing as int
        }
    }

    /// Whether the interleaved input is long enough for what is read of it.
    pub open spec fn s16_input_fits(self, data: Seq<i16>) -> bool {
        (self.input_num_frames - 1) * self.input_num_channels + self.last_channel_read()
            < data.len()
    }
}

/// An interleaved position lies before the one of a later frame and channel.
proof fn lemma_interleaved_index(j: int, c: int, frames: int, stride: int, last: int)
    requires
        0 <= j < frames,
        0 <= c <= last,
        0 < stride,
    ensures
        0 <= j * stride + c <= (frames - 1) * stride + last,
        0 <= j * stride <= (frames - 1) * stride,
{
    assert(0 <= j * stride <= (frames - 1) * stride) by (nonlinear_arith)
        requires
            0 <= j <= frames - 1,
            0 < stride,
    ;
}

/// Reads one channel of interleaved data into a plane.
fn read_interleaved(data: &[i16], stride: usize, channel: usize, plane: &mut Vec<Sample>)
    requires
        0 < stride,
        old(plane)@.len() > 0 ==> (old(plane)@.len() - 1) * stride + channel < data@.len(),
    ensures
        final(plane)@ == Seq::new(
            old(plane)@.len(),
            |j: int| of_integer(data@[j * stride + channel] as int),
        ),
{
    let frames: usize = plane.len();
    let len: usize = data.len();
    for j in 0..frames
        invariant
            0 < stride,
            frames > 0 ==> (frames - 1) * stride + channel < len,
            len == data@.len(),
            plane@.len() == frames,
            forall|k: int|
                0 <= k < j ==> #[trigger] plane@[k] == of_integer(
                    data@[k * stride + channel] as int,
                ),
    {
        proof {
            lemma_interleaved_index(
                j as int,
                channel as int,
                frames as int,
                stride as int,
                channel as int,
            );
        }
        plane[j] = Sample::from_i32(data[j * stride + channel] as i32);
    }
    assert(plane@ =~= Seq::new(
        frames as nat,
        |j: int| of_integer(data@[j * stride + channel] as int),
    ));
}

impl AudioBuffer {
    /// Copies interleaved S16 data into the buffer.
    ///
    /// Where the input rate is not the processing rate, nothing is stored yet:
    /// the planes that come back are what the resamplers are to be fed, and
    /// `store_resampled_s16` takes what they make of them.
    pub fn copy_from_interleaved_i16(
        &mut self,
        interleaved_data: &[i16],
        stream_config: &StreamConfig,
    ) -> (pending: Vec<Vec<Sample>>)
        requires
            old(self)@.wf(),
            stream_config.frames() == old(self)@.input_num_frames,
            stream_config.num_channels == old(self)@.input_num_channels,
            old(self)@.s16_input_fits(interleaved_data@),
        ensures
            final(self)@.wf(),
            ({
                let sources = old(self)@.s16_sources(interleaved_data@);
                if old(self)@.resamples_input() {
                    &&& planes_of(pending@) == sources
                    &&& final(self)@ == old(self)@.restored()
                } else {
                    &&& pending@.len() == 0
                    &&& final(self)@ == (AudioState { channels: sources, ..old(self)@.restored() })
                }
            }),
    {
        self.restore_num_channels();
        if self.input_num_frames != self.buffer_num_frames {
            return self.take_s16_sources(interleaved_data);
        }
        if self.num_channels == 1 && self.input_num_channels > 1 {
            let sources = self.take_s16_sources(interleaved_data);
            proof {
                assert forall|c: int|
                    0 <= c < sources@.len() implies (#[trigger] sources@[c])@.len()
                    == self@.buffer_num_frames by {
                    assert(sources@.len() == planes_of(sources@).len());
                    assert(sources@[c]@ == self@.s16_sources(interleaved_data@)[c]);
                    assert(sources@[c]@.len() == self@.input_num_frames);
                }
                assert(stored(self@.channels, planes_of(sources@)) =~= planes_of(sources@));
            }
            self.store_resampled_s16(&sources);
        } else {
            self.store_s16(interleaved_data);
        }
        Vec::new()
    }

    /// What interleaved input contributes to each channel.
    fn take_s16_sources(&self, interleaved_data: &[i16]) -> (sources: Vec<Vec<Sample>>)
        requires
            self@.wf(),
            self@.num_channels == self@.buffer_num_channels,
            self@.input_num_channels <= u16::MAX,
            self@.s16_input_fits(interleaved_data@),
        ensures
            planes_of(sources@) == self@.s16_sources(interleaved_data@),
    {
        let mut sources: Vec<Vec<Sample>> = Vec::new();
        if self.num_channels == 1 && self.input_num_channels > 1 {
            let plane = if self.downmix_by_averaging {
                self.average_interleaved(interleaved_data)
            } else {
                self.pick_interleaved(interleaved_data, self.channel_for_downmixing)
            };
            assert(plane@ =~= self@.s16_sources(interleaved_data@)[0]);
            sources.push(plane);
        } else {
            for c in 0..self.num_channels
                invariant
                    self@.wf(),
                    self@.num_channels == self@.buffer_num_channels,
                    self@.buffer_num_channels > 1 || self@.input_num_channels == 1,
                    self@.s16_input_fits(interleaved_data@),
                    sources@.len() == c,
                    forall|k: int|
                        0 <= k < c ==> (#[trigger] sources@[k])@ == self@.s16_sources(
                            interleaved_data@,
                        )[k],
            {
                let plane = self.pick_interleaved(interleaved_data, c);
                assert(plane@ =~= self@.s16_sources(interleaved_data@)[c as int]);
                sources.push(plane);
            }
        }
        assert(planes_of(sources@) =~= self@.s16_sources(interleaved_data@));
        sources
    }

    /// Stores interleaved input channels as they are.
    fn store_s16(&mut self, interleaved_data: &[i16])
        requires
            old(self)@.wf(),
            old(self)@.num_channels == old(self)@.buffer_num_channels,
            old(self)@.buffer_num_channels > 1 || old(self)@.input_num_channels == 1,
            !old(self)@.resamples_input(),
            old(self)@.s16_input_fits(interleaved_data@),
        ensures
            final(self)@.wf(),
            final(self)@ == (AudioState {
                channels: old(self)@.s16_sources(interleaved_data@),
                ..old(self)@
            }),
    {
        let ghost before = self@;
        let ghost sources = before.s16_sources(interleaved_data@);
        let frames: usize = self.buffer_num_frames;
        let stride: usize = self.input_num_channels;
        let count: usize = self.num_channels;
        for c in 0..count
            invariant
                before.wf(),
                before.buffer_num_channels > 1 || before.input_num_channels == 1,
                !before.resamples_input(),
                before.s16_input_fits(interleaved_data@),
                frames == before.input_num_frames,
                stride == before.input_num_channels,
                count == before.buffer_num_channels,
                sources == before.s16_sources(interleaved_data@),
                self@ == (AudioState { channels: self@.channels, ..before }),
                self.data@.len() == count,
                forall|k: int|
                    0 <= k < count ==> (#[trigger] self.data@[k])@ == if k < c {
                        sources[k]
                    } else {
                        before.channels[k]
                    },
        {
            assert(before.channels[c as int].len() == frames);
            read_interleaved(
                interleaved_data,
                stride,
                c,
                &mut self.data[c],
            );
            assert(self.data@[c as int]@ =~= sources[c as int]);
        }
        assert(self@.channels =~= sources);
    }

    /// One channel of interleaved input.
    fn pick_interleaved(&self, interleaved_data: &[i16], channel: usize) -> (plane: Vec<Sample>)
        requires
            self@.wf(),
            channel <= self@.last_channel_read(),
            self@.s16_input_fits(interleaved_data@),
        ensures
            plane@ == Seq::new(
                self@.input_num_frames as nat,
                |j: int|
                    of_integer(interleaved_data@[j * self@.input_num_channels + channel] as int),
            ),
    {
        let mut plane = silent_plane(self.input_num_frames);
        read_interleaved(interleaved_data, self.input_num_channels, channel, &mut plane);
        plane
    }

    /// Average over the channels of interleaved input.
    fn average_interleaved(&self, interleaved_data: &[i16]) -> (plane: Vec<Sample>)
        requires
            self@.wf(),
            self@.buffer_num_channels == 1,
            1 < self@.input_num_channels <= u16::MAX,
            self@.downmix_by_averaging,
            self@.s16_input_fits(interleaved_data@),
        ensures
            plane@ == self@.s16_sources(interleaved_data@)[0],
    {
        let frames: usize = self.input_num_frames;
        let stride: usize = self.input_num_channels;
        let len: usize = interleaved_data.len();
        let count = Sample::from_i32(stride as i32);
        let mut plane: Vec<Sample> = Vec::with_capacity(frames);
        for j in 0..frames
            invariant
                self@.wf(),
                self@.s16_input_fits(interleaved_data@),
                self@.last_channel_read() == stride - 1,
                frames == self@.input_num_frames,
                stride == self@.input_num_channels,
                1 < stride <= u16::MAX,
                len == interleaved_data@.len(),
                count == of_integer(stride as int),
                plane@.len() == j,
                forall|k: int|
                    0 <= k < j ==> #[trigger] plane@[k] == quotient(
                        of_integer(total(interleaved_data@, k * stride, stride as int)),
                        of_integer(stride as int),
                    ),
        {
            proof {
                lemma_interleaved_index(
                    j as int,
                    stride - 1,
                    frames as int,
                    stride as int,
                    stride - 1,
                );
            }
            let start: usize = j * stride;
            let mut sum: i32 = 0;
            for c in 0..stride
                invariant
                    start + stride <= len == interleaved_data@.len(),
                    stride <= u16::MAX,
                    sum == total(interleaved_data@, start as int, c as int),
                    -32768 * c <= sum <= 32767 * c,
            {
                sum = sum + interleaved_data[start + c] as i32;
            }
            plane.push(Sample::from_i32(sum).over(count));
        }
        assert(plane@ =~= self@.s16_sources(interleaved_data@)[0]);
        plane
    }

    /// Stores what the input resamplers made of float S16 planes.
    pub fn store_resampled_s16(&mut self, resampled: &Vec<Vec<Sample>>)
        requires
            old(self)@.wf(),
            resampled@.len() <= old(self)@.buffer_num_channels,
            forall|c: int|
                0 <= c < resampled@.len() ==> (#[trigger] resampled@[c])@.len()
                    == old(self)@.buffer_num_frames,
        ensures
            final(self)@.wf(),
            final(self)@ == (AudioState {
                channels: stored(old(self)@.channels, planes_of(resampled@)),
                ..old(self)@
            }),
    {
        assert(planes_of(resampled@).take(resampled@.len() as int) =~= planes_of(resampled@));
        self.store_planes(resampled, resampled.len());
    }

    /// Stores the first `count` planes in the channels.
    fn store_planes(&mut self, planes: &Vec<Vec<Sample>>, count: usize)
        requires
            old(self)@.wf(),
            count <= planes@.len(),
            count <= old(self)@.buffer_num_channels,
            forall|c: int|
                0 <= c < count ==> (#[trigger] planes@[c])@.len() == old(self)@.buffer_num_frames,
        ensures
            final(self)@.wf(),
            final(self)@ == (AudioState {
                channels: stored(old(self)@.channels, planes_of(planes@).take(count as int)),
                ..old(self)@
            }),
    {
        let ghost before = self@;
        let ghost all = planes_of(planes@);
        let frames: usize = self.buffer_num_frames;
        for c in 0..count
            invariant
                count <= planes@.len(),
                count <= before.buffer_num_channels,
                frames == before.buffer_num_frames,
                before.wf(),
                all == planes_of(planes@),
                forall|k: int|
                    0 <= k < count ==> (#[trigger] planes@[k])@.len() == before.buffer_num_frames,
                self@ == (AudioState {
                    channels: stored(before.channels, all.take(c as int)),
                    ..before
                }),
                self.data@.len() == before.buffer_num_channels,
        {
            let ghost held = self.data@;
            assert(planes_of(held)[c as int] == held[c as int]@);
            assert(before.channels[c as int].len() == frames);
            copy_samples(planes[c].as_slice(), 0, frames, &mut self.data[c], 0);
            proof {
                lemma_planes_update(held, c as int, self.data@[c as int]);
                assert(self.data@[c as int]@ =~= all[c as int]);
                assert(planes_of(held).update(c as int, all[c as int]) =~= stored(
                    before.channels,
                    all.take(c + 1),
                ));
            }
        }
    }
}

/// The smaller of two counts.
pub open spec fn lesser(a: int, b: int) -> int {
    if a < b {
        a
    } else {
        b
    }
}

/// Output planes after `planes` were written to the first of them and the
/// first was copied to those from `planes.len()` up to `num_outputs`.
pub open spec fn delivered(
    dest: Seq<Seq<Sample>>,
    planes: Seq<Seq<Sample>>,
    num_outputs: int,
) -> Seq<Seq<Sample>> {
    Seq::new(
        dest.len(),
        |c: int|
            if c < planes.len() {
                overlaid(planes[c], dest[c])
            } else if c < num_outputs {
                overlaid(planes[0], dest[c])
            } else {
                dest[c]
            },
    )
}

impl AudioState {
    /// Whether output planes can take the output of all channels, and of channel
    /// 0 again for each further channel of the stream.
    pub open spec fn float_output_fits(self, dest: Seq<Seq<Sample>>, num_outputs: int) -> bool {
        &&& forall|c: int|
            0 <= c < dest.len() && (c < self.num_channels || c < num_outputs) ==> (
            #[trigger] dest[c]).len() >= self.output_num_frames
        &&& self.num_channels < num_outputs ==> self.num_channels > 0 && num_outputs <= dest.len()
    }

    /// The channels that are output to `count` planes, as float.
    pub open spec fn float_outputs(self, count: int) -> Seq<Seq<Sample>> {
        Seq::new(
            lesser(count, self.num_channels as int) as nat,
            |c: int| plane_down(self.channels[c]),
        )
    }
}

/// Writes planes to the first output planes and copies the first of them to
/// further ones, up to `num_outputs`.
fn deliver(
    planes: &Vec<Vec<Sample>>,
    frames: usize,
    num_outputs: usize,
    dest: &mut Vec<Vec<Sample>>,
)
    requires
        planes@.len() <= old(dest)@.len(),
        planes_shaped(planes_of(planes@), planes@.len() as int, frames as int),
        forall|c: int|
            0 <= c < old(dest)@.len() && (c < planes@.len() || c < num_outputs) ==> (
            #[trigger] old(dest)@[c])@.len() >= frames,
        planes@.len() < num_outputs ==> planes@.len() > 0 && num_outputs <= old(dest)@.len(),
    ensures
        planes_of(final(dest)@) == delivered(
            planes_of(old(dest)@),
            planes_of(planes@),
            num_outputs as int,
        ),
{
    broadcast use group_plane_updates;

    let ghost before = dest@;
    let ghost all = delivered(planes_of(before), planes_of(planes@), num_outputs as int);
    let count: usize = planes.len();
    let end: usize = if count < num_outputs {
        num_outputs
    } else {
        count
    };
    for c in 0..end
        invariant
            count == planes@.len(),
            end <= before.len(),
            end == count || end == num_outputs && count > 0,
            planes_shaped(planes_of(planes@), count as int, frames as int),
            forall|k: int| 0 <= k < end ==> (#[trigger] before[k])@.len() >= frames,
            all == delivered(planes_of(before), planes_of(planes@), num_outputs as int),
            dest@.len() == before.len(),
            forall|k: int|
                0 <= k < dest@.len() ==> (#[trigger] dest@[k])@ == if k < c {
                    all[k]
                } else {
                    before[k]@
                },
    {
        let source: usize = if c < count {
            c
        } else {
            0
        };
        assert(planes_of(planes@)[source as int] == planes@[source as int]@);
        assert(before[c as int]@.len() >= frames);
        let ghost held = dest@[c as int]@;
        assert(held == before[c as int]@);
        copy_samples(planes[source].as_slice(), 0, frames, &mut dest[c], 0);
        assert(dest@[c as int]@ =~= all[c as int]);
    }
    assert(planes_of(dest@) =~= all);
}

/// Copies the first samples of plane 0 over those of further planes.
fn repeat_first(planes: &mut Vec<Vec<Sample>>, first: usize, last: usize, frames: usize)
    requires
        0 < first <= last <= old(planes)@.len(),
        forall|c: int| 0 <= c < last ==> (#[trigger] old(planes)@[c])@.len() >= frames,
    ensures
        planes_of(final(planes)@) == Seq::new(
            old(planes)@.len(),
            |c: int|
                if first <= c < last {
                    overlaid(
                        planes_of(old(planes)@)[0].take(frames as int),
                        planes_of(old(planes)@)[c],
                    )
                } else {
                    planes_of(old(planes)@)[c]
                },
        ),
{
    let ghost before = planes@;
    let ghost all = Seq::new(
        before.len(),
        |c: int|
            if first <= c < last {
                overlaid(planes_of(before)[0].take(frames as int), planes_of(before)[c])
            } else {
                planes_of(before)[c]
            },
    );
    let mut c: usize = first;
    while c < last
        invariant
            0 < first <= c <= last <= before.len(),
            forall|k: int| 0 <= k < last ==> (#[trigger] before[k])@.len() >= frames,
            planes@.len() == before.len(),
            all.len() == before.len(),
            forall|k: int|
                first <= k < last ==> #[trigger] all[k] == overlaid(
                    before[0]@.take(frames as int),
                    before[k]@,
                ),
            forall|k: int|
                0 <= k < planes@.len() ==> (#[trigger] planes@[k])@ == if first <= k < c {
                    all[k]
                } else {
                    before[k]@
                },
        decreases last - c,
    {
        assert(before[c as int]@.len() >= frames);
        assert(before[0]@.len() >= frames);
        let len: usize = planes[c].len();
        let ghost held = planes@;
        for i in 0..frames
            invariant
                0 < c < planes@.len(),
                planes@.len() == before.len() == held.len(),
                frames <= len,
                frames <= before[0]@.len(),
                len == before[c as int]@.len(),
                planes@[c as int]@.len() == len,
                planes@[0]@ == before[0]@,
                forall|k: int| 0 <= k < held.len() && k != c ==> #[trigger] planes@[k] == held[k],
                forall|k: int|
                    0 <= k < len ==> #[trigger] planes@[c as int]@[k] == if k < i {
                        before[0]@[k]
                    } else {
                        before[c as int]@[k]
                    },
        {
            let value = planes[0][i];
            planes[c][i] = value;
        }
        assert(planes@[c as int]@ =~= all[c as int]);
        c = c + 1;
    }
    assert(planes_of(planes@) =~= all);
}

/// Turns a float S16 plane to float, in place.
fn turn_down(plane: &mut Vec<Sample>)
    ensures
        final(plane)@ == plane_down(old(plane)@),
{
    let ghost before = plane@;
    let len: usize = plane.len();
    for i in 0..len
        invariant
            plane@.len() == len == before.len(),
            forall|k: int|
                0 <= k < len ==> #[trigger] plane@[k] == if k < i {
                    scaled_down(before[k])
                } else {
                    before[k]
                },
    {
        plane[i] = float_s16_to_float(plane[i]);
    }
    assert(plane@ =~= plane_down(before));
}

impl AudioBuffer {
    /// Copies the buffer to deinterleaved float output, and channel 0 to the
    /// stream's further channels. Says whether that is done.
    ///
    /// Where the output rate is not the processing rate, the channels that are
    /// output are turned to float in place, and nothing is written yet:
    /// `finish_copy_to_float` takes what the resamplers make of those channels.
    pub fn copy_to_float(
        &mut self,
        stream_config: &StreamConfig,
        stacked_data: &mut Vec<Vec<Sample>>,
    ) -> (done: bool)
        requires
            old(self)@.wf(),
            stream_config.frames() == old(self)@.output_num_frames,
            old(self)@.float_output_fits(
                planes_of(old(stacked_data)@),
                stream_config.num_channels as int,
            ),
        ensures
            final(self)@.wf(),
            done == !old(self)@.resamples_output(),
            ({
                let outputs = old(self)@.float_outputs(old(stacked_data)@.len() as int);
                if done {
                    &&& final(self)@ == old(self)@
                    &&& planes_of(final(stacked_data)@) == delivered(
                        planes_of(old(stacked_data)@),
                        outputs,
                        stream_config.num_channels as int,
                    )
                } else {
                    &&& final(self)@ == (AudioState {
                        channels: stored(old(self)@.channels, outputs),
                        ..old(self)@
                    })
                    &&& planes_of(final(stacked_data)@) == planes_of(old(stacked_data)@)
                }
            }),
    {
        let count: usize = if stacked_data.len() < self.num_channels {
            stacked_data.len()
        } else {
            self.num_channels
        };
        if self.output_num_frames != self.buffer_num_frames {
            self.turn_to_float(count);
            assert(self@.channels =~= stored(
                old(self)@.channels,
                old(self)@.float_outputs(stacked_data@.len() as int),
            ));
            return false;
        }
        self.write_float(count, stream_config.num_channels() as usize, stacked_data);
        true
    }

    /// Turns the first channels to float, in place.
    fn turn_to_float(&mut self, count: usize)
        requires
            old(self)@.wf(),
            count <= old(self)@.buffer_num_channels,
        ensures
            final(self)@.wf(),
            final(self)@ == (AudioState {
                channels: Seq::new(
                    old(self)@.channels.len(),
                    |c: int|
                        if c < count {
                            plane_down(old(self)@.channels[c])
                        } else {
                            old(self)@.channels[c]
                        },
                ),
                ..old(self)@
            }),
    {
        let ghost before = self@;
        for c in 0..count
            invariant
                before.wf(),
                count <= before.buffer_num_channels,
                self@ == (AudioState { channels: self@.channels, ..before }),
                self.data@.len() == before.channels.len(),
                forall|k: int|
                    0 <= k < self.data@.len() ==> (#[trigger] self.data@[k])@ == if k < c {
                        plane_down(before.channels[k])
                    } else {
                        before.channels[k]
                    },
        {
            turn_down(&mut self.data[c]);
        }
        assert(self@.channels =~= Seq::new(
            before.channels.len(),
            |c: int|
                if c < count {
                    plane_down(before.channels[c])
                } else {
                    before.channels[c]
                },
        ));
    }

    /// Writes the first channels to the output as float, and channel 0 to the
    /// further planes up to `num_outputs`.
    fn write_float(&self, count: usize, num_outputs: usize, stacked_data: &mut Vec<Vec<Sample>>)
        requires
            self@.wf(),
            !self@.resamples_output(),
            self@.float_output_fits(planes_of(old(stacked_data)@), num_outputs as int),
            count == lesser(old(stacked_data)@.len() as int, self@.num_channels as int),
        ensures
            planes_of(final(stacked_data)@) == delivered(
                planes_of(old(stacked_data)@),
                self@.float_outputs(old(stacked_data)@.len() as int),
                num_outputs as int,
            ),
    {
        let ghost before = planes_of(stacked_data@);
        let ghost outputs = self@.float_outputs(stacked_data@.len() as int);
        let frames: usize = self.output_num_frames;
        for c in 0..count
            invariant
                self@.wf(),
                !self@.resamples_output(),
                self@.float_output_fits(before, num_outputs as int),
                count == lesser(before.len() as int, self@.num_channels as int),
                frames == self@.buffer_num_frames,
                outputs == self@.float_outputs(before.len() as int),
                self.data@.len() == self@.channels.len(),
                stacked_data@.len() == before.len(),
                forall|k: int|
                    0 <= k < before.len() ==> (#[trigger] stacked_data@[k])@ == if k < c {
                        overlaid(outputs[k], before[k])
                    } else {
                        before[k]
                    },
        {
            assert(self.data@[c as int]@ == self@.channels[c as int]);
            assert(before[c as int].len() >= frames);
            write_down(&self.data[c], &mut stacked_data[c]);
        }
        if self.num_channels < num_outputs {
            let ghost written = planes_of(stacked_data@);
            proof {
                assert forall|c: int| 0 <= c < num_outputs implies (
                #[trigger] stacked_data@[c])@.len() >= frames by {
                    assert(before[c].len() >= frames);
                }
            }
            repeat_first(stacked_data, count, num_outputs, frames);
            assert(written[0] == overlaid(outputs[0], before[0]));
            assert(written[0].take(frames as int) =~= outputs[0]);
        }
        assert(planes_of(stacked_data@) =~= delivered(before, outputs, num_outputs as int));
    }

    /// Writes float planes at the output rate to the output, and the first of
    /// them to the stream's further channels.
    pub fn finish_copy_to_float(
        &self,
        planes: &Vec<Vec<Sample>>,
        stream_config: &StreamConfig,
        stacked_data: &mut Vec<Vec<Sample>>,
    )
        requires
            self@.wf(),
            stream_config.frames() == self@.output_num_frames,
            self@.float_output_fits(
                planes_of(old(stacked_data)@),
                stream_config.num_channels as int,
            ),
            planes_shaped(
                planes_of(planes@),
                lesser(old(stacked_data)@.len() as int, self@.num_channels as int),
                self@.output_num_frames as int,
            ),
        ensures
            planes_of(final(stacked_data)@) == delivered(
                planes_of(old(stacked_data)@),
                planes_of(planes@),
                stream_config.num_channels as int,
            ),
    {
        proof {
            assert forall|c: int|
                0 <= c < stacked_data@.len() && (c < planes@.len() || c
                    < stream_config.num_channels) implies (#[trigger] stacked_data@[c])@.len()
                >= self@.output_num_frames by {
                assert(planes_of(stacked_data@)[c] == stacked_data@[c]@);
            }
        }
        let config_num_channels: usize = stream_config.num_channels() as usize;
        let num_outputs: usize = if self.num_channels < config_num_channels {
            config_num_channels
        } else {
            planes.len()
        };
        proof {
            assert(delivered(planes_of(stacked_data@), planes_of(planes@), num_outputs as int)
                =~= delivered(
                planes_of(stacked_data@),
                planes_of(planes@),
                config_num_channels as int,
            ));
        }
        deliver(planes, self.output_num_frames, num_outputs, stacked_data);
    }
}

/// Channels of a buffer after `planes` were copied to the first of them and
/// channel 0 to the further visible ones.
pub open spec fn spread(
    channels: Seq<Seq<Sample>>,
    planes: Seq<Seq<Sample>>,
    visible: int,
) -> Seq<Seq<Sample>> {
    Seq::new(
        channels.len(),
        |c: int|
            if c < planes.len() {
                planes[c]
            } else if c < visible {
                if planes.len() > 0 {
                    planes[0]
                } else {
                    channels[0]
                }
            } else {
                channels[c]
            },
    )
}

impl AudioBuffer {
    /// Copies this buffer to another, and channel 0 to the other's further
    /// channels. Says whether that is done.
    ///
    /// Where the output rate is not the processing rate, nothing is copied yet:
    /// `finish_copy_to_buffer` takes what the resamplers make of the visible
    /// channels.
    pub fn copy_to_buffer(&self, buffer: &mut AudioBuffer) -> (done: bool)
        requires
            self@.wf(),
            old(buffer)@.wf(),
            old(buffer)@.buffer_num_frames == self@.output_num_frames,
            self@.num_channels <= old(buffer)@.buffer_num_channels,
        ensures
            final(buffer)@.wf(),
            done == !self@.resamples_output(),
            done ==> final(buffer)@ == (AudioState {
                channels: spread(
                    old(buffer)@.channels,
                    self@.channels.take(self@.num_channels as int),
                    old(buffer)@.num_channels as int,
                ),
                ..old(buffer)@
            }),
            !done ==> final(buffer)@ == old(buffer)@,
    {
        if self.output_num_frames != self.buffer_num_frames {
            return false;
        }
        proof {
            assert forall|c: int| 0 <= c < self.num_channels implies (
            #[trigger] self.data@[c])@.len() == self@.buffer_num_frames by {
                assert(self.data@[c]@ == self@.channels[c]);
            }
        }
        buffer.take_planes(&self.data, self.num_channels);
        true
    }

    /// Copies planes at the output rate to the other buffer, and its channel 0 to
    /// its further channels.
    pub fn finish_copy_to_buffer(&self, planes: &Vec<Vec<Sample>>, buffer: &mut AudioBuffer)
        requires
            self@.wf(),
            old(buffer)@.wf(),
            old(buffer)@.buffer_num_frames == self@.output_num_frames,
            self@.num_channels <= old(buffer)@.buffer_num_channels,
            planes_shaped(
                planes_of(planes@),
                self@.num_channels as int,
                self@.output_num_frames as int,
            ),
        ensures
            final(buffer)@.wf(),
            final(buffer)@ == (AudioState {
                channels: spread(
                    old(buffer)@.channels,
                    planes_of(planes@),
                    old(buffer)@.num_channels as int,
                ),
                ..old(buffer)@
            }),
    {
        proof {
            assert forall|c: int| 0 <= c < planes@.len() implies (#[trigger] planes@[c])@.len()
                == buffer@.buffer_num_frames by {
                assert(planes_of(planes@)[c] == planes@[c]@);
            }
            assert(planes_of(planes@).take(self.num_channels as int) =~= planes_of(planes@));
        }
        buffer.take_planes(planes, self.num_channels);
    }

    /// Stores the first `count` planes, and channel 0 in the further visible
    /// channels.
    fn take_planes(&mut self, planes: &Vec<Vec<Sample>>, count: usize)
        requires
            old(self)@.wf(),
            count <= planes@.len(),
            count <= old(self)@.buffer_num_channels,
            forall|c: int|
                0 <= c < count ==> (#[trigger] planes@[c])@.len() == old(self)@.buffer_num_frames,
        ensures
            final(self)@.wf(),
            final(self)@ == (AudioState {
                channels: spread(
                    old(self)@.channels,
                    planes_of(planes@).take(count as int),
                    old(self)@.num_channels as int,
                ),
                ..old(self)@
            }),
    {
        let ghost before = self@;
        self.store_planes(planes, count);
        let first: usize = if count > 0 {
            count
        } else {
            1
        };
        let visible: usize = self.num_channels;
        let ghost held = self@.channels;
        if first < visible {
            let frames: usize = self.buffer_num_frames;
            proof {
                assert forall|c: int| 0 <= c < visible implies (#[trigger] self.data@[c])@.len()
                    >= frames by {
                    assert(self.data@[c]@ == held[c]);
                }
            }
            repeat_first(&mut self.data, first, visible, frames);
            assert forall|c: int| first <= c < visible implies self@.channels[c] == held[0] by {
                assert(held[0].len() == frames && held[c].len() == frames);
                assert(overlaid(held[0].take(frames as int), held[c]) =~= held[0]);
            }
        }
        assert(self@.channels =~= spread(
            before.channels,
            planes_of(planes@).take(count as int),
            before.num_channels as int,
        ));
    }
}

/// Interleaved output of planes of float S16 samples: frame by frame, with the
/// planes repeated where there are fewer of them than channels.
pub open spec fn interleaved(
    planes: Seq<Seq<Sample>>,
    frames: int,
    num_outputs: int,
    dest: Seq<i16>,
) -> Seq<i16> {
    Seq::new(
        dest.len(),
        |k: int|
            if k < frames * num_outputs {
                to_s16(planes[(k % num_outputs) % planes.len() as int][k / num_outputs]) as i16
            } else {
                dest[k]
            },
    )
}

/// A position in interleaved data has one frame and one channel.
proof fn lemma_interleaved_position(k: int, frames: int, stride: int)
    requires
        0 <= k < frames * stride,
        0 < stride,
    ensures
        0 <= k / stride < frames,
        0 <= k % stride < stride,
        k == (k / stride) * stride + k % stride,
{
    vstd::arithmetic::div_mod::lemma_fundamental_div_mod(k, stride);
    assert(k / stride < frames) by (nonlinear_arith)
        requires
            k < frames * stride,
            k == stride * (k / stride) + k % stride,
            0 <= k % stride,
            0 < stride,
    ;
    assert(k / stride >= 0) by (nonlinear_arith)
        requires
            0 <= k,
            0 < stride,
    ;
    assert((k / stride) * stride == stride * (k / stride)) by (nonlinear_arith);
}

/// Writes the first `count` planes of float S16 samples as interleaved S16.
fn interleave(
    planes: &Vec<Vec<Sample>>,
    count: usize,
    frames: usize,
    num_outputs: usize,
    dest: &mut [i16],
)
    requires
        count <= planes@.len(),
        planes_shaped(planes_of(planes@).take(count as int), count as int, frames as int),
        num_outputs > 0 ==> count > 0,
        num_outputs != 1 ==> frames * num_outputs <= old(dest)@.len(),
    ensures
        final(dest)@ == interleaved(
            planes_of(planes@).take(count as int),
            frames as int,
            num_outputs as int,
            old(dest)@,
        ),
{
    let ghost before = dest@;
    let ghost all = planes_of(planes@).take(count as int);
    let len: usize = dest.len();
    let rows: usize = if num_outputs == 1 && len < frames {
        len
    } else {
        frames
    };
    let mut k: usize = 0;
    assert(0 * num_outputs == 0) by (nonlinear_arith);
    for j in 0..rows
        invariant
            all == planes_of(planes@).take(count as int),
            count <= planes@.len(),
            planes_shaped(all, count as int, frames as int),
            num_outputs > 0 ==> count > 0,
            rows <= frames,
            rows * num_outputs <= len,
            len == before.len() == dest@.len(),
            k == j * num_outputs,
            forall|i: int|
                0 <= i < k ==> #[trigger] dest@[i] == to_s16(
                    all[(i % num_outputs as int) % count as int][i / num_outputs as int],
                ),
            forall|i: int| k <= i < len ==> #[trigger] dest@[i] == before[i],
    {
        assert((j + 1) * num_outputs <= rows * num_outputs) by (nonlinear_arith)
            requires
                j + 1 <= rows,
        ;
        assert((j + 1) * num_outputs == j * num_outputs + num_outputs) by (nonlinear_arith);
        for i in 0..num_outputs
            invariant
                all == planes_of(planes@).take(count as int),
                count <= planes@.len(),
                planes_shaped(all, count as int, frames as int),
                num_outputs > 0 ==> count > 0,
                j < rows <= frames,
                j * num_outputs + num_outputs <= len,
                len == before.len() == dest@.len(),
                k == j * num_outputs + i,
                forall|n: int|
                    0 <= n < k ==> #[trigger] dest@[n] == to_s16(
                        all[(n % num_outputs as int) % count as int][n / num_outputs as int],
                    ),
                forall|n: int| k <= n < len ==> #[trigger] dest@[n] == before[n],
        {
            proof {
                vstd::arithmetic::div_mod::lemma_fundamental_div_mod_converse(
                    k as int,
                    num_outputs as int,
                    j as int,
                    i as int,
                );
            }
            let source: usize = i % count;
            assert(all[source as int] == planes@[source as int]@);
            let value = float_s16_to_s16(planes[source][j]);
            dest[k] = value;
            k = k + 1;
        }
    }
    proof {
        assert forall|i: int| 0 <= i < len implies dest@[i] == interleaved(
            all,
            frames as int,
            num_outputs as int,
            before,
        )[i] by {
            if num_outputs == 1 {
                assert(frames * 1 == frames && rows * 1 == rows);
            }
            if i < k {
                assert(dest@[i] == to_s16(
                    all[(i % num_outputs as int) % count as int][i / num_outputs as int],
                ));
            }
        }
        assert(dest@ =~= interleaved(all, frames as int, num_outputs as int, before));
    }
}

impl AudioState {
    /// Whether interleaved output with `num_outputs` channels can be written to
    /// `len` values: one channel goes to any number of output channels, several
    /// to no fewer.
    pub open spec fn s16_output_fits(self, len: int, num_outputs: int) -> bool {
        &&& self.num_channels == 1 || self.num_channels <= num_outputs
        &&& num_outputs > 0 ==> self.num_channels > 0
        &&& num_outputs != 1 ==> self.output_num_frames * num_outputs <= len
    }
}

impl AudioBuffer {
    /// Copies the buffer to interleaved S16 output. Says whether that is done.
    ///
    /// Where the output rate is not the processing rate, nothing is written yet:
    /// `finish_copy_to_interleaved_i16` takes what the resamplers make of the
    /// visible channels.
    pub fn copy_to_interleaved_i16(
        &self,
        stream_config: &StreamConfig,
        interleaved_data: &mut [i16],
    ) -> (done: bool)
        requires
            self@.wf(),
            stream_config.frames() == self@.output_num_frames,
            self@.s16_output_fits(
                old(interleaved_data)@.len() as int,
                stream_config.num_channels as int,
            ),
        ensures
            done == !self@.resamples_output(),
            done ==> final(interleaved_data)@ == interleaved(
                self@.channels.take(self@.num_channels as int),
                self@.output_num_frames as int,
                stream_config.num_channels as int,
                old(interleaved_data)@,
            ),
            !done ==> final(interleaved_data)@ == old(interleaved_data)@,
    {
        if self.buffer_num_frames != self.output_num_frames {
            return false;
        }
        proof {
            assert(planes_shaped(
                planes_of(self.data@).take(self.num_channels as int),
                self.num_channels as int,
                self.output_num_frames as int,
            ));
        }
        interleave(
            &self.data,
            self.num_channels,
            self.output_num_frames,
            stream_config.num_channels() as usize,
            interleaved_data,
        );
        true
    }

    /// Writes planes at the output rate as interleaved S16.
    pub fn finish_copy_to_interleaved_i16(
        &self,
        planes: &Vec<Vec<Sample>>,
        stream_config: &StreamConfig,
        interleaved_data: &mut [i16],
    )
        requires
            self@.wf(),
            stream_config.frames() == self@.output_num_frames,
            self@.s16_output_fits(
                old(interleaved_data)@.len() as int,
                stream_config.num_channels as int,
            ),
            planes_shaped(
                planes_of(planes@),
                self@.num_channels as int,
                self@.output_num_frames as int,
            ),
        ensures
            final(interleaved_data)@ == interleaved(
                planes_of(planes@),
                self@.output_num_frames as int,
                stream_config.num_channels as int,
                old(interleaved_data)@,
            ),
    {
        assert(planes_of(planes@).take(planes@.len() as int) =~= planes_of(planes@));
        interleave(
            planes,
            planes.len(),
            self.output_num_frames,
            stream_config.num_channels() as usize,
            interleaved_data,
        );
    }
}

/// `split` with the bands of the first channels replaced.
pub open spec fn stored_bands(
    split: Seq<Seq<Seq<Sample>>>,
    bands: Seq<Seq<Seq<Sample>>>,
) -> Seq<Seq<Seq<Sample>>> {
    Seq::new(
        split.len(),
        |c: int|
            if c < bands.len() {
                bands[c]
            } else {
                split[c]
            },
    )
}

impl AudioBuffer {
    /// Whether the chunk is split into bands, by a filter bank.
    pub fn has_split_bands(&self) -> (split: bool)
        requires
            self@.wf(),
        ensures
            split == (self@.num_bands > 1),
    {
        self.num_bands > 1
    }

    /// Takes the bands that the analysis filter made of the channels, as
    /// `bands[channel][band]`. There is nothing to do where there is one band.
    pub fn split_into_frequency_bands(&mut self, bands: &Vec<Vec<Vec<Sample>>>)
        requires
            old(self)@.wf(),
            old(self)@.num_bands > 1 ==> bands@.len() <= old(self)@.buffer_num_channels
                && frame_shaped(
                frame_of(bands@),
                bands@.len() as int,
                old(self)@.num_bands as int,
                old(self)@.num_split_frames as int,
            ),
        ensures
            final(self)@.wf(),
            final(self)@ == (AudioState {
                split: match old(self)@.split {
                    Some(split) => Some(stored_bands(split, frame_of(bands@))),
                    None => None,
                },
                ..old(self)@
            }),
            old(self)@.num_bands > 1 ==> forall|c: int, b: int|
                0 <= c < bands@.len() && 0 <= b < old(self)@.num_bands
                    ==> #[trigger] final(self)@.band(c, b) == bands@[c]@[b]@,
    {
        let ghost before = self@;
        let ghost made = frame_of(bands@);
        let num_bands: usize = self.num_bands;
        let frames: usize = self.num_split_frames;
        if let Some(split) = &mut self.split_data {
            let ghost held = frame_of(split@);
            let count: usize = bands.len();
            for c in 0..count
                invariant
                    before.wf(),
                    before.split == Some(held),
                    num_bands == before.num_bands,
                    frames == before.num_split_frames,
                    made == frame_of(bands@),
                    count == bands@.len(),
                    count <= held.len(),
                    frame_shaped(made, count as int, num_bands as int, frames as int),
                    split@.len() == held.len(),
                    frame_of(split@) == stored_bands(held, made.take(c as int)),
            {
                assert(made[c as int] == planes_of(bands@[c as int]@));
                assert(planes_shaped(made[c as int], num_bands as int, frames as int));
                assert(planes_shaped(held[c as int], num_bands as int, frames as int));
                let ghost now = split@;
                assert(frame_of(now)[c as int] == planes_of(now[c as int]@));
                copy_planes(&bands[c], &mut split[c], num_bands, frames);
                proof {
                    lemma_frame_update(now, c as int, split@[c as int]);
                    assert(frame_of(now).update(c as int, made[c as int]) =~= stored_bands(
                        held,
                        made.take(c + 1),
                    ));
                }
            }
            assert(made.take(count as int) =~= made);
        }
    }

    /// Takes the full-band channels that the synthesis filter made of the bands.
    /// There is nothing to do where there is one band.
    pub fn merge_frequency_bands(&mut self, merged: &Vec<Vec<Sample>>)
        requires
            old(self)@.wf(),
            old(self)@.num_bands > 1 ==> merged@.len() <= old(self)@.buffer_num_channels
                && planes_shaped(
                planes_of(merged@),
                merged@.len() as int,
                old(self)@.buffer_num_frames as int,
            ),
        ensures
            final(self)@.wf(),
            final(self)@ == (AudioState {
                channels: if old(self)@.num_bands > 1 {
                    stored(old(self)@.channels, planes_of(merged@))
                } else {
                    old(self)@.channels
                },
                ..old(self)@
            }),
    {
        if self.num_bands > 1 {
            proof {
                assert forall|c: int| 0 <= c < merged@.len() implies (#[trigger] merged@[c])@.len()
                    == self@.buffer_num_frames by {
                    assert(planes_of(merged@)[c] == merged@[c]@);
                }
            }
            self.store_resampled_s16(merged);
        }
    }
}

/// S16 data that is copied in and out again, at one rate and with as many
/// channels, comes out as it was.
pub proof fn lemma_s16_copies_round_trip(state: AudioState, data: Seq<i16>, dest: Seq<i16>)
    requires
        state.wf(),
        state.buffer_num_channels == state.input_num_channels,
        state.output_num_frames == state.input_num_frames,
        data.len() == state.input_num_frames * state.input_num_channels,
        dest.len() == data.len(),
    ensures
        interleaved(
            state.s16_sources(data).take(state.restored().num_channels as int),
            state.output_num_frames as int,
            state.input_num_channels as int,
            dest,
        ) == data,
{
    let stride = state.input_num_channels as int;
    let frames = state.input_num_frames as int;
    let sources = state.s16_sources(data);
    let planes = sources.take(stride);
    assert forall|k: int| 0 <= k < data.len() implies data[k] == interleaved(
        planes,
        frames,
        stride,
        dest,
    )[k] by {
        lemma_interleaved_position(k, frames, stride);
        let c = k % stride;
        let j = k / stride;
        vstd::arithmetic::div_mod::lemma_small_mod(c as nat, stride as nat);
        assert(planes[c][j] == of_integer(data[j * stride + c] as int));
        lemma_s16_round_trip(data[k] as int);
    }
    assert(interleaved(planes, frames, stride, dest) =~= data);
}

/// Float data within [-1, 1] that is copied in and out again, at one rate and
/// with as many channels, comes out as it was.
pub proof fn lemma_float_copies_round_trip(
    state: AudioState,
    data: Seq<Seq<Sample>>,
    dest: Seq<Seq<Sample>>,
)
    requires
        state.wf(),
        state.buffer_num_channels == state.input_num_channels,
        state.input_num_frames == state.buffer_num_frames == state.output_num_frames,
        planes_shaped(data, state.input_num_channels as int, state.input_num_frames as int),
        planes_shaped(dest, state.input_num_channels as int, state.output_num_frames as int),
        forall|c: int, i: int|
            0 <= c < data.len() && 0 <= i < state.input_num_frames ==> is_at_most(
                of_integer(-1),
                #[trigger] data[c][i],
            ) && is_at_most(data[c][i], of_integer(1)),
    ensures
        ({
            let held = AudioState {
                channels: stored(state.channels, planes_up(state.float_sources(data))),
                ..state.restored()
            };
            delivered(
                dest,
                held.float_outputs(dest.len() as int),
                state.input_num_channels as int,
            ) == data
        }),
{
    let held = AudioState {
        channels: stored(state.channels, planes_up(state.float_sources(data))),
        ..state.restored()
    };
    let outputs = held.float_outputs(dest.len() as int);
    let result = delivered(dest, outputs, state.input_num_channels as int);
    assert forall|c: int| 0 <= c < data.len() implies result[c] == data[c] by {
        assert(data[c].len() == dest[c].len());
        assert forall|i: int| 0 <= i < state.input_num_frames implies outputs[c][i]
            == data[c][i] by {
            lemma_float_round_trip(data[c][i]);
        }
        assert(result[c] =~= data[c]);
    }
    assert(result =~= data);
}

/// Replacing band after band replaces all of them.
pub proof fn lemma_with_bands(
    before: AudioState,
    after: AudioState,
    f: spec_fn(int, int, Seq<Sample>) -> Seq<Sample>,
)
    requires
        before.wf(),
        after.wf(),
        after == (AudioState { channels: after.channels, split: after.split, ..before }),
        before.split is Some ==> after.channels == before.channels,
        forall|c: int, b: int|
            0 <= c < before.buffer_num_channels && 0 <= b < before.num_bands
                ==> #[trigger] after.band(c, b) == f(c, b, before.band(c, b)),
    ensures
        after == before.with_bands(f),
{
    let all = before.with_bands(f);
    match before.split {
        Some(split) => {
            let made = after.split->0;
            assert forall|c: int| 0 <= c < split.len() implies made[c] == all.split->0[c] by {
                assert(planes_shaped(
                    made[c],
                    before.num_bands as int,
                    before.num_split_frames as int,
                ));
                assert(planes_shaped(
                    split[c],
                    before.num_bands as int,
                    before.num_split_frames as int,
                ));
                assert forall|b: int| 0 <= b < made[c].len() implies made[c][b]
                    == all.split->0[c][b] by {
                    assert(after.band(c, b) == f(c, b, before.band(c, b)));
                }
                assert(made[c] =~= all.split->0[c]);
            }
            assert(made =~= all.split->0);
        },
        None => {
            assert forall|c: int| 0 <= c < before.channels.len() implies after.channels[c]
                == all.channels[c] by {
                assert(after.band(c, 0) == f(c, 0, before.band(c, 0)));
            }
            assert(after.channels =~= all.channels);
        },
    }
}

/// A chunk of 320 frames is split into two bands, one of 480 into three, of 160
/// frames each; any other is one band.
pub proof fn lemma_bands_have_equal_length(num_frames: int)
    ensures
        bands_of_frames(num_frames) * 160 == num_frames <==> num_frames == 160 || num_frames == 320
            || num_frames == 480,
        bands_of_frames(num_frames) > 1 <==> num_frames == 320 || num_frames == 480,
        bands_of_frames(num_frames) >= 1,
{
}

/// After a split, each channel holds its own bands: band `b` of channel `c` reads
/// back as `bands[c][b]`, and the channels that got none keep theirs.
pub proof fn lemma_bands_read_back(
    state: AudioState,
    after: AudioState,
    bands: Seq<Seq<Seq<Sample>>>,
)
    requires
        state.wf(),
        state.num_bands > 1,
        bands.len() <= state.buffer_num_channels,
        after == (AudioState {
            split: match state.split {
                Some(split) => Some(stored_bands(split, bands)),
                None => None,
            },
            ..state
        }),
    ensures
        after.split is Some,
        after.split->0.len() == state.buffer_num_channels,
        forall|c: int| 0 <= c < bands.len() ==> #[trigger] after.split->0[c] == bands[c],
        forall|c: int|
            bands.len() <= c < state.buffer_num_channels ==> #[trigger] after.split->0[c]
                == state.split->0[c],
        forall|c: int, b: int|
            0 <= c < bands.len() && 0 <= b < state.num_bands ==> #[trigger] after.band(c, b)
                == bands[c][b],
        forall|c: int, b: int|
            bands.len() <= c < state.buffer_num_channels && 0 <= b < state.num_bands
                ==> #[trigger] after.band(c, b) == state.band(c, b),
        after.channels == state.channels,
{
}

/// A band of a channel is that of the split channel where there are several, and
/// the channel itself where there is one.
pub proof fn lemma_band_of_channel(state: AudioState, c: int, b: int)
    requires
        state.wf(),
        0 <= c < state.buffer_num_channels,
        0 <= b < state.num_bands,
    ensures
        state.num_bands > 1 ==> state.band(c, b) == state.split->0[c][b],
        state.num_bands == 1 ==> state.band(c, b) == state.channels[c],
{
}

/// Storing planes gives each channel its own plane and leaves the channels that
/// get none.
pub proof fn lemma_planes_read_back(channels: Seq<Seq<Sample>>, planes: Seq<Seq<Sample>>)
    requires
        planes.len() <= channels.len(),
    ensures
        stored(channels, planes).len() == channels.len(),
        forall|c: int|
            0 <= c < planes.len() ==> #[trigger] stored(channels, planes)[c] == planes[c],
        forall|c: int|
            planes.len() <= c < channels.len() ==> #[trigger] stored(channels, planes)[c]
                == channels[c],
{
}

/// An average takes in every plane: the samples at its position are added up in
/// order and the sum is scaled by one over their number.
pub proof fn lemma_average_takes_in_every_plane(planes: Seq<Seq<Sample>>, n: int, i: int)
    requires
        1 <= n,
    ensures
        average(planes, n, i) == product(
            Seq::new((n - 1) as nat, |c: int| planes[c + 1][i]).fold_left(
                planes[0][i],
                |a: Sample, x: Sample| sum(a, x),
            ),
            quotient(of_integer(1), of_integer(n)),
        ),
{
    lemma_sum_takes_in_every_plane(planes, n, i);
}

proof fn lemma_sum_takes_in_every_plane(planes: Seq<Seq<Sample>>, n: int, i: int)
    requires
        1 <= n,
    ensures
        running_sum(planes, n, i) == Seq::new((n - 1) as nat, |c: int| planes[c + 1][i]).fold_left(
            planes[0][i],
            |a: Sample, x: Sample| sum(a, x),
        ),
    decreases n,
{
    let list = Seq::new((n - 1) as nat, |c: int| planes[c + 1][i]);
    if n > 1 {
        lemma_sum_takes_in_every_plane(planes, n - 1, i);
        assert(list.drop_last() =~= Seq::new((n - 2) as nat, |c: int| planes[c + 1][i]));
    }
}

/// Float input that is not mixed down: each channel gets its own input as float
/// S16, sample by sample, and a channel without input keeps what it held.
pub proof fn lemma_float_input_by_channel(state: AudioState, input: Seq<Seq<Sample>>)
    requires
        state.wf(),
        state.input_num_channels == 1 || state.buffer_num_channels > 1,
        state.float_input_fits(input),
    ensures
        ({
            let sources = state.float_sources(input);
            let after = stored(state.channels, planes_up(sources));
            &&& sources.len() <= state.buffer_num_channels
            &&& after.len() == state.buffer_num_channels
            &&& forall|c: int, i: int|
                #![trigger sources[c][i]]
                0 <= c < input.len() && c < state.buffer_num_channels && 0 <= i
                    < state.input_num_frames ==> c < sources.len() && sources[c].len()
                    == state.input_num_frames && sources[c][i] == input[c][i]
            &&& forall|c: int, i: int|
                #![trigger after[c][i]]
                0 <= c < input.len() && c < state.buffer_num_channels && 0 <= i
                    < state.input_num_frames ==> after[c].len() == state.input_num_frames
                    && after[c][i] == scaled_up(input[c][i])
            &&& forall|c: int|
                input.len() <= c < state.buffer_num_channels ==> #[trigger] after[c]
                    == state.channels[c]
        }),
{
    let sources = state.float_sources(input);
    assert forall|c: int| 0 <= c < input.len() && c < state.buffer_num_channels implies (
    #[trigger] sources[c]) == input[c].take(state.input_num_frames as int) && sources[c].len()
        == state.input_num_frames by {
        assert(input[c].len() >= state.input_num_frames);
    }
}

/// Float input that is mixed down: the channel gets the average over all input
/// channels, or the channel that was picked, as float S16, sample by sample.
pub proof fn lemma_float_input_mixed_down(state: AudioState, input: Seq<Seq<Sample>>, i: int)
    requires
        state.wf(),
        state.input_num_channels > 1,
        state.buffer_num_channels == 1,
        state.float_input_fits(input),
        0 <= i < state.input_num_frames,
    ensures
        ({
            let n = state.input_num_channels as int;
            let sources = state.float_sources(input);
            let after = stored(state.channels, planes_up(sources));
            let mean = product(
                Seq::new((n - 1) as nat, |c: int| input[c + 1][i]).fold_left(
                    input[0][i],
                    |a: Sample, x: Sample| sum(a, x),
                ),
                quotient(of_integer(1), of_integer(n)),
            );
            let value = if state.downmix_by_averaging {
                mean
            } else {
                input[state.channel_for_downmixing as int][i]
            };
            &&& sources.len() == 1
            &&& sources[0].len() == state.input_num_frames
            &&& sources[0][i] == value
            &&& after.len() == 1
            &&& after[0].len() == state.input_num_frames
            &&& after[0][i] == scaled_up(value)
        }),
{
    lemma_average_takes_in_every_plane(input, state.input_num_channels as int, i);
}

/// A sum over interleaved data takes in every value.
proof fn lemma_total_takes_in_every_value(data: Seq<i16>, start: int, n: int)
    requires
        0 <= n,
    ensures
        total(data, start, n) == Seq::new(n as nat, |k: int| data[start + k] as int).fold_left(
            0int,
            |a: int, x: int| a + x,
        ),
    decreases n,
{
    let list = Seq::new(n as nat, |k: int| data[start + k] as int);
    if n > 0 {
        lemma_total_takes_in_every_value(data, start, n - 1);
        assert(list.drop_last() =~= Seq::new((n - 1) as nat, |k: int| data[start + k] as int));
    }
}

/// Interleaved input: frame `j` of channel `c` is value `j * n + c`; mixed down,
/// it is the sum over the `n` values of the frame, divided by their number, or
/// the value of the channel that was picked.
pub proof fn lemma_s16_input_by_frame(state: AudioState, data: Seq<i16>, c: int, j: int)
    requires
        state.wf(),
        0 <= c < state.buffer_num_channels,
        0 <= j < state.input_num_frames,
    ensures
        ({
            let n = state.input_num_channels as int;
            let sources = state.s16_sources(data);
            let frame_total = Seq::new(n as nat, |k: int| data[j * n + k] as int).fold_left(
                0int,
                |a: int, x: int| a + x,
            );
            &&& sources.len() == state.buffer_num_channels
            &&& sources[c].len() == state.input_num_frames
            &&& sources[c][j] == if state.buffer_num_channels > 1 || n == 1 {
                of_integer(data[j * n + c] as int)
            } else if state.downmix_by_averaging {
                quotient(of_integer(frame_total), of_integer(n))
            } else {
                of_integer(data[j * n + state.channel_for_downmixing] as int)
            }
        }),
{
    let n = state.input_num_channels as int;
    lemma_total_takes_in_every_value(data, j * n, n);
}

/// Float output: plane `c` gets channel `c` as float, the further planes of the
/// stream get channel 0, sample by sample; what lies behind the chunk, and the
/// planes that the stream does not have, stay.
pub proof fn lemma_float_output_by_plane(
    state: AudioState,
    dest: Seq<Seq<Sample>>,
    num_outputs: int,
    c: int,
    i: int,
)
    requires
        state.wf(),
        !state.resamples_output(),
        0 <= num_outputs,
        state.float_output_fits(dest, num_outputs),
        0 <= c < dest.len(),
        0 <= i < dest[c].len(),
    ensures
        ({
            let out = delivered(dest, state.float_outputs(dest.len() as int), num_outputs);
            &&& out.len() == dest.len()
            &&& out[c].len() == dest[c].len()
            &&& out[c][i] == if i >= state.output_num_frames {
                dest[c][i]
            } else if c < state.num_channels {
                scaled_down(state.channels[c][i])
            } else if c < num_outputs {
                scaled_down(state.channels[0][i])
            } else {
                dest[c][i]
            }
        }),
{
    let outputs = state.float_outputs(dest.len() as int);
    if c < state.num_channels {
        assert(state.channels[c].len() == state.buffer_num_frames);
        assert(outputs[c].len() == state.output_num_frames);
    } else if c < num_outputs {
        assert(outputs[0].len() == state.output_num_frames);
    }
}

/// Planes that were resampled are written out the same way: plane `c` to output
/// `c`, plane 0 to the further outputs of the stream.
pub proof fn lemma_planes_are_delivered(
    dest: Seq<Seq<Sample>>,
    planes: Seq<Seq<Sample>>,
    num_outputs: int,
    c: int,
    i: int,
)
    requires
        0 <= c < dest.len(),
        0 <= i < dest[c].len(),
        forall|k: int| 0 <= k < planes.len() ==> (#[trigger] planes[k]).len() <= dest[c].len(),
        planes.len() <= c < num_outputs ==> planes.len() > 0,
    ensures
        ({
            let out = delivered(dest, planes, num_outputs);
            &&& out.len() == dest.len()
            &&& out[c].len() == dest[c].len()
            &&& out[c][i] == if c < planes.len() && i < planes[c].len() {
                planes[c][i]
            } else if planes.len() <= c < num_outputs && i < planes[0].len() {
                planes[0][i]
            } else {
                dest[c][i]
            }
        }),
{
}

/// A copy to another buffer gives channel `c` plane `c`, the further visible
/// channels what channel 0 got, and leaves the hidden ones.
pub proof fn lemma_planes_are_spread(
    channels: Seq<Seq<Sample>>,
    planes: Seq<Seq<Sample>>,
    visible: int,
    c: int,
)
    requires
        0 <= c < channels.len(),
        planes.len() <= channels.len(),
    ensures
        ({
            let after = spread(channels, planes, visible);
            &&& after.len() == channels.len()
            &&& c < planes.len() ==> after[c] == planes[c]
            &&& planes.len() <= c < visible ==> after[c] == after[0]
            &&& planes.len() <= c && visible <= c ==> after[c] == channels[c]
        }),
{
}

/// Interleaved output: value `j * n + k` is frame `j` of plane `k`, of the planes
/// in turn where there are fewer of them; what lies behind stays.
pub proof fn lemma_s16_output_by_frame(
    planes: Seq<Seq<Sample>>,
    frames: int,
    n: int,
    dest: Seq<i16>,
    j: int,
    k: int,
)
    requires
        0 <= j < frames,
        0 <= k < n,
        planes.len() > 0,
        j * n + k < dest.len(),
    ensures
        interleaved(planes, frames, n, dest).len() == dest.len(),
        interleaved(planes, frames, n, dest)[j * n + k] == to_s16(
            planes[k % planes.len() as int][j],
        ) as i16,
        k < planes.len() ==> interleaved(planes, frames, n, dest)[j * n + k] == to_s16(
            planes[k][j],
        ) as i16,
        forall|i: int|
            frames * n <= i < dest.len() ==> #[trigger] interleaved(planes, frames, n, dest)[i]
                == dest[i],
{
    vstd::arithmetic::div_mod::lemma_fundamental_div_mod_converse(j * n + k, n, j, k);
    assert(0 <= j * n + k < frames * n) by (nonlinear_arith)
        requires
            0 <= j,
            j + 1 <= frames,
            0 <= k < n,
    ;
    if k < planes.len() {
        vstd::arithmetic::div_mod::lemma_small_mod(k as nat, planes.len());
    }
}

/// What restoring does: every allocated channel is visible again, and all else stays.
pub proof fn lemma_restored_channels(state: AudioState)
    ensures
        state.restored().num_channels == state.buffer_num_channels,
        state.restored() == (AudioState { num_channels: state.buffer_num_channels, ..state }),
{
}

/// Samples pass through a resampler exactly where the number of frames differs from
/// that of the buffer, and input is mixed down exactly where several channels come in
/// and one is processed.
pub proof fn lemma_when_resampled_or_mixed(state: AudioState)
    requires
        state.wf(),
    ensures
        state.input_num_frames == state.buffer_num_frames <==> !state.resamples_input(),
        state.output_num_frames == state.buffer_num_frames <==> !state.resamples_output(),
        state.buffer_num_channels > 1 ==> !state.downmixes(),
        state.input_num_channels == 1 ==> !state.downmixes(),
        state.input_num_channels > 1 && state.buffer_num_channels == 1 ==> state.downmixes(),
{
}

} // verus!
