//! Fixed delay of the capture signal.
use crate::audio_buffer::{lemma_with_bands, AudioBuffer, AudioState};
use crate::planes::{
    frame_of, frame_shaped, lemma_frame_update, lemma_planes_update, new_frame, planes_of,
    planes_shaped, silent_frame,
};
use crate::sample::Sample;
use vstd::prelude::*;

verus! {

/// A ring of samples, read from position `at` on.
pub open spec fn unrolled(ring: Seq<Sample>, at: int) -> Seq<Sample> {
    ring.skip(at) + ring.take(at)
}

/// What comes out of a delay line when a frame goes in: its oldest samples, as
/// many as go in. What lies beyond `len` samples of the frame passes by.
pub open spec fn delayed(line: Seq<Sample>, frame: Seq<Sample>, len: int) -> Seq<Sample> {
    (line + frame.take(len)).take(len) + frame.skip(len)
}

/// What a delay line holds after a frame went in.
pub open spec fn advanced(line: Seq<Sample>, frame: Seq<Sample>, len: int) -> Seq<Sample> {
    (line + frame.take(len)).skip(len)
}

/// Applies a fixed delay to the split-band audio of a buffer.
#[derive(Debug)]
pub struct BlockDelayBuffer {
    frame_length: usize,
    delay: usize,
    num_bands: usize,
    /// `buf[channel][band]`: rings of `delay` samples.
    buf: Vec<Vec<Vec<Sample>>>,
    last_insert: usize,
}

/// What a block delay buffer holds.
#[verifier::ext_equal]
pub struct DelayState {
    pub frame_length: usize,
    pub delay: usize,
    pub num_bands: usize,
    /// `lines[channel][band]`, oldest sample first.
    pub lines: Seq<Seq<Seq<Sample>>>,
}

impl DelayState {
    pub open spec fn wf(self) -> bool {
        frame_shaped(self.lines, self.lines.len() as int, self.num_bands as int, self.delay as int)
    }

    /// What the delay makes of one band of one channel.
    pub open spec fn output(self) -> spec_fn(int, int, Seq<Sample>) -> Seq<Sample> {
        |c: int, b: int, frame: Seq<Sample>|
            if c < self.lines.len() {
                delayed(self.lines[c][b], frame, self.frame_length as int)
            } else {
                frame
            }
    }

    /// The delay lines after a buffer went through.
    pub open spec fn after(self, audio: AudioState) -> DelayState {
        DelayState {
            lines: Seq::new(
                self.lines.len(),
                |c: int|
                    Seq::new(
                        self.num_bands as nat,
                        |b: int|
                            advanced(
                                self.lines[c][b],
                                audio.band(c, b),
                                self.frame_length as int,
                            ),
                    ),
            ),
            ..self
        }
    }
}

impl View for BlockDelayBuffer {
    type V = DelayState;

    closed spec fn view(&self) -> DelayState {
        DelayState {
            frame_length: self.frame_length,
            delay: self.delay,
            num_bands: self.num_bands,
            lines: lines_of(frame_of(self.buf@), self.last_insert as int),
        }
    }
}

/// The delay lines that rings hold.
pub open spec fn lines_of(rings: Seq<Seq<Seq<Sample>>>, at: int) -> Seq<Seq<Seq<Sample>>> {
    Seq::new(rings.len(), |c: int| Seq::new(rings[c].len(), |b: int| unrolled(rings[c][b], at)))
}

proof fn lemma_lines_shaped(
    rings: Seq<Seq<Seq<Sample>>>,
    at: int,
    num_bands: int,
    delay: int,
)
    requires
        frame_shaped(rings, rings.len() as int, num_bands, delay),
        0 <= at <= delay,
    ensures
        frame_shaped(lines_of(rings, at), rings.len() as int, num_bands, delay),
{
    let lines = lines_of(rings, at);
    assert forall|c: int| 0 <= c < rings.len() implies planes_shaped(
        #[trigger] lines[c],
        num_bands,
        delay,
    ) by {
        assert(planes_shaped(rings[c], num_bands, delay));
    }
}

/// Exchanging the oldest sample of a ring for a new one moves its line by one.
proof fn lemma_ring_step(ring: Seq<Sample>, at: int, x: Sample)
    requires
        0 <= at < ring.len(),
    ensures
        unrolled(ring, at)[0] == ring[at],
        unrolled(
            ring.update(at, x),
            if at < ring.len() - 1 {
                at + 1
            } else {
                0
            },
        ) == unrolled(ring, at).skip(1).push(x),
{
    let next = if at < ring.len() - 1 {
        at + 1
    } else {
        0
    };
    assert(unrolled(ring.update(at, x), next) =~= unrolled(ring, at).skip(1).push(x));
}

/// Sends `len` samples through a ring; says where its oldest sample now is.
fn delay_samples(ring: &mut Vec<Sample>, at: usize, samples: &mut [Sample], len: usize) -> (next:
    usize)
    requires
        at < old(ring)@.len(),
        len <= old(samples)@.len(),
    ensures
        final(ring)@.len() == old(ring)@.len(),
        final(samples)@ == delayed(
            unrolled(old(ring)@, at as int),
            old(samples)@,
            len as int,
        ),
        final(samples)@.len() == old(samples)@.len(),
        unrolled(final(ring)@, next as int) == advanced(
            unrolled(old(ring)@, at as int),
            old(samples)@,
            len as int,
        ),
        next < final(ring)@.len(),
        next == (at + len) % old(ring)@.len() as int,
{
    let delay: usize = ring.len();
    let ghost line = unrolled(ring@, at as int);
    let ghost frame = samples@;
    let ghost all = line + frame.take(len as int);
    let mut i: usize = at;
    proof {
        vstd::arithmetic::div_mod::lemma_small_mod(at as nat, delay as nat);
        assert(all.skip(0) =~= all);
        assert((line + frame.take(0)) =~= line);
        assert(line.skip(0) =~= line);
    }
    for k in 0..len
        invariant
            delay == ring@.len() == line.len(),
            0 < delay,
            i < delay,
            len <= frame.len(),
            samples@.len() == frame.len(),
            all == line + frame.take(len as int),
            unrolled(ring@, i as int) == (line + frame.take(k as int)).skip(k as int),
            forall|j: int| 0 <= j < k ==> #[trigger] samples@[j] == all[j],
            forall|j: int| k <= j < frame.len() ==> #[trigger] samples@[j] == frame[j],
            i == (at + k) % delay as int,
    {
        let ghost held = unrolled(ring@, i as int);
        let x = samples[k];
        proof {
            lemma_ring_step(ring@, i as int, x);
            assert(held[0] == (line + frame.take(k as int))[k as int]);
            assert((line + frame.take(k as int))[k as int] == all[k as int]);
            assert((line + frame.take(k as int)).skip(k as int).skip(1).push(x) =~= (line
                + frame.take(k + 1)).skip(k + 1));
            lemma_next_position(at + k, delay as int);
        }
        let oldest = ring[i];
        ring[i] = x;
        samples[k] = oldest;
        i = if i < delay - 1 {
            i + 1
        } else {
            0
        };
    }
    proof {
        assert(samples@ =~= delayed(line, frame, len as int));
    }
    i
}

proof fn lemma_next_position(p: int, n: int)
    requires
        0 <= p,
        0 < n,
    ensures
        (p + 1) % n == if p % n < n - 1 {
            p % n + 1
        } else {
            0
        },
{
    vstd::arithmetic::div_mod::lemma_fundamental_div_mod(p, n);
    let q = p / n;
    let r = p % n;
    if r < n - 1 {
        assert(p + 1 == q * n + (r + 1)) by (nonlinear_arith)
            requires
                p == n * q + r,
        ;
        vstd::arithmetic::div_mod::lemma_fundamental_div_mod_converse(p + 1, n, q, r + 1);
    } else {
        assert(p + 1 == (q + 1) * n + 0) by (nonlinear_arith)
            requires
                p == n * q + r,
                r == n - 1,
        ;
        vstd::arithmetic::div_mod::lemma_fundamental_div_mod_converse(p + 1, n, q + 1, 0);
    }
}

impl BlockDelayBuffer {
    pub closed spec fn wf(&self) -> bool {
        &&& frame_shaped(
            frame_of(self.buf@),
            self.buf@.len() as int,
            self.num_bands as int,
            self.delay as int,
        )
        &&& self.last_insert < self.delay || self.delay == 0 && self.last_insert == 0
    }

    /// Creates delay lines of `delay_samples` samples of silence.
    pub fn new(
        num_channels: usize,
        num_bands: usize,
        frame_length: usize,
        delay_samples: usize,
    ) -> (r: BlockDelayBuffer)
        ensures
            r.wf(),
            r@ == (DelayState {
                frame_length,
                delay: delay_samples,
                num_bands,
                lines: silent_frame(num_channels as int, num_bands as int, delay_samples as int),
            }),
    {
        let buf = new_frame(num_channels, num_bands, delay_samples);
        let ghost made = frame_of(buf@);
        let r = BlockDelayBuffer {
            frame_length,
            delay: delay_samples,
            num_bands,
            buf,
            last_insert: 0,
        };
        proof {
            assert forall|c: int| 0 <= c < num_channels implies r@.lines[c] == made[c] by {
                assert forall|b: int| 0 <= b < num_bands implies r@.lines[c][b] == made[c][b] by {
                    assert(unrolled(made[c][b], 0) =~= made[c][b]);
                }
                assert(r@.lines[c] =~= made[c]);
            }
            assert(r@.lines =~= made);
        }
        r
    }

    /// Delays the bands of a buffer.
    pub fn delay_signal(&mut self, frame: &mut AudioBuffer)
        requires
            old(self).wf(),
            old(frame)@.wf(),
            old(self)@.lines.len() == old(frame)@.num_channels,
            old(self)@.delay > 0 ==> old(self)@.lines.len() > 0,
            old(self)@.num_bands == old(frame)@.num_bands,
            old(self)@.frame_length <= old(frame)@.num_split_frames,
        ensures
            final(self).wf(),
            final(frame)@.wf(),
            final(self)@ == old(self)@.after(old(frame)@),
            final(frame)@ == old(frame)@.with_bands(old(self)@.output()),
    {
        let ghost held = self@;
        let ghost before = frame@;
        proof {
            lemma_lines_shaped(
                frame_of(self.buf@),
                self.last_insert as int,
                self.num_bands as int,
                self.delay as int,
            );
        }
        let num_channels: usize = self.buf.len();
        let num_bands: usize = self.num_bands;
        let len: usize = self.frame_length;
        let delay: usize = self.delay;
        if delay == 0 {
            proof {
                held.lemma_no_delay(before);
            }
            return;
        }
        let start: usize = self.last_insert;
        let mut i: usize = start;
        for c in 0..num_channels
            invariant
                old(self).wf(),
                old(self)@ == held,
                delay > 0,
                start < delay,
                start == old(self).last_insert == self.last_insert,
                self.delay == delay == held.delay,
                self.num_bands == num_bands == held.num_bands == before.num_bands,
                self.frame_length == len == held.frame_length,
                len <= before.num_split_frames,
                num_channels == held.lines.len() == self.buf@.len() == old(self).buf@.len(),
                num_channels <= before.buffer_num_channels,
                before.wf(),
                frame@.wf(),
                frame_shaped(
                    frame_of(self.buf@),
                    num_channels as int,
                    num_bands as int,
                    delay as int,
                ),
                frame@ == (AudioState { channels: frame@.channels, split: frame@.split, ..before }),
                before.split is Some ==> frame@.channels == before.channels,
                c > 0 ==> i == (start + len) % delay as int,
                forall|x: int, y: int|
                    0 <= x < before.buffer_num_channels && 0 <= y < num_bands ==> #[trigger]
                    frame@.band(x, y) == if x < c {
                        (held.output())(x, y, before.band(x, y))
                    } else {
                        before.band(x, y)
                    },
                forall|x: int, y: int|
                    0 <= x < num_channels && 0 <= y < num_bands ==> if x < c {
                        unrolled(
                            #[trigger] frame_of(self.buf@)[x][y],
                            (start + len) % delay as int,
                        ) == advanced(held.lines[x][y], before.band(x, y), len as int)
                    } else {
                        frame_of(self.buf@)[x][y] == frame_of(old(self).buf@)[x][y]
                    },
        {
            for b in 0..num_bands
                invariant
                    c < num_channels,
                    old(self).wf(),
                    old(self)@ == held,
                    delay > 0,
                    start < delay,
                    start == old(self).last_insert == self.last_insert,
                    self.delay == delay == held.delay,
                    self.num_bands == num_bands == held.num_bands == before.num_bands,
                    self.frame_length == len == held.frame_length,
                    len <= before.num_split_frames,
                    num_channels == held.lines.len() == self.buf@.len() == old(self).buf@.len(),
                    num_channels <= before.buffer_num_channels,
                    before.wf(),
                    frame@.wf(),
                    frame_shaped(
                        frame_of(self.buf@),
                        num_channels as int,
                        num_bands as int,
                        delay as int,
                    ),
                    frame@ == (AudioState {
                        channels: frame@.channels,
                        split: frame@.split,
                        ..before
                    }),
                    before.split is Some ==> frame@.channels == before.channels,
                    b > 0 ==> i == (start + len) % delay as int,
                    forall|x: int, y: int|
                        0 <= x < before.buffer_num_channels && 0 <= y < num_bands ==> #[trigger]
                        frame@.band(x, y) == if x < c || x == c && y < b {
                            (held.output())(x, y, before.band(x, y))
                        } else {
                            before.band(x, y)
                        },
                    forall|x: int, y: int|
                        0 <= x < num_channels && 0 <= y < num_bands ==> if x < c || x == c && y
                            < b {
                            unrolled(
                                #[trigger] frame_of(self.buf@)[x][y],
                                (start + len) % delay as int,
                            ) == advanced(held.lines[x][y], before.band(x, y), len as int)
                        } else {
                            frame_of(self.buf@)[x][y] == frame_of(old(self).buf@)[x][y]
                        },
            {
                let ghost now = frame@;
                let ghost raw = self.buf@;
                let ghost rings = frame_of(raw);
                let ghost ring = rings[c as int][b as int];
                proof {
                    now.lemma_band_length(c as int, b as int);
                    assert(rings[c as int] == planes_of(self.buf@[c as int]@));
                    assert(planes_shaped(rings[c as int], num_bands as int, delay as int));
                    assert(ring == self.buf@[c as int]@[b as int]@);
                    assert(ring == frame_of(old(self).buf@)[c as int][b as int]);
                    assert(held.lines[c as int][b as int] == unrolled(ring, start as int));
                }
                let samples = frame.split_band_mut(c, b);
                i = delay_samples(&mut self.buf[c][b], start, samples, len);
                proof {
                    let made = self.buf@[c as int]@[b as int];
                    assert(self.buf@ == raw.update(c as int, self.buf@[c as int]));
                    assert(self.buf@[c as int]@ == raw[c as int]@.update(b as int, made));
                    lemma_planes_update(raw[c as int]@, b as int, made);
                    lemma_frame_update(raw, c as int, self.buf@[c as int]);
                    assert(frame_of(self.buf@) == rings.update(
                        c as int,
                        rings[c as int].update(b as int, made@),
                    ));
                    now.lemma_with_band(
                        c as int,
                        b as int,
                        delayed(
                            held.lines[c as int][b as int],
                            now.band(c as int, b as int),
                            len as int,
                        ),
                    );
                }
            }
        }
        self.last_insert = i;
        proof {
            lemma_with_bands(before, frame@, held.output());
            let rings = frame_of(self.buf@);
            let after = held.after(before);
            assert forall|x: int| 0 <= x < num_channels implies self@.lines[x]
                == after.lines[x] by {
                assert(planes_shaped(rings[x], num_bands as int, delay as int));
                assert forall|y: int| 0 <= y < num_bands implies self@.lines[x][y]
                    == after.lines[x][y] by {
                    assert(rings[x][y].len() == delay);
                }
                assert(self@.lines[x] =~= after.lines[x]);
            }
            assert(self@.lines =~= after.lines);
        }
    }
}

impl DelayState {
    /// Empty delay lines change nothing.
    proof fn lemma_no_delay(self, audio: AudioState)
        requires
            self.wf(),
            audio.wf(),
            self.delay == 0,
            self.lines.len() <= audio.num_channels,
            self.num_bands == audio.num_bands,
            self.frame_length <= audio.num_split_frames,
        ensures
            self.after(audio) == self,
            audio.with_bands(self.output()) == audio,
    {
        let len = self.frame_length as int;
        assert forall|c: int, b: int|
            0 <= c < audio.buffer_num_channels && 0 <= b < audio.num_bands implies #[trigger]
            audio.band(c, b) == (self.output())(c, b, audio.band(c, b)) by {
            audio.lemma_band_length(c, b);
            if c < self.lines.len() {
                assert(planes_shaped(self.lines[c], self.num_bands as int, 0));
                assert(delayed(self.lines[c][b], audio.band(c, b), len) =~= audio.band(c, b));
            }
        }
        lemma_with_bands(audio, audio, self.output());
        assert forall|c: int| 0 <= c < self.lines.len() implies self.after(audio).lines[c]
            == self.lines[c] by {
            assert(planes_shaped(self.lines[c], self.num_bands as int, 0));
            assert forall|b: int| 0 <= b < self.num_bands implies self.after(audio).lines[c][b]
                == self.lines[c][b] by {
                audio.lemma_band_length(c, b);
                assert(self.after(audio).lines[c][b] =~= self.lines[c][b]);
            }
            assert(self.after(audio).lines[c] =~= self.lines[c]);
        }
        assert(self.after(audio).lines =~= self.lines);
    }
}

/// Frames, one after the other.
pub open spec fn stream(frames: Seq<Seq<Sample>>) -> Seq<Sample>
    decreases frames.len(),
{
    if frames.len() == 0 {
        seq![]
    } else {
        frames[0] + stream(frames.skip(1))
    }
}

/// What comes out of a delay line as frames go in, one after the other.
pub open spec fn output_stream(line: Seq<Sample>, frames: Seq<Seq<Sample>>, len: int) -> Seq<
    Sample,
>
    decreases frames.len(),
{
    if frames.len() == 0 {
        seq![]
    } else {
        delayed(line, frames[0], len) + output_stream(
            advanced(line, frames[0], len),
            frames.skip(1),
            len,
        )
    }
}

/// Frames that go through a delay line come out as one stream, behind what the
/// line held before: a new line of `delay` samples delays the signal by exactly
/// that many.
pub proof fn lemma_delay_shifts_stream(line: Seq<Sample>, frames: Seq<Seq<Sample>>, len: int)
    requires
        len >= 0,
        forall|i: int| 0 <= i < frames.len() ==> (#[trigger] frames[i]).len() == len,
    ensures
        output_stream(line, frames, len) == (line + stream(frames)).take(
            stream(frames).len() as int,
        ),
    decreases frames.len(),
{
    if frames.len() == 0 {
        assert(output_stream(line, frames, len) =~= (line + stream(frames)).take(0));
    } else {
        let first = frames[0];
        let rest = frames.skip(1);
        let next = advanced(line, first, len);
        assert forall|i: int| 0 <= i < rest.len() implies (#[trigger] rest[i]).len() == len by {
            assert(rest[i] == frames[i + 1]);
        }
        lemma_delay_shifts_stream(next, rest, len);
        assert(first.take(len) =~= first);
        assert(first.skip(len) =~= Seq::<Sample>::empty());
        let whole = line + stream(frames);
        assert(whole =~= (line + first) + stream(rest));
        assert(output_stream(line, frames, len) =~= whole.take(stream(frames).len() as int));
    }
}

impl DelayState {
    /// Whether the delay takes a buffer, with the frames of its bands whole.
    pub open spec fn takes(self, audio: AudioState) -> bool {
        &&& audio.wf()
        &&& audio.num_channels == self.lines.len()
        &&& audio.num_bands == self.num_bands
        &&& audio.num_split_frames == self.frame_length
    }

    /// What the delay makes of buffers that go through, one after the other.
    pub open spec fn outputs(self, audios: Seq<AudioState>) -> Seq<AudioState>
        decreases audios.len(),
    {
        if audios.len() == 0 {
            seq![]
        } else {
            seq![audios[0].with_bands(self.output())] + self.after(audios[0]).outputs(
                audios.skip(1),
            )
        }
    }
}

/// One band of one channel of a run of buffers.
pub open spec fn bands_in(audios: Seq<AudioState>, c: int, b: int) -> Seq<Seq<Sample>> {
    Seq::new(audios.len(), |i: int| audios[i].band(c, b))
}

/// The outputs of a delay, band by band, are those of its lines.
proof fn lemma_outputs_of_lines(state: DelayState, audios: Seq<AudioState>, c: int, b: int)
    requires
        forall|i: int| 0 <= i < audios.len() ==> state.takes(#[trigger] audios[i]),
        0 <= c < state.lines.len(),
        0 <= b < state.num_bands,
    ensures
        state.outputs(audios).len() == audios.len(),
        stream(bands_in(state.outputs(audios), c, b)) == output_stream(
            state.lines[c][b],
            bands_in(audios, c, b),
            state.frame_length as int,
        ),
    decreases audios.len(),
{
    let outputs = state.outputs(audios);
    let made = bands_in(outputs, c, b);
    let inputs = bands_in(audios, c, b);
    if audios.len() > 0 {
        let rest = audios.skip(1);
        let next = state.after(audios[0]);
        assert forall|i: int| 0 <= i < rest.len() implies next.takes(#[trigger] rest[i]) by {
            assert(state.takes(audios[i + 1]));
        }
        lemma_outputs_of_lines(next, rest, c, b);
        assert(state.takes(audios[0]));
        let first = audios[0].with_bands(state.output());
        if audios[0].split is Some {
            assert(planes_shaped(
                audios[0].split->0[c],
                audios[0].num_bands as int,
                audios[0].num_split_frames as int,
            ));
        }
        assert(first.band(c, b) == delayed(
            state.lines[c][b],
            audios[0].band(c, b),
            state.frame_length as int,
        ));
        assert(made.skip(1) =~= bands_in(next.outputs(rest), c, b));
        assert(inputs.skip(1) =~= bands_in(rest, c, b));
        assert(made[0] == first.band(c, b));
    }
}

/// A delay shifts every band of every channel: as buffers go through, each comes
/// out as one stream behind what its line held before, so a new delay delays the
/// signal by exactly its number of samples.
pub proof fn lemma_delay_shifts_every_band(
    state: DelayState,
    audios: Seq<AudioState>,
    c: int,
    b: int,
)
    requires
        forall|i: int| 0 <= i < audios.len() ==> state.takes(#[trigger] audios[i]),
        0 <= c < state.lines.len(),
        0 <= b < state.num_bands,
    ensures
        state.outputs(audios).len() == audios.len(),
        ({
            let went_in = stream(bands_in(audios, c, b));
            stream(bands_in(state.outputs(audios), c, b)) == (state.lines[c][b] + went_in).take(
                went_in.len() as int,
            )
        }),
{
    let inputs = bands_in(audios, c, b);
    lemma_outputs_of_lines(state, audios, c, b);
    assert forall|i: int| 0 <= i < inputs.len() implies (#[trigger] inputs[i]).len()
        == state.frame_length by {
        assert(state.takes(audios[i]));
        audios[i].lemma_band_length(c, b);
    }
    lemma_delay_shifts_stream(state.lines[c][b], inputs, state.frame_length as int);
}

/// One step of a delay, band by band: what comes out, followed by what the line
/// keeps, is what the line held, followed by what went in; as much comes out as
/// went in. The channels beyond those of the delay, and the full-band channels of
/// a signal in several bands, stay.
pub proof fn lemma_delay_keeps_every_sample(state: DelayState, audio: AudioState, c: int, b: int)
    requires
        state.wf(),
        state.takes(audio),
        0 <= c < audio.buffer_num_channels,
        0 <= b < audio.num_bands,
    ensures
        ({
            let after = state.after(audio);
            let out = audio.with_bands(state.output());
            &&& out.num_bands > 1 ==> out.channels == audio.channels
            &&& after.delay == state.delay
            &&& after.frame_length == state.frame_length
            &&& after.num_bands == state.num_bands
            &&& after.lines.len() == state.lines.len()
            &&& out.band(c, b).len() == audio.band(c, b).len()
            &&& c < state.lines.len() ==> out.band(c, b) + after.lines[c][b] == state.lines[c][b]
                + audio.band(c, b)
            &&& c >= state.lines.len() ==> out.band(c, b) == audio.band(c, b)
        }),
{
    let after = state.after(audio);
    let out = audio.with_bands(state.output());
    audio.lemma_band_length(c, b);
    if audio.split is Some {
        assert(planes_shaped(
            audio.split->0[c],
            audio.num_bands as int,
            audio.num_split_frames as int,
        ));
    }
    assert(out.band(c, b) == (state.output())(c, b, audio.band(c, b)));
    if c < state.lines.len() {
        assert(out.band(c, b) + after.lines[c][b] =~= state.lines[c][b] + audio.band(c, b));
    }
}

} // verus!
