//! Sub-frames: a 10 ms chunk of split-band audio is processed in two halves.
//!
//! Frames and sub-frame views are indexed `[band][channel][sample]`.
use crate::audio_buffer::{
    average, lemma_average_takes_in_every_plane, lemma_with_bands, running_sum, AudioBuffer,
    AudioState,
};
use crate::planes::{
    copy_into_frame, frame_of, frame_shaped, inner_count, lemma_frame_update, planes_of,
    planes_shaped, spliced,
};
use crate::sample::{of_integer, product, quotient, sum, Sample};
use vstd::prelude::*;

verus! {

/// Samples per band in a 10 ms chunk.
pub const SPLIT_BAND_SIZE: usize = 160;

/// Samples per band in a sub-frame.
pub const SUB_FRAME_LENGTH: usize = 80;

/// The samples of a buffer's bands from `offset` on, `len` of each.
pub open spec fn bands_of(
    state: AudioState,
    num_bands: int,
    num_channels: int,
    offset: int,
    len: int,
) -> Seq<Seq<Seq<Sample>>> {
    Seq::new(
        num_bands as nat,
        |b: int|
            Seq::new(
                num_channels as nat,
                |c: int| state.band(c, b).subrange(offset, offset + len),
            ),
    )
}

/// Copies `len` samples of each band, from `offset` on, into `frame`.
fn copy_bands(
    buffer: &AudioBuffer,
    num_channels: usize,
    offset: usize,
    len: usize,
    frame: &mut Vec<Vec<Vec<Sample>>>,
)
    requires
        buffer@.wf(),
        frame_shaped(
            frame_of(old(frame)@),
            old(frame)@.len() as int,
            num_channels as int,
            len as int,
        ),
        old(frame)@.len() <= buffer@.num_bands,
        num_channels <= buffer@.buffer_num_channels,
        offset + len <= buffer@.num_split_frames,
    ensures
        frame_of(final(frame)@) == bands_of(
            buffer@,
            old(frame)@.len() as int,
            num_channels as int,
            offset as int,
            len as int,
        ),
{
    let num_bands: usize = frame.len();
    let ghost all = bands_of(
        buffer@,
        num_bands as int,
        num_channels as int,
        offset as int,
        len as int,
    );
    for b in 0..num_bands
        invariant
            buffer@.wf(),
            num_bands == frame@.len(),
            num_bands <= buffer@.num_bands,
            num_channels <= buffer@.buffer_num_channels,
            offset + len <= buffer@.num_split_frames,
            all == bands_of(
                buffer@,
                num_bands as int,
                num_channels as int,
                offset as int,
                len as int,
            ),
            frame_shaped(frame_of(frame@), num_bands as int, num_channels as int, len as int),
            forall|k: int| 0 <= k < b ==> #[trigger] frame_of(frame@)[k] == all[k],
    {
        let ghost before = frame_of(frame@);
        for c in 0..num_channels
            invariant
                buffer@.wf(),
                b < num_bands,
                num_bands == frame@.len(),
                num_bands <= buffer@.num_bands,
                num_channels <= buffer@.buffer_num_channels,
                offset + len <= buffer@.num_split_frames,
                before.len() == num_bands,
                frame_shaped(frame_of(frame@), num_bands as int, num_channels as int, len as int),
                forall|k: int| 0 <= k < num_bands && k != b ==> #[trigger] frame_of(frame@)[k]
                    == before[k],
                forall|k: int|
                    0 <= k < c ==> #[trigger] frame_of(frame@)[b as int][k] == buffer@.band(
                        k,
                        b as int,
                    ).subrange(offset as int, offset + len),
        {
            let samples = buffer.split_band(c, b);
            let ghost now = frame_of(frame@);
            proof {
                buffer@.lemma_band_length(c as int, b as int);
                assert(planes_shaped(now[b as int], num_channels as int, len as int));
                assert(spliced(
                    samples@.subrange(offset as int, offset + len),
                    now[b as int][c as int],
                    0,
                ) =~= samples@.subrange(offset as int, offset + len));
            }
            copy_into_frame(samples, offset, len, frame, b, c, 0);
        }
        assert(frame_of(frame@)[b as int] =~= all[b as int]);
    }
    assert(frame_of(frame@) =~= all);
}

/// Copies a buffer's bands into a frame.
pub fn copy_buffer_into_frame(
    buffer: &AudioBuffer,
    num_bands: usize,
    num_channels: usize,
    frame: &mut Vec<Vec<Vec<Sample>>>,
)
    requires
        buffer@.wf(),
        num_bands <= buffer@.num_bands,
        num_channels <= buffer@.buffer_num_channels,
        buffer@.num_split_frames >= SPLIT_BAND_SIZE,
        frame_shaped(
            frame_of(old(frame)@),
            num_bands as int,
            num_channels as int,
            SPLIT_BAND_SIZE as int,
        ),
    ensures
        frame_of(final(frame)@) == bands_of(
            buffer@,
            num_bands as int,
            num_channels as int,
            0,
            SPLIT_BAND_SIZE as int,
        ),
{
    copy_bands(buffer, num_channels, 0, SPLIT_BAND_SIZE, frame);
}

/// Fills a sub-frame view from a buffer.
pub fn fill_sub_frame_from_audio_buffer(
    frame: &AudioBuffer,
    sub_frame_index: usize,
    sub_frame_view: &mut Vec<Vec<Vec<Sample>>>,
)
    requires
        frame@.wf(),
        sub_frame_index <= 1,
        frame@.num_split_frames >= (sub_frame_index + 1) * SUB_FRAME_LENGTH,
        frame_shaped(
            frame_of(old(sub_frame_view)@),
            frame@.num_bands as int,
            frame@.num_channels as int,
            SUB_FRAME_LENGTH as int,
        ),
    ensures
        frame_of(final(sub_frame_view)@) == bands_of(
            frame@,
            frame@.num_bands as int,
            frame@.num_channels as int,
            sub_frame_index * SUB_FRAME_LENGTH,
            SUB_FRAME_LENGTH as int,
        ),
{
    let offset: usize = sub_frame_index * SUB_FRAME_LENGTH;
    copy_bands(frame, frame.num_channels(), offset, SUB_FRAME_LENGTH, sub_frame_view);
}

/// What writing a sub-frame view makes of one band of one channel.
pub open spec fn written(view: Seq<Seq<Seq<Sample>>>, offset: int) -> spec_fn(
    int,
    int,
    Seq<Sample>,
) -> Seq<Sample> {
    |c: int, b: int, samples: Seq<Sample>|
        if b < view.len() && c < inner_count(view) {
            spliced(view[b][c], samples, offset)
        } else {
            samples
        }
}

/// Writes a sub-frame view back into a buffer.
pub fn write_sub_frame_to_audio_buffer(
    sub_frame_view: &Vec<Vec<Vec<Sample>>>,
    sub_frame_index: usize,
    frame: &mut AudioBuffer,
)
    requires
        old(frame)@.wf(),
        old(frame)@.num_split_frames >= (sub_frame_index + 1) * SUB_FRAME_LENGTH,
        inner_count(frame_of(sub_frame_view@)) <= old(frame)@.buffer_num_channels,
        sub_frame_view@.len() <= old(frame)@.num_bands,
        frame_shaped(
            frame_of(sub_frame_view@),
            sub_frame_view@.len() as int,
            inner_count(frame_of(sub_frame_view@)),
            SUB_FRAME_LENGTH as int,
        ),
    ensures
        final(frame)@.wf(),
        final(frame)@ == old(frame)@.with_bands(
            written(frame_of(sub_frame_view@), sub_frame_index * SUB_FRAME_LENGTH),
        ),
{
    let num_channels: usize = if sub_frame_view.len() > 0 {
        sub_frame_view[0].len()
    } else {
        0
    };
    let offset: usize = sub_frame_index * SUB_FRAME_LENGTH;
    let num_bands: usize = sub_frame_view.len();
    let ghost before = frame@;
    let ghost view = frame_of(sub_frame_view@);
    let ghost f = written(view, offset as int);
    for b in 0..num_bands
        invariant
            before.wf(),
            frame@.wf(),
            offset + SUB_FRAME_LENGTH <= before.num_split_frames,
            num_bands <= before.num_bands,
            num_channels <= before.buffer_num_channels,
            view == frame_of(sub_frame_view@),
            f == written(view, offset as int),
            num_bands > 0 ==> num_channels == inner_count(view),
            frame_shaped(view, num_bands as int, num_channels as int, SUB_FRAME_LENGTH as int),
            frame@ == (AudioState { channels: frame@.channels, split: frame@.split, ..before }),
            before.split is Some ==> frame@.channels == before.channels,
            forall|x: int, y: int|
                0 <= x < before.buffer_num_channels && 0 <= y < before.num_bands
                    ==> #[trigger] frame@.band(x, y) == if y < b {
                    f(x, y, before.band(x, y))
                } else {
                    before.band(x, y)
                },
    {
        for c in 0..num_channels
            invariant
                b < num_bands,
                before.wf(),
                frame@.wf(),
                offset + SUB_FRAME_LENGTH <= before.num_split_frames,
                num_bands <= before.num_bands,
                num_channels <= before.buffer_num_channels,
                view == frame_of(sub_frame_view@),
                f == written(view, offset as int),
                num_channels == inner_count(view),
                frame_shaped(view, num_bands as int, num_channels as int, SUB_FRAME_LENGTH as int),
                frame@ == (AudioState { channels: frame@.channels, split: frame@.split, ..before }),
                before.split is Some ==> frame@.channels == before.channels,
                forall|x: int, y: int|
                    0 <= x < before.buffer_num_channels && 0 <= y < before.num_bands
                        ==> #[trigger] frame@.band(x, y) == if y < b || y == b && x < c {
                        f(x, y, before.band(x, y))
                    } else {
                        before.band(x, y)
                    },
        {
            let ghost now = frame@;
            proof {
                assert(planes_shaped(view[b as int], num_channels as int, SUB_FRAME_LENGTH as int));
                assert(view[b as int] == planes_of(sub_frame_view@[b as int]@));
                assert(view[b as int][c as int] == sub_frame_view@[b as int]@[c as int]@);
                now.lemma_band_length(c as int, b as int);
                now.lemma_with_band(
                    c as int,
                    b as int,
                    spliced(
                        view[b as int][c as int],
                        now.band(c as int, b as int),
                        offset as int,
                    ),
                );
            }
            frame.write_band(c, b, sub_frame_view[b][c].as_slice(), offset);
        }
    }
    proof {
        lemma_with_bands(before, frame@, f);
    }
}

/// What a sub-frame is filled with from a render frame: all channels, or where
/// the view has only one channel, channel 0, which holds the average of all if
/// a proper downmix is needed.
pub open spec fn render_sub_frame(
    proper_downmix_needed: bool,
    frame: Seq<Seq<Seq<Sample>>>,
    view_num_channels: int,
    offset: int,
) -> Seq<Seq<Seq<Sample>>> {
    let frame_num_channels = inner_count(frame);
    Seq::new(
        frame.len(),
        |b: int|
            Seq::new(
                view_num_channels as nat,
                |c: int|
                    if frame_num_channels > view_num_channels && proper_downmix_needed {
                        Seq::new(
                            SUB_FRAME_LENGTH as nat,
                            |k: int| average(frame[b], frame_num_channels, offset + k),
                        )
                    } else {
                        frame[b][c].subrange(offset, offset + SUB_FRAME_LENGTH)
                    },
            ),
    )
}

/// What a proper downmix leaves in the render frame: the averages replace the
/// samples of channel 0.
pub open spec fn downmixed(frame: Seq<Seq<Seq<Sample>>>, offset: int) -> Seq<
    Seq<Seq<Sample>>,
> {
    let frame_num_channels = inner_count(frame);
    Seq::new(
        frame.len(),
        |b: int|
            frame[b].update(
                0,
                spliced(
                    Seq::new(
                        SUB_FRAME_LENGTH as nat,
                        |k: int| average(frame[b], frame_num_channels, offset + k),
                    ),
                    frame[b][0],
                    offset,
                ),
            ),
    )
}

/// Fills a sub-frame view from a render frame, mixing it down where the view has
/// one channel and the frame has more.
pub fn fill_sub_frame_from_render_frame(
    proper_downmix_needed: bool,
    render_frame: &mut Vec<Vec<Vec<Sample>>>,
    sub_frame_index: usize,
    sub_frame_view: &mut Vec<Vec<Vec<Sample>>>,
)
    requires
        sub_frame_index <= 1,
        old(render_frame)@.len() > 0,
        0 < inner_count(frame_of(old(render_frame)@)) <= isize::MAX,
        inner_count(frame_of(old(sub_frame_view)@)) == inner_count(frame_of(old(render_frame)@))
            || inner_count(frame_of(old(sub_frame_view)@)) == 1,
        frame_shaped(
            frame_of(old(render_frame)@),
            old(render_frame)@.len() as int,
            inner_count(frame_of(old(render_frame)@)),
            SPLIT_BAND_SIZE as int,
        ),
        frame_shaped(
            frame_of(old(sub_frame_view)@),
            old(render_frame)@.len() as int,
            inner_count(frame_of(old(sub_frame_view)@)),
            SUB_FRAME_LENGTH as int,
        ),
    ensures
        frame_of(final(sub_frame_view)@) == render_sub_frame(
            proper_downmix_needed,
            frame_of(old(render_frame)@),
            inner_count(frame_of(old(sub_frame_view)@)),
            sub_frame_index * SUB_FRAME_LENGTH,
        ),
        frame_of(final(render_frame)@) == if inner_count(frame_of(old(render_frame)@))
            > inner_count(frame_of(old(sub_frame_view)@)) && proper_downmix_needed {
            downmixed(frame_of(old(render_frame)@), sub_frame_index * SUB_FRAME_LENGTH)
        } else {
            frame_of(old(render_frame)@)
        },
{
    let frame_num_channels: usize = render_frame[0].len();
    let view_num_channels: usize = sub_frame_view[0].len();
    let offset: usize = sub_frame_index * SUB_FRAME_LENGTH;
    let num_bands: usize = render_frame.len();
    let ghost before = frame_of(render_frame@);
    if frame_num_channels > view_num_channels && proper_downmix_needed {
        average_into_first(render_frame, frame_num_channels, offset);
    }
    let ghost mixed = frame_of(render_frame@);
    let ghost all = render_sub_frame(
        proper_downmix_needed,
        before,
        view_num_channels as int,
        offset as int,
    );
    proof {
        assert forall|b: int, c: int|
            0 <= b < num_bands && 0 <= c < view_num_channels implies mixed[b][c].len()
            == SPLIT_BAND_SIZE && #[trigger] all[b][c] == mixed[b][c].subrange(
            offset as int,
            offset + SUB_FRAME_LENGTH,
        ) by {
            assert(planes_shaped(before[b], frame_num_channels as int, SPLIT_BAND_SIZE as int));
            assert(all[b][c] =~= mixed[b][c].subrange(offset as int, offset + SUB_FRAME_LENGTH));
        }
        assert(frame_shaped(
            mixed,
            num_bands as int,
            frame_num_channels as int,
            SPLIT_BAND_SIZE as int,
        ));
    }
    for b in 0..num_bands
        invariant
            num_bands == sub_frame_view@.len() == render_frame@.len(),
            offset <= 80,
            mixed == frame_of(render_frame@),
            frame_shaped(
                mixed,
                num_bands as int,
                frame_num_channels as int,
                SPLIT_BAND_SIZE as int,
            ),
            view_num_channels <= frame_num_channels,
            frame_shaped(
                frame_of(sub_frame_view@),
                num_bands as int,
                view_num_channels as int,
                SUB_FRAME_LENGTH as int,
            ),
            all.len() == num_bands,
            forall|k: int| 0 <= k < num_bands ==> (#[trigger] all[k]).len() == view_num_channels,
            forall|k: int, c: int|
                0 <= k < num_bands && 0 <= c < view_num_channels ==> #[trigger] all[k][c]
                    == mixed[k][c].subrange(offset as int, offset + SUB_FRAME_LENGTH),
            forall|k: int| 0 <= k < b ==> #[trigger] frame_of(sub_frame_view@)[k] == all[k],
    {
        let ghost held = frame_of(sub_frame_view@);
        for c in 0..view_num_channels
            invariant
                b < num_bands,
                num_bands == sub_frame_view@.len() == render_frame@.len(),
                offset <= 80,
                mixed == frame_of(render_frame@),
                frame_shaped(
                    mixed,
                    num_bands as int,
                    frame_num_channels as int,
                    SPLIT_BAND_SIZE as int,
                ),
                view_num_channels <= frame_num_channels,
                frame_shaped(
                    frame_of(sub_frame_view@),
                    num_bands as int,
                    view_num_channels as int,
                    SUB_FRAME_LENGTH as int,
                ),
                held.len() == num_bands,
                forall|k: int| 0 <= k < num_bands && k != b ==> #[trigger] frame_of(
                    sub_frame_view@,
                )[k] == held[k],
                forall|k: int|
                    0 <= k < c ==> #[trigger] frame_of(sub_frame_view@)[b as int][k]
                        == mixed[b as int][k].subrange(offset as int, offset + SUB_FRAME_LENGTH),
        {
            let ghost now = frame_of(sub_frame_view@);
            proof {
                assert(planes_shaped(
                    mixed[b as int],
                    frame_num_channels as int,
                    SPLIT_BAND_SIZE as int,
                ));
                assert(mixed[b as int] == planes_of(render_frame@[b as int]@));
                assert(mixed[b as int][c as int] == render_frame@[b as int]@[c as int]@);
                assert(planes_shaped(
                    now[b as int],
                    view_num_channels as int,
                    SUB_FRAME_LENGTH as int,
                ));
                let part = mixed[b as int][c as int].subrange(
                    offset as int,
                    offset + SUB_FRAME_LENGTH,
                );
                assert(spliced(part, now[b as int][c as int], 0) =~= part);
            }
            copy_into_frame(
                render_frame[b][c].as_slice(),
                offset,
                SUB_FRAME_LENGTH,
                sub_frame_view,
                b,
                c,
                0,
            );
        }
        assert(frame_of(sub_frame_view@)[b as int] =~= all[b as int]);
    }
    assert(frame_of(sub_frame_view@) =~= all);
}

/// Replaces the samples of channel 0 by the average over all channels.
fn average_into_first(frame: &mut Vec<Vec<Vec<Sample>>>, num_channels: usize, offset: usize)
    requires
        offset <= 80,
        1 < num_channels <= isize::MAX,
        num_channels == inner_count(frame_of(old(frame)@)),
        frame_shaped(
            frame_of(old(frame)@),
            old(frame)@.len() as int,
            num_channels as int,
            SPLIT_BAND_SIZE as int,
        ),
    ensures
        final(frame)@.len() == old(frame)@.len(),
        frame_of(final(frame)@) == downmixed(frame_of(old(frame)@), offset as int),
{
    let num_bands: usize = frame.len();
    let ghost before = frame_of(frame@);
    let ghost all = downmixed(before, offset as int);
    for b in 0..num_bands
        invariant
            offset <= 80,
            1 < num_channels <= isize::MAX,
            num_bands == frame@.len(),
            before.len() == num_bands,
            inner_count(before) == num_channels,
            frame_shaped(before, num_bands as int, num_channels as int, SPLIT_BAND_SIZE as int),
            all == downmixed(before, offset as int),
            forall|k: int| 0 <= k < b ==> #[trigger] frame_of(frame@)[k] == all[k],
            forall|k: int| b <= k < num_bands ==> #[trigger] frame_of(frame@)[k] == before[k],
    {
        proof {
            assert(frame_of(frame@)[b as int] == planes_of(frame@[b as int]@));
            assert(planes_shaped(before[b as int], num_channels as int, SPLIT_BAND_SIZE as int));
        }
        let ghost held = frame@;
        mix_down(&mut frame[b], num_channels, offset);
        proof {
            lemma_frame_update(held, b as int, frame@[b as int]);
            assert(frame_of(frame@)[b as int] =~= all[b as int]);
        }
    }
    assert(frame_of(frame@) =~= all);
}

/// Replaces the samples of channel 0 of one band by the average over all
/// channels.
fn mix_down(band: &mut Vec<Vec<Sample>>, num_channels: usize, offset: usize)
    requires
        offset <= 80,
        1 < num_channels <= isize::MAX,
        planes_shaped(planes_of(old(band)@), num_channels as int, SPLIT_BAND_SIZE as int),
    ensures
        planes_of(final(band)@) == planes_of(old(band)@).update(
            0,
            spliced(
                Seq::new(
                    SUB_FRAME_LENGTH as nat,
                    |k: int| average(planes_of(old(band)@), num_channels as int, offset + k),
                ),
                planes_of(old(band)@)[0],
                offset as int,
            ),
        ),
{
    let ghost planes = planes_of(band@);
    let ghost means = Seq::new(
        SUB_FRAME_LENGTH as nat,
        |k: int| average(planes, num_channels as int, offset + k),
    );
    let scale = Sample::from_i32(1).over(Sample::from_count(num_channels));
    assert(planes[0] == band@[0]@);
    for k in 0..SUB_FRAME_LENGTH
        invariant
            offset <= 80,
            1 < num_channels,
            planes_shaped(planes, num_channels as int, SPLIT_BAND_SIZE as int),
            scale == quotient(of_integer(1), of_integer(num_channels as int)),
            band@.len() == num_channels,
            forall|c: int| 0 < c < num_channels ==> (#[trigger] band@[c])@ == planes[c],
            band@[0]@.len() == SPLIT_BAND_SIZE,
            forall|i: int|
                0 <= i < SPLIT_BAND_SIZE ==> #[trigger] band@[0]@[i] == if offset <= i < offset
                    + k {
                    average(planes, num_channels as int, i)
                } else {
                    planes[0][i]
                },
    {
        let mut value = band[0][offset + k];
        for c in 1..num_channels
            invariant
                offset <= 80,
                k < 80,
                planes_shaped(planes, num_channels as int, SPLIT_BAND_SIZE as int),
                band@.len() == num_channels,
                forall|i: int| 0 < i < num_channels ==> (#[trigger] band@[i])@ == planes[i],
                value == running_sum(planes, c as int, offset + k),
        {
            assert(planes[c as int].len() == SPLIT_BAND_SIZE);
            value = value.plus(band[c][offset + k]);
        }
        band[0][offset + k] = value.times(scale);
    }
    proof {
        let wanted = planes.update(0, spliced(means, planes[0], offset as int));
        assert(planes[0].len() == SPLIT_BAND_SIZE);
        assert(band@[0]@ =~= spliced(means, planes[0], offset as int));
        assert(planes_of(band@) =~= wanted);
    }
}

/// One band of a state whose bands were replaced.
pub proof fn lemma_band_replaced(
    state: AudioState,
    f: spec_fn(int, int, Seq<Sample>) -> Seq<Sample>,
    c: int,
    b: int,
)
    requires
        state.wf(),
        0 <= c < state.buffer_num_channels,
        0 <= b < state.num_bands,
    ensures
        state.with_bands(f).band(c, b) == f(c, b, state.band(c, b)),
{
    if state.split is Some {
        assert(planes_shaped(
            state.split->0[c],
            state.num_bands as int,
            state.num_split_frames as int,
        ));
    }
}

/// A sub-frame that was written reads back as it was written, and the samples
/// of the other sub-frame stay.
pub proof fn lemma_sub_frame_read_after_write(
    state: AudioState,
    view: Seq<Seq<Seq<Sample>>>,
    num_channels: int,
    sub_frame_index: int,
)
    requires
        state.wf(),
        0 <= sub_frame_index <= 1,
        state.num_split_frames >= SPLIT_BAND_SIZE,
        0 <= num_channels <= state.buffer_num_channels,
        frame_shaped(view, state.num_bands as int, num_channels, SUB_FRAME_LENGTH as int),
    ensures
        ({
            let after = state.with_bands(written(view, sub_frame_index * SUB_FRAME_LENGTH));
            let other = (1 - sub_frame_index) * SUB_FRAME_LENGTH;
            &&& bands_of(
                after,
                state.num_bands as int,
                num_channels,
                sub_frame_index * SUB_FRAME_LENGTH,
                SUB_FRAME_LENGTH as int,
            ) == view
            &&& bands_of(
                after,
                state.num_bands as int,
                num_channels,
                other,
                SUB_FRAME_LENGTH as int,
            ) == bands_of(
                state,
                state.num_bands as int,
                num_channels,
                other,
                SUB_FRAME_LENGTH as int,
            )
        }),
{
    let offset = sub_frame_index * SUB_FRAME_LENGTH;
    let other = (1 - sub_frame_index) * SUB_FRAME_LENGTH;
    let len = SUB_FRAME_LENGTH as int;
    let f = written(view, offset);
    let after = state.with_bands(f);
    let read = bands_of(after, state.num_bands as int, num_channels, offset, len);
    let rest = bands_of(after, state.num_bands as int, num_channels, other, len);
    let rest_before = bands_of(state, state.num_bands as int, num_channels, other, len);
    assert forall|b: int| 0 <= b < view.len() implies read[b] == view[b] && rest[b]
        == rest_before[b] by {
        assert(planes_shaped(view[b], num_channels, len));
        assert(planes_shaped(view[0], num_channels, len));
        assert forall|c: int| 0 <= c < num_channels implies read[b][c] == view[b][c] && rest[b][c]
            == rest_before[b][c] by {
            lemma_band_replaced(state, f, c, b);
            state.lemma_band_length(c, b);
            assert(read[b][c] =~= view[b][c]);
            assert(rest[b][c] =~= rest_before[b][c]);
        }
        assert(read[b] =~= view[b]);
        assert(rest[b] =~= rest_before[b]);
    }
    assert(read =~= view);
    assert(rest =~= rest_before);
}

/// Writing back the sub-frame that was read changes nothing.
pub proof fn lemma_sub_frame_write_of_read(
    state: AudioState,
    num_channels: int,
    sub_frame_index: int,
)
    requires
        state.wf(),
        0 <= sub_frame_index <= 1,
        state.num_split_frames >= SPLIT_BAND_SIZE,
        0 <= num_channels <= state.buffer_num_channels,
    ensures
        state.with_bands(
            written(
                bands_of(
                    state,
                    state.num_bands as int,
                    num_channels,
                    sub_frame_index * SUB_FRAME_LENGTH,
                    SUB_FRAME_LENGTH as int,
                ),
                sub_frame_index * SUB_FRAME_LENGTH,
            ),
        ) == state,
{
    let offset = sub_frame_index * SUB_FRAME_LENGTH;
    let view = bands_of(
        state,
        state.num_bands as int,
        num_channels,
        offset,
        SUB_FRAME_LENGTH as int,
    );
    let f = written(view, offset);
    assert forall|c: int, b: int|
        0 <= c < state.buffer_num_channels && 0 <= b < state.num_bands implies #[trigger]
        state.band(c, b) == f(c, b, state.band(c, b)) by {
        state.lemma_band_length(c, b);
        if c < inner_count(view) {
            assert(spliced(view[b][c], state.band(c, b), offset) =~= state.band(c, b));
        }
    }
    lemma_with_bands(state, state, f);
}

/// Writing both sub-frames replaces every band by the one after the other.
pub proof fn lemma_sub_frames_replace_bands(
    state: AudioState,
    first: Seq<Seq<Seq<Sample>>>,
    second: Seq<Seq<Seq<Sample>>>,
    num_channels: int,
)
    requires
        state.wf(),
        state.num_split_frames == SPLIT_BAND_SIZE,
        0 <= num_channels <= state.buffer_num_channels,
        frame_shaped(first, state.num_bands as int, num_channels, SUB_FRAME_LENGTH as int),
        frame_shaped(second, state.num_bands as int, num_channels, SUB_FRAME_LENGTH as int),
    ensures
        forall|c: int, b: int|
            0 <= c < num_channels && 0 <= b < state.num_bands ==> #[trigger] state.with_bands(
                written(first, 0),
            ).with_bands(written(second, SUB_FRAME_LENGTH as int)).band(c, b) == first[b][c]
                + second[b][c],
{
    let len = SUB_FRAME_LENGTH as int;
    let half = state.with_bands(written(first, 0));
    let after = half.with_bands(written(second, len));
    assert forall|c: int, b: int|
        0 <= c < num_channels && 0 <= b < state.num_bands implies #[trigger] after.band(c, b)
        == first[b][c] + second[b][c] by {
        assert(planes_shaped(first[b], num_channels, len));
        assert(planes_shaped(second[b], num_channels, len));
        assert(planes_shaped(first[0], num_channels, len));
        assert(planes_shaped(second[0], num_channels, len));
        state.lemma_band_length(c, b);
        lemma_band_replaced(state, written(first, 0), c, b);
        match state.split {
            Some(split) => {
                assert(planes_shaped(
                    split[c],
                    state.num_bands as int,
                    state.num_split_frames as int,
                ));
            },
            None => {},
        }
        assert(after.band(c, b) == spliced(second[b][c], half.band(c, b), len));
        assert(after.band(c, b) =~= first[b][c] + second[b][c]);
    }
}

/// The average at one position depends on the samples there alone.
proof fn lemma_average_is_local(a: Seq<Seq<Sample>>, b: Seq<Seq<Sample>>, n: int, i: int)
    requires
        1 <= n,
        forall|c: int| 0 <= c < n ==> #[trigger] a[c][i] == b[c][i],
    ensures
        running_sum(a, n, i) == running_sum(b, n, i),
        average(a, n, i) == average(b, n, i),
    decreases n,
{
    assert(a[n - 1][i] == b[n - 1][i]);
    if n > 1 {
        lemma_average_is_local(a, b, n - 1, i);
    }
}

/// Mixing down one sub-frame of a render frame changes nothing that is read for
/// the other.
pub proof fn lemma_downmix_keeps_other_sub_frame(
    frame: Seq<Seq<Seq<Sample>>>,
    num_channels: int,
    sub_frame_index: int,
)
    requires
        0 <= sub_frame_index <= 1,
        0 < frame.len(),
        1 < num_channels,
        frame_shaped(frame, frame.len() as int, num_channels, SPLIT_BAND_SIZE as int),
    ensures
        ({
            let offset = sub_frame_index * SUB_FRAME_LENGTH;
            let other = (1 - sub_frame_index) * SUB_FRAME_LENGTH;
            render_sub_frame(true, downmixed(frame, offset), 1, other) == render_sub_frame(
                true,
                frame,
                1,
                other,
            )
        }),
{
    let offset = sub_frame_index * SUB_FRAME_LENGTH;
    let other = (1 - sub_frame_index) * SUB_FRAME_LENGTH;
    let mixed = downmixed(frame, offset);
    let ours = render_sub_frame(true, mixed, 1, other);
    let theirs = render_sub_frame(true, frame, 1, other);
    assert(planes_shaped(frame[0], num_channels, SPLIT_BAND_SIZE as int));
    assert(inner_count(mixed) == num_channels);
    assert forall|b: int| 0 <= b < frame.len() implies ours[b] == theirs[b] by {
        assert(planes_shaped(frame[b], num_channels, SPLIT_BAND_SIZE as int));
        assert forall|k: int| 0 <= k < SUB_FRAME_LENGTH implies average(
            mixed[b],
            num_channels,
            other + k,
        ) == #[trigger] average(frame[b], num_channels, other + k) by {
            assert forall|c: int| 0 <= c < num_channels implies #[trigger] mixed[b][c][other + k]
                == frame[b][c][other + k] by {
                assert(frame[b][c].len() == SPLIT_BAND_SIZE);
            }
            lemma_average_is_local(mixed[b], frame[b], num_channels, other + k);
        }
        assert(ours[b][0] =~= theirs[b][0]);
        assert(ours[b] =~= theirs[b]);
    }
    assert(ours =~= theirs);
}

/// The sub-frames of a render frame that was copied from a signal are those of
/// the signal, where no channels are mixed down.
pub proof fn lemma_render_frame_keeps_signal(
    state: AudioState,
    proper_downmix_needed: bool,
    sub_frame_index: int,
)
    requires
        state.wf(),
        0 < state.num_channels,
        0 <= sub_frame_index <= 1,
        state.num_split_frames == SPLIT_BAND_SIZE,
    ensures
        ({
            let frame = bands_of(
                state,
                state.num_bands as int,
                state.num_channels as int,
                0,
                SPLIT_BAND_SIZE as int,
            );
            let offset = sub_frame_index * SUB_FRAME_LENGTH;
            render_sub_frame(proper_downmix_needed, frame, state.num_channels as int, offset)
                == bands_of(
                state,
                state.num_bands as int,
                state.num_channels as int,
                offset,
                SUB_FRAME_LENGTH as int,
            )
        }),
{
    let num_bands = state.num_bands as int;
    let num_channels = state.num_channels as int;
    let offset = sub_frame_index * SUB_FRAME_LENGTH;
    let frame = bands_of(state, num_bands, num_channels, 0, SPLIT_BAND_SIZE as int);
    let ours = render_sub_frame(proper_downmix_needed, frame, num_channels, offset);
    let theirs = bands_of(state, num_bands, num_channels, offset, SUB_FRAME_LENGTH as int);
    assert forall|b: int| 0 <= b < num_bands implies ours[b] == theirs[b] by {
        assert(frame[0].len() == num_channels);
        assert forall|c: int| 0 <= c < num_channels implies ours[b][c] == theirs[b][c] by {
            state.lemma_band_length(c, b);
            assert(ours[b][c] =~= theirs[b][c]);
        }
        assert(ours[b] =~= theirs[b]);
    }
    assert(ours =~= theirs);
}

/// What is read of a signal, sample by sample: sample `k` of band `b` of channel
/// `c` is the one at `offset + k` of that band of that channel.
pub proof fn lemma_bands_are_read(
    state: AudioState,
    num_bands: int,
    num_channels: int,
    offset: int,
    len: int,
)
    requires
        state.wf(),
        0 <= num_bands <= state.num_bands,
        0 <= num_channels <= state.buffer_num_channels,
        0 <= offset,
        0 <= len,
        offset + len <= state.num_split_frames,
    ensures
        ({
            let read = bands_of(state, num_bands, num_channels, offset, len);
            &&& frame_shaped(read, num_bands, num_channels, len)
            &&& forall|b: int, c: int, k: int|
                #![trigger read[b][c][k]]
                0 <= b < num_bands && 0 <= c < num_channels && 0 <= k < len ==> read[b][c][k]
                    == if state.num_bands > 1 {
                    state.split->0[c][b][offset + k]
                } else {
                    state.channels[c][offset + k]
                }
        }),
{
    let read = bands_of(state, num_bands, num_channels, offset, len);
    assert forall|b: int| 0 <= b < num_bands implies planes_shaped(
        #[trigger] read[b],
        num_channels,
        len,
    ) by {
        assert forall|c: int| 0 <= c < num_channels implies (#[trigger] read[b][c]).len()
            == len by {
            state.lemma_band_length(c, b);
        }
    }
    assert forall|b: int, c: int, k: int|
        #![trigger read[b][c][k]]
        0 <= b < num_bands && 0 <= c < num_channels && 0 <= k < len implies read[b][c][k]
        == if state.num_bands > 1 {
        state.split->0[c][b][offset + k]
    } else {
        state.channels[c][offset + k]
    } by {
        state.lemma_band_length(c, b);
    }
}

/// What writing a view makes of a signal, sample by sample: in the view's bands
/// and channels the samples from `offset` on become those of the view, each in its
/// own band of its own channel, and every other sample stays.
pub proof fn lemma_bands_are_written(
    state: AudioState,
    view: Seq<Seq<Seq<Sample>>>,
    num_bands: int,
    num_channels: int,
    offset: int,
    len: int,
)
    requires
        state.wf(),
        0 < num_bands <= state.num_bands,
        0 <= num_channels <= state.buffer_num_channels,
        0 <= offset,
        0 <= len,
        offset + len <= state.num_split_frames,
        frame_shaped(view, num_bands, num_channels, len),
    ensures
        ({
            let after = state.with_bands(written(view, offset));
            &&& after == (AudioState { channels: after.channels, split: after.split, ..state })
            &&& state.num_bands > 1 ==> after.channels == state.channels
            &&& state.num_bands == 1 ==> after.split == state.split
            &&& forall|c: int, b: int, i: int|
                #![trigger after.band(c, b)[i]]
                0 <= c < state.buffer_num_channels && 0 <= b < state.num_bands && 0 <= i
                    < state.num_split_frames ==> after.band(c, b)[i] == if b < num_bands && c
                    < num_channels && offset <= i < offset + len {
                    view[b][c][i - offset]
                } else {
                    state.band(c, b)[i]
                }
            &&& forall|c: int, b: int, i: int|
                #![trigger after.split->0[c][b][i]]
                state.num_bands > 1 && 0 <= c < state.buffer_num_channels && 0 <= b
                    < state.num_bands && 0 <= i < state.num_split_frames
                    ==> after.split->0[c][b][i] == if b < num_bands && c < num_channels && offset
                    <= i < offset + len {
                    view[b][c][i - offset]
                } else {
                    state.split->0[c][b][i]
                }
        }),
{
    let f = written(view, offset);
    let after = state.with_bands(f);
    assert(planes_shaped(view[0], num_channels, len));
    assert forall|c: int, b: int, i: int|
        #![trigger after.band(c, b)[i]]
        0 <= c < state.buffer_num_channels && 0 <= b < state.num_bands && 0 <= i
            < state.num_split_frames implies after.band(c, b)[i] == if b < num_bands && c
        < num_channels && offset <= i < offset + len {
        view[b][c][i - offset]
    } else {
        state.band(c, b)[i]
    } by {
        lemma_band_replaced(state, f, c, b);
        state.lemma_band_length(c, b);
        if b < num_bands {
            assert(planes_shaped(view[b], num_channels, len));
        }
    }
    assert forall|c: int, b: int, i: int|
        #![trigger after.split->0[c][b][i]]
        state.num_bands > 1 && 0 <= c < state.buffer_num_channels && 0 <= b < state.num_bands && 0
            <= i < state.num_split_frames implies after.split->0[c][b][i] == if b < num_bands && c
        < num_channels && offset <= i < offset + len {
        view[b][c][i - offset]
    } else {
        state.split->0[c][b][i]
    } by {
        assert(after.band(c, b)[i] == after.split->0[c][b][i]);
    }
}

/// A render sub-frame, sample by sample. Where the frame has more channels than
/// the view and is to be mixed down, every sample of every band is the sum over
/// all channels of that band at that position, scaled by one over their number;
/// otherwise it is the sample of its own channel.
pub proof fn lemma_render_sub_frame_by_sample(
    proper_downmix_needed: bool,
    frame: Seq<Seq<Seq<Sample>>>,
    num_channels: int,
    view_num_channels: int,
    offset: int,
    b: int,
    c: int,
    k: int,
)
    requires
        frame_shaped(frame, frame.len() as int, num_channels, SPLIT_BAND_SIZE as int),
        view_num_channels == num_channels || view_num_channels == 1,
        0 <= offset <= SPLIT_BAND_SIZE - SUB_FRAME_LENGTH,
        0 <= b < frame.len(),
        0 <= c < view_num_channels <= num_channels,
        0 <= k < SUB_FRAME_LENGTH,
    ensures
        ({
            let view = render_sub_frame(proper_downmix_needed, frame, view_num_channels, offset);
            &&& frame_shaped(
                view,
                frame.len() as int,
                view_num_channels,
                SUB_FRAME_LENGTH as int,
            )
            &&& num_channels > view_num_channels && proper_downmix_needed ==> view[b][c][k]
                == product(
                Seq::new((num_channels - 1) as nat, |i: int| frame[b][i + 1][offset + k]).fold_left(
                    frame[b][0][offset + k],
                    |a: Sample, x: Sample| sum(a, x),
                ),
                quotient(of_integer(1), of_integer(num_channels)),
            )
            &&& !(num_channels > view_num_channels && proper_downmix_needed) ==> view[b][c][k]
                == frame[b][c][offset + k]
        }),
{
    let view = render_sub_frame(proper_downmix_needed, frame, view_num_channels, offset);
    assert(planes_shaped(frame[0], num_channels, SPLIT_BAND_SIZE as int));
    assert forall|y: int| 0 <= y < frame.len() implies planes_shaped(
        #[trigger] view[y],
        view_num_channels,
        SUB_FRAME_LENGTH as int,
    ) by {
        assert(planes_shaped(frame[y], num_channels, SPLIT_BAND_SIZE as int));
        assert forall|x: int| 0 <= x < view_num_channels implies (#[trigger] view[y][x]).len()
            == SUB_FRAME_LENGTH by {
            assert(frame[y][x].len() == SPLIT_BAND_SIZE);
        }
    }
    assert(planes_shaped(frame[b], num_channels, SPLIT_BAND_SIZE as int));
    assert(frame[b][c].len() == SPLIT_BAND_SIZE);
    lemma_average_takes_in_every_plane(frame[b], num_channels, offset + k);
}

/// Every band of a render sub-frame is made the same way: bands of the frame that
/// are equal give bands of the view that are equal.
pub proof fn lemma_bands_are_treated_alike(
    proper_downmix_needed: bool,
    frame: Seq<Seq<Seq<Sample>>>,
    view_num_channels: int,
    offset: int,
    b1: int,
    b2: int,
)
    requires
        0 <= b1 < frame.len(),
        0 <= b2 < frame.len(),
        frame[b1] == frame[b2],
    ensures
        render_sub_frame(proper_downmix_needed, frame, view_num_channels, offset)[b1]
            == render_sub_frame(proper_downmix_needed, frame, view_num_channels, offset)[b2],
        downmixed(frame, offset)[b1] == downmixed(frame, offset)[b2],
{
    let view = render_sub_frame(proper_downmix_needed, frame, view_num_channels, offset);
    assert(view[b1] =~= view[b2]);
}

/// What mixing down leaves in the render frame, sample by sample: channel 0 of
/// every band holds the mixed samples in the sub-frame, every other sample stays.
pub proof fn lemma_downmix_by_sample(
    frame: Seq<Seq<Seq<Sample>>>,
    num_channels: int,
    offset: int,
    b: int,
    c: int,
    i: int,
)
    requires
        1 < num_channels,
        frame_shaped(frame, frame.len() as int, num_channels, SPLIT_BAND_SIZE as int),
        0 <= offset <= SPLIT_BAND_SIZE - SUB_FRAME_LENGTH,
        0 <= b < frame.len(),
        0 <= c < num_channels,
        0 <= i < SPLIT_BAND_SIZE,
    ensures
        ({
            let after = downmixed(frame, offset);
            let view = render_sub_frame(true, frame, 1, offset);
            &&& frame_shaped(after, frame.len() as int, num_channels, SPLIT_BAND_SIZE as int)
            &&& after[b][c][i] == if c == 0 && offset <= i < offset + SUB_FRAME_LENGTH {
                view[b][0][i - offset]
            } else {
                frame[b][c][i]
            }
        }),
{
    let after = downmixed(frame, offset);
    assert(planes_shaped(frame[0], num_channels, SPLIT_BAND_SIZE as int));
    assert forall|y: int| 0 <= y < frame.len() implies planes_shaped(
        #[trigger] after[y],
        num_channels,
        SPLIT_BAND_SIZE as int,
    ) by {
        assert(planes_shaped(frame[y], num_channels, SPLIT_BAND_SIZE as int));
        assert forall|x: int| 0 <= x < num_channels implies (#[trigger] after[y][x]).len()
            == SPLIT_BAND_SIZE by {
            assert(frame[y][x].len() == SPLIT_BAND_SIZE);
        }
    }
    assert(planes_shaped(frame[b], num_channels, SPLIT_BAND_SIZE as int));
    assert(frame[b][c].len() == SPLIT_BAND_SIZE);
}

} // verus!
