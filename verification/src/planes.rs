//! Nested sample storage: a plane is one channel's run of samples, a frame is
//! indexed by two further coordinates.
use crate::sample::Sample;
use vstd::prelude::*;

verus! {

/// The contents of a list of planes.
pub open spec fn planes_of(v: Seq<Vec<Sample>>) -> Seq<Seq<Sample>> {
    Seq::new(v.len(), |i: int| v[i]@)
}

/// The contents of a frame.
pub open spec fn frame_of(v: Seq<Vec<Vec<Sample>>>) -> Seq<Seq<Seq<Sample>>> {
    Seq::new(v.len(), |i: int| planes_of(v[i]@))
}

/// The contents of a list of borrowed planes.
pub open spec fn slices_of(v: Seq<&[Sample]>) -> Seq<Seq<Sample>> {
    Seq::new(v.len(), |i: int| v[i]@)
}

/// Whether there are `count` planes of `len` samples each.
pub open spec fn planes_shaped(p: Seq<Seq<Sample>>, count: int, len: int) -> bool {
    &&& p.len() == count
    &&& forall|i: int| 0 <= i < count ==> (#[trigger] p[i]).len() == len
}

/// Whether a frame has `outer` lists of `inner` planes of `len` samples each.
pub open spec fn frame_shaped(f: Seq<Seq<Seq<Sample>>>, outer: int, inner: int, len: int) -> bool {
    &&& f.len() == outer
    &&& forall|i: int| 0 <= i < outer ==> planes_shaped(#[trigger] f[i], inner, len)
}

/// Number of planes in each list of a frame.
pub open spec fn inner_count(f: Seq<Seq<Seq<Sample>>>) -> int {
    if f.len() == 0 {
        0
    } else {
        f[0].len() as int
    }
}

/// `len` samples of silence.
pub open spec fn silence(len: int) -> Seq<Sample> {
    Seq::new(len as nat, |i: int| Sample { bits: 0 })
}

/// `count` silent planes.
pub open spec fn silent_planes(count: int, len: int) -> Seq<Seq<Sample>> {
    Seq::new(count as nat, |i: int| silence(len))
}

/// A silent frame.
pub open spec fn silent_frame(outer: int, inner: int, len: int) -> Seq<Seq<Seq<Sample>>> {
    Seq::new(outer as nat, |i: int| silent_planes(inner, len))
}

/// `dest` with its first samples replaced by `src`.
pub open spec fn overlaid(src: Seq<Sample>, dest: Seq<Sample>) -> Seq<Sample> {
    src + dest.skip(src.len() as int)
}

/// `dest` with the samples from `at` on replaced by `src`.
pub open spec fn spliced(src: Seq<Sample>, dest: Seq<Sample>, at: int) -> Seq<Sample> {
    dest.take(at) + src + dest.skip(at + src.len())
}

/// Replacing a plane replaces its contents.
pub broadcast proof fn lemma_planes_update(v: Seq<Vec<Sample>>, i: int, x: Vec<Sample>)
    requires
        0 <= i < v.len(),
    ensures
        #[trigger] planes_of(v.update(i, x)) == planes_of(v).update(i, x@),
{
    assert(planes_of(v.update(i, x)) =~= planes_of(v).update(i, x@));
}

/// Replacing a list of planes replaces its contents.
pub broadcast proof fn lemma_frame_update(v: Seq<Vec<Vec<Sample>>>, i: int, x: Vec<Vec<Sample>>)
    requires
        0 <= i < v.len(),
    ensures
        #[trigger] frame_of(v.update(i, x)) == frame_of(v).update(i, planes_of(x@)),
{
    assert(frame_of(v.update(i, x)) =~= frame_of(v).update(i, planes_of(x@)));
}

pub broadcast group group_plane_updates {
    lemma_planes_update,
    lemma_frame_update,
}

/// Makes a silent plane.
pub fn silent_plane(len: usize) -> (v: Vec<Sample>)
    ensures
        v@ == silence(len as int),
{
    let mut v: Vec<Sample> = Vec::with_capacity(len);
    for i in 0..len
        invariant
            v@ == silence(i as int),
    {
        v.push(Sample::zero());
        assert(v@ =~= silence(i + 1));
    }
    v
}

/// Makes a list of silent planes.
pub fn new_planes(count: usize, len: usize) -> (v: Vec<Vec<Sample>>)
    ensures
        planes_of(v@) == silent_planes(count as int, len as int),
{
    let mut v: Vec<Vec<Sample>> = Vec::with_capacity(count);
    for i in 0..count
        invariant
            planes_of(v@) == silent_planes(i as int, len as int),
    {
        let ghost before = v@;
        v.push(silent_plane(len));
        assert(planes_of(v@) =~= planes_of(before).push(silence(len as int)));
        assert(planes_of(v@) =~= silent_planes(i + 1, len as int));
    }
    v
}

/// Makes a silent frame.
pub fn new_frame(outer: usize, inner: usize, len: usize) -> (v: Vec<Vec<Vec<Sample>>>)
    ensures
        frame_of(v@) == silent_frame(outer as int, inner as int, len as int),
{
    let mut v: Vec<Vec<Vec<Sample>>> = Vec::with_capacity(outer);
    for i in 0..outer
        invariant
            frame_of(v@) == silent_frame(i as int, inner as int, len as int),
    {
        let ghost before = v@;
        v.push(new_planes(inner, len));
        assert(frame_of(v@) =~= frame_of(before).push(silent_planes(inner as int, len as int)));
        assert(frame_of(v@) =~= silent_frame(i + 1, inner as int, len as int));
    }
    v
}

/// Copies `src[from..from + count]` over `dest[at..at + count]`.
pub fn copy_samples(src: &[Sample], from: usize, count: usize, dest: &mut Vec<Sample>, at: usize)
    requires
        from + count <= src@.len(),
        at + count <= old(dest)@.len(),
    ensures
        final(dest)@ == spliced(
            src@.subrange(from as int, from + count),
            old(dest)@,
            at as int,
        ),
        final(dest)@.len() == old(dest)@.len(),
{
    let ghost before = dest@;
    let src_len: usize = src.len();
    let dest_len: usize = dest.len();
    for k in 0..count
        invariant
            from + count <= src_len == src@.len(),
            at + count <= dest_len == before.len(),
            dest@.len() == before.len(),
            forall|i: int|
                0 <= i < dest@.len() ==> #[trigger] dest@[i] == if at <= i < at + k {
                    src@[from + i - at]
                } else {
                    before[i]
                },
    {
        dest[at + k] = src[from + k];
    }
    assert(dest@ =~= spliced(src@.subrange(from as int, from + count), before, at as int));
}

/// Copies `src[from..from + count]` over `frame[x][y][at..at + count]`.
pub fn copy_into_frame(
    src: &[Sample],
    from: usize,
    count: usize,
    frame: &mut Vec<Vec<Vec<Sample>>>,
    x: usize,
    y: usize,
    at: usize,
)
    requires
        from + count <= src@.len(),
        x < old(frame)@.len(),
        y < frame_of(old(frame)@)[x as int].len(),
        at + count <= frame_of(old(frame)@)[x as int][y as int].len(),
    ensures
        final(frame)@.len() == old(frame)@.len(),
        frame_of(final(frame)@) == frame_of(old(frame)@).update(
            x as int,
            frame_of(old(frame)@)[x as int].update(
                y as int,
                spliced(
                    src@.subrange(from as int, from + count),
                    frame_of(old(frame)@)[x as int][y as int],
                    at as int,
                ),
            ),
        ),
{
    broadcast use group_plane_updates;

    let ghost before = frame@;
    assert(frame_of(before)[x as int] == planes_of(before[x as int]@));
    copy_samples(src, from, count, &mut frame[x][y], at);
    assert(frame@ == before.update(x as int, frame@[x as int]));
    assert(frame@[x as int]@ == before[x as int]@.update(y as int, frame@[x as int]@[y as int]));
}

/// Copies each plane of `src` over that of `dest`.
pub fn copy_planes(src: &Vec<Vec<Sample>>, dest: &mut Vec<Vec<Sample>>, count: usize, len: usize)
    requires
        planes_shaped(planes_of(src@), count as int, len as int),
        planes_shaped(planes_of(old(dest)@), count as int, len as int),
    ensures
        planes_of(final(dest)@) == planes_of(src@),
{
    let ghost before = planes_of(dest@);
    let ghost wanted = planes_of(src@);
    for c in 0..count
        invariant
            src@.len() == count,
            dest@.len() == count,
            wanted == planes_of(src@),
            planes_shaped(wanted, count as int, len as int),
            planes_shaped(before, count as int, len as int),
            forall|i: int|
                0 <= i < count ==> (#[trigger] dest@[i])@ == if i < c {
                    wanted[i]
                } else {
                    before[i]
                },
    {
        assert(wanted[c as int].len() == len);
        assert(before[c as int].len() == len);
        copy_samples(&src[c], 0, len, &mut dest[c], 0);
        assert(dest@[c as int]@ =~= wanted[c as int]);
    }
    assert(planes_of(dest@) =~= wanted);
}

/// Silences a plane in place.
pub fn clear_plane(plane: &mut Vec<Sample>)
    ensures
        final(plane)@ == silence(old(plane)@.len() as int),
{
    let len: usize = plane.len();
    for i in 0..len
        invariant
            plane@.len() == len,
            forall|k: int| 0 <= k < i ==> #[trigger] plane@[k] == (Sample { bits: 0 }),
    {
        plane[i] = Sample::zero();
    }
    assert(plane@ =~= silence(len as int));
}

/// Silences a list of planes in place.
pub fn clear_planes(planes: &mut Vec<Vec<Sample>>)
    ensures
        planes_of(final(planes)@) == Seq::new(
            old(planes)@.len(),
            |i: int| silence(planes_of(old(planes)@)[i].len() as int),
        ),
{
    let ghost before = planes_of(planes@);
    let count: usize = planes.len();
    for i in 0..count
        invariant
            planes@.len() == count == before.len(),
            forall|k: int|
                0 <= k < count ==> #[trigger] planes_of(planes@)[k] == if k < i {
                    silence(before[k].len() as int)
                } else {
                    before[k]
                },
    {
        let ghost held = planes@;
        assert(planes_of(held)[i as int] == held[i as int]@);
        clear_plane(&mut planes[i]);
        proof {
            lemma_planes_update(held, i as int, planes@[i as int]);
        }
    }
    assert(planes_of(planes@) =~= Seq::new(
        before.len(),
        |i: int| silence(before[i].len() as int),
    ));
}

/// Silence is zero throughout.
pub proof fn lemma_silence_is_zero(outer: int, inner: int, len: int, i: int, j: int, k: int)
    requires
        0 <= i < outer,
        0 <= j < inner,
        0 <= k < len,
    ensures
        silence(len).len() == len,
        silence(len)[k].bits == 0,
        silent_planes(inner, len).len() == inner,
        silent_planes(inner, len)[j].len() == len,
        silent_planes(inner, len)[j][k].bits == 0,
        silent_frame(outer, inner, len).len() == outer,
        silent_frame(outer, inner, len)[i].len() == inner,
        silent_frame(outer, inner, len)[i][j].len() == len,
        silent_frame(outer, inner, len)[i][j][k].bits == 0,
{
}

/// Where the samples come from that are put into a plane: those from `at` on are
/// the new ones, in order, and all others stay.
pub proof fn lemma_spliced_by_sample(src: Seq<Sample>, dest: Seq<Sample>, at: int, i: int)
    requires
        0 <= at,
        at + src.len() <= dest.len(),
        0 <= i < dest.len(),
    ensures
        spliced(src, dest, at).len() == dest.len(),
        at <= i < at + src.len() ==> spliced(src, dest, at)[i] == src[i - at],
        i < at || at + src.len() <= i ==> spliced(src, dest, at)[i] == dest[i],
        overlaid(src, dest).len() == dest.len(),
        i < src.len() ==> overlaid(src, dest)[i] == src[i],
        src.len() <= i ==> overlaid(src, dest)[i] == dest[i],
{
}

/// The contents of nested storage are the samples that it holds, each in its place.
pub proof fn lemma_contents_by_sample(
    planes: Seq<Vec<Sample>>,
    frame: Seq<Vec<Vec<Sample>>>,
    slices: Seq<&[Sample]>,
)
    ensures
        planes_of(planes).len() == planes.len(),
        forall|i: int, k: int|
            #![trigger planes_of(planes)[i][k]]
            0 <= i < planes.len() && 0 <= k < planes[i]@.len() ==> planes_of(planes)[i].len()
                == planes[i]@.len() && planes_of(planes)[i][k] == planes[i]@[k],
        frame_of(frame).len() == frame.len(),
        forall|i: int, j: int, k: int|
            #![trigger frame_of(frame)[i][j][k]]
            0 <= i < frame.len() && 0 <= j < frame[i]@.len() && 0 <= k < frame[i]@[j]@.len()
                ==> frame_of(frame)[i].len() == frame[i]@.len() && frame_of(frame)[i][j].len()
                == frame[i]@[j]@.len() && frame_of(frame)[i][j][k] == frame[i]@[j]@[k],
        slices_of(slices).len() == slices.len(),
        forall|i: int, k: int|
            #![trigger slices_of(slices)[i][k]]
            0 <= i < slices.len() && 0 <= k < slices[i]@.len() ==> slices_of(slices)[i].len()
                == slices[i]@.len() && slices_of(slices)[i][k] == slices[i]@[k],
{
}

} // verus!
