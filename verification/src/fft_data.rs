//! Frequency-domain data of a block.
use crate::common::FFT_LENGTH_BY_2_PLUS_1;
use crate::planes::{silence, silent_plane};
use crate::sample::{difference, product, sum, Sample};
use vstd::prelude::*;

verus! {

/// Real and imaginary parts, one of each per frequency bin.
#[derive(Debug)]
pub struct FftData {
    pub re: Vec<Sample>,
    pub im: Vec<Sample>,
}

/// What frequency-domain data holds.
#[verifier::ext_equal]
pub struct FftState {
    pub re: Seq<Sample>,
    pub im: Seq<Sample>,
}

impl FftState {
    pub open spec fn wf(self) -> bool {
        self.re.len() == FFT_LENGTH_BY_2_PLUS_1 && self.im.len() == FFT_LENGTH_BY_2_PLUS_1
    }

    pub open spec fn zero() -> FftState {
        FftState {
            re: silence(FFT_LENGTH_BY_2_PLUS_1 as int),
            im: silence(FFT_LENGTH_BY_2_PLUS_1 as int),
        }
    }
}

impl View for FftData {
    type V = FftState;

    open spec fn view(&self) -> FftState {
        FftState { re: self.re@, im: self.im@ }
    }
}

/// The contents of a list of frequency-domain data.
pub open spec fn spectra_of(v: Seq<FftData>) -> Seq<FftState> {
    Seq::new(v.len(), |i: int| v[i]@)
}

/// Whether there are `count` items, one bin after the other.
pub open spec fn spectra_shaped(s: Seq<FftState>, count: int) -> bool {
    s.len() == count && forall|i: int| 0 <= i < count ==> (#[trigger] s[i]).wf()
}

/// `count` items of silence.
pub open spec fn silent_spectra(count: int) -> Seq<FftState> {
    Seq::new(count as nat, |i: int| FftState::zero())
}

impl FftData {
    /// Makes data that is zero in every bin.
    pub fn new() -> (r: FftData)
        ensures
            r@ == FftState::zero(),
    {
        FftData {
            re: silent_plane(FFT_LENGTH_BY_2_PLUS_1),
            im: silent_plane(FFT_LENGTH_BY_2_PLUS_1),
        }
    }
}

/// Squared distance of two spectra in one bin.
pub open spec fn power_of_difference(e: FftState, y: FftState, k: int) -> Sample {
    let re = difference(y.re[k], e.re[k]);
    let im = difference(y.im[k], e.im[k]);
    sum(product(re, re), product(im, im))
}

/// The linear echo power: the squared distance of two spectra in each bin.
pub open spec fn echo_power(e: FftState, y: FftState) -> Seq<Sample> {
    Seq::new(FFT_LENGTH_BY_2_PLUS_1 as nat, |k: int| power_of_difference(e, y, k))
}

/// Computes the linear echo power.
pub fn linear_echo_power(e: &FftData, y: &FftData, s2: &mut Vec<Sample>)
    requires
        e@.wf(),
        y@.wf(),
        old(s2)@.len() == FFT_LENGTH_BY_2_PLUS_1,
    ensures
        final(s2)@ == echo_power(e@, y@),
{
    for k in 0..FFT_LENGTH_BY_2_PLUS_1
        invariant
            e@.wf(),
            y@.wf(),
            s2@.len() == FFT_LENGTH_BY_2_PLUS_1,
            forall|i: int| 0 <= i < k ==> #[trigger] s2@[i] == power_of_difference(e@, y@, i),
    {
        let re = y.re[k].minus(e.re[k]);
        let im = y.im[k].minus(e.im[k]);
        s2[k] = re.times(re).plus(im.times(im));
    }
    assert(s2@ =~= echo_power(e@, y@));
}

/// The linear echo power of every bin, up to the last one, is the squared distance
/// of the spectra there: the square of the difference of the real parts and that
/// of the imaginary parts, added up.
pub proof fn lemma_echo_power_of_every_bin(e: FftState, y: FftState)
    ensures
        echo_power(e, y).len() == 65,
        forall|k: int|
            0 <= k < 65 ==> #[trigger] echo_power(e, y)[k] == sum(
                product(difference(y.re[k], e.re[k]), difference(y.re[k], e.re[k])),
                product(difference(y.im[k], e.im[k]), difference(y.im[k], e.im[k])),
            ),
{
}

/// New data is zero in every bin.
pub proof fn lemma_new_data_is_zero(k: int)
    requires
        0 <= k < 65,
    ensures
        FftState::zero().re.len() == 65,
        FftState::zero().im.len() == 65,
        FftState::zero().re[k].bits == 0,
        FftState::zero().im[k].bits == 0,
{
}

} // verus!
