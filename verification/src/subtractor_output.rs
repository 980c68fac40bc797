//! Output of the adaptive filters for one channel, and the choice between them.
use crate::common::{BLOCK_SIZE, FFT_LENGTH_BY_2};
use crate::planes::{copy_samples, silence, silent_plane};
use crate::conversion::lemma_integer_exact;
use crate::rounding::{
    lemma_nearest_even_bound, lemma_rounded_normalised, lemma_rounded_ratio, magnitude_of,
    nearest_even, BINADE, INFINITY_MAGNITUDE,
};
use crate::sample::{
    difference, distance, exponent, is_less, lemma_parts, lemma_rounded_at_most,
    lemma_units_monotone, magnitude_units, of_integer, product, quotient, signed, sum,
    Sample,
};
use vstd::arithmetic::power2::{lemma2_to64, lemma_pow2_adds, lemma_pow2_pos, pow2};
use vstd::prelude::*;

verus! {

/// Length of the fade from one filter output to the other.
pub const TRANSITION_SIZE: usize = 30;

/// What the adaptive filters leave of one channel.
#[derive(Debug)]
pub struct SubtractorOutput {
    /// Prediction error of the refined filter.
    pub e_refined: Vec<Sample>,
    /// Prediction error of the coarse filter.
    pub e_coarse: Vec<Sample>,
    /// Power of the prediction errors.
    pub e2_refined_sum: Sample,
    pub e2_coarse_sum: Sample,
    /// Power of the capture signal.
    pub y2: Sample,
    /// Power of the echo estimates.
    pub s2_refined: Sample,
    pub s2_coarse: Sample,
}

/// What the output of the adaptive filters holds.
#[verifier::ext_equal]
pub struct SubtractorState {
    pub e_refined: Seq<Sample>,
    pub e_coarse: Seq<Sample>,
    pub e2_refined_sum: Sample,
    pub e2_coarse_sum: Sample,
    pub y2: Sample,
    pub s2_refined: Sample,
    pub s2_coarse: Sample,
}

/// The threshold that makes up for the margin of the refined filter.
pub open spec fn margin() -> Sample {
    quotient(of_integer(9), of_integer(10))
}

/// Power of a block whose samples all are at a level.
pub open spec fn block_power(level: int) -> Sample {
    of_integer(level * level * BLOCK_SIZE)
}

impl SubtractorState {
    pub open spec fn wf(self) -> bool {
        self.e_refined.len() == FFT_LENGTH_BY_2 && self.e_coarse.len() == FFT_LENGTH_BY_2
    }

    pub open spec fn zero() -> SubtractorState {
        SubtractorState {
            e_refined: silence(FFT_LENGTH_BY_2 as int),
            e_coarse: silence(FFT_LENGTH_BY_2 as int),
            e2_refined_sum: Sample { bits: 0 },
            e2_coarse_sum: Sample { bits: 0 },
            y2: Sample { bits: 0 },
            s2_refined: Sample { bits: 0 },
            s2_coarse: Sample { bits: 0 },
        }
    }

    /// Whether the coarse filter is better by a margin, on a signal and an echo
    /// that are loud enough.
    pub open spec fn coarse_is_better(self) -> bool {
        &&& is_less(self.e2_coarse_sum, product(margin(), self.e2_refined_sum))
        &&& is_less(block_power(30), self.y2)
        &&& is_less(block_power(60), self.s2_refined) || is_less(block_power(60), self.s2_coarse)
    }

    /// Whether the refined filter is diverged and the coarse one is better.
    pub open spec fn refined_is_diverged(self) -> bool {
        &&& is_less(self.e2_coarse_sum, self.e2_refined_sum)
        &&& is_less(self.y2, self.e2_refined_sum)
    }

    /// Whether the output of the refined filter is the more appropriate one.
    pub open spec fn prefers_refined(self) -> bool {
        !self.coarse_is_better() && !self.refined_is_diverged()
    }

    /// The output of one of the filters.
    pub open spec fn error(self, refined: bool) -> Seq<Sample> {
        if refined {
            self.e_refined
        } else {
            self.e_coarse
        }
    }

    /// The linear filter output: the output of the filter in use, faded in where
    /// the filter changed.
    pub open spec fn linear_output(self, last_refined: bool, use_refined: bool) -> Seq<Sample> {
        if last_refined == use_refined {
            self.error(use_refined)
        } else {
            crossfaded(self.error(last_refined), self.error(use_refined))
        }
    }
}

impl View for SubtractorOutput {
    type V = SubtractorState;

    open spec fn view(&self) -> SubtractorState {
        SubtractorState {
            e_refined: self.e_refined@,
            e_coarse: self.e_coarse@,
            e2_refined_sum: self.e2_refined_sum,
            e2_coarse_sum: self.e2_coarse_sum,
            y2: self.y2,
            s2_refined: self.s2_refined,
            s2_coarse: self.s2_coarse,
        }
    }
}

/// The contents of a list of filter outputs.
pub open spec fn outputs_of(v: Seq<SubtractorOutput>) -> Seq<SubtractorState> {
    Seq::new(v.len(), |i: int| v[i]@)
}

/// Whether there are `count` outputs of a block each.
pub open spec fn outputs_shaped(s: Seq<SubtractorState>, count: int) -> bool {
    s.len() == count && forall|i: int| 0 <= i < count ==> (#[trigger] s[i]).wf()
}

/// `count` outputs that are zero.
pub open spec fn silent_outputs(count: int) -> Seq<SubtractorState> {
    Seq::new(count as nat, |i: int| SubtractorState::zero())
}

impl SubtractorOutput {
    /// Makes an output that is zero.
    pub fn new() -> (r: SubtractorOutput)
        ensures
            r@ == SubtractorState::zero(),
    {
        SubtractorOutput {
            e_refined: silent_plane(FFT_LENGTH_BY_2),
            e_coarse: silent_plane(FFT_LENGTH_BY_2),
            e2_refined_sum: Sample::zero(),
            e2_coarse_sum: Sample::zero(),
            y2: Sample::zero(),
            s2_refined: Sample::zero(),
            s2_coarse: Sample::zero(),
        }
    }
}

/// Whether the output of the refined filter is more appropriate than that of
/// the coarse filter for a single channel.
pub fn use_refined_filter_output(subtractor_output: &SubtractorOutput) -> (refined: bool)
    ensures
        refined == subtractor_output@.prefers_refined(),
{
    // The refined filter generally is the better one, so the coarse one has to
    // win by a margin, above a threshold.
    let scaled = Sample::from_i32(9).over(Sample::from_i32(10)).times(
        subtractor_output.e2_refined_sum,
    );
    let loud = Sample::from_i32(57600);
    let echoing = Sample::from_i32(230400);
    if subtractor_output.e2_coarse_sum.less_than(scaled) && loud.less_than(subtractor_output.y2)
        && (echoing.less_than(subtractor_output.s2_refined) || echoing.less_than(
        subtractor_output.s2_coarse,
    )) {
        return false;
    }
    // Where the refined filter is diverged, the one with the lowest power wins.

    if subtractor_output.e2_coarse_sum.less_than(subtractor_output.e2_refined_sum)
        && subtractor_output.y2.less_than(subtractor_output.e2_refined_sum) {
        return false;
    }
    true
}

/// Weight of the new signal at sample `k` of a fade.
pub open spec fn fade_weight(k: int) -> Sample {
    product(of_integer(k + 1), quotient(of_integer(1), of_integer(TRANSITION_SIZE + 1)))
}

/// Sample `k` of a fade.
pub open spec fn faded(from: Sample, to: Sample, k: int) -> Sample {
    let a = fade_weight(k);
    sum(product(a, to), product(difference(of_integer(1), a), from))
}

/// The signal `to` with its first samples faded in from the signal `from`.
pub open spec fn crossfaded(from: Seq<Sample>, to: Seq<Sample>) -> Seq<Sample> {
    Seq::new(
        to.len(),
        |k: int|
            if k < TRANSITION_SIZE {
                faded(from[k], to[k], k)
            } else {
                to[k]
            },
    )
}

/// Fades from one signal to another, where they are two; `same` says that they
/// are one and the same signal.
pub fn signal_transition(from: &[Sample], to: &[Sample], same: bool, out: &mut Vec<Sample>)
    requires
        from@.len() == to@.len(),
        to@.len() == old(out)@.len(),
        same ==> from@ == to@,
        same || TRANSITION_SIZE <= to@.len(),
    ensures
        final(out)@ == if same {
            to@
        } else {
            crossfaded(from@, to@)
        },
{
    let len: usize = to.len();
    if same {
        copy_samples(to, 0, len, out, 0);
        assert(out@ =~= to@);
    } else {
        let one = Sample::from_i32(1);
        let step = one.over(Sample::from_i32(31));
        for k in 0..TRANSITION_SIZE
            invariant
                from@.len() == len,
                to@.len() == len,
                out@.len() == len,
                TRANSITION_SIZE <= len,
                one == of_integer(1),
                step == quotient(of_integer(1), of_integer(TRANSITION_SIZE + 1)),
                forall|i: int| 0 <= i < k ==> #[trigger] out@[i] == faded(from@[i], to@[i], i),
        {
            let a = Sample::from_i32(k as i32 + 1).times(step);
            out[k] = a.times(to[k]).plus(one.minus(a).times(from[k]));
        }
        copy_samples(to, TRANSITION_SIZE, len - TRANSITION_SIZE, out, TRANSITION_SIZE);
        assert(out@ =~= crossfaded(from@, to@));
    }
}

/// Forms the linear filter output by a smooth transition between the outputs of
/// the refined and the coarse filter.
pub fn form_linear_filter_output(
    refined_filter_output_last_selected: bool,
    use_refined_output: bool,
    subtractor_output: &SubtractorOutput,
    output: &mut Vec<Sample>,
)
    requires
        subtractor_output@.wf(),
        old(output)@.len() == FFT_LENGTH_BY_2,
    ensures
        final(output)@ == subtractor_output@.linear_output(
            refined_filter_output_last_selected,
            use_refined_output,
        ),
{
    let from = if refined_filter_output_last_selected {
        &subtractor_output.e_refined
    } else {
        &subtractor_output.e_coarse
    };
    let to = if use_refined_output {
        &subtractor_output.e_refined
    } else {
        &subtractor_output.e_coarse
    };
    signal_transition(
        from,
        to,
        refined_filter_output_last_selected == use_refined_output,
        output,
    );
}

/// Pattern and value of the step from one weight of a fade to the next.
proof fn lemma_fade_step()
    ensures
        ({
            let step = quotient(of_integer(1), of_integer(TRANSITION_SIZE + 1));
            &&& step.units() == 8659208 * pow2(121)
            &&& step.magnitude() < INFINITY_MAGNITUDE
            &&& !step.negative()
        }),
{
    let u = pow2(149);
    lemma_pow2_pos(149);
    lemma_integer_exact(1);
    lemma_integer_exact(31);
    lemma_parts(of_integer(1).magnitude());
    lemma_parts(of_integer(31).magnitude());
    assert(31 * u > 0);
    assert((u * u) * 31 == u * (31 * u)) by (nonlinear_arith);
    lemma_rounded_ratio(u * u, (31 * u) as nat, u, 31);
    lemma2_to64();
    lemma_pow2_adds(28, 121);
    assert(u == 0x1000_0000 * pow2(121));
    lemma_rounded_normalised(0x1000_0000, 31, 121);
    assert(nearest_even(0x1000_0000, 31) == 8659208);
    assert(exponent(1023680776) == 121);
}

/// Pattern of one.
proof fn lemma_one()
    ensures
        of_integer(1).magnitude() == 127 * BINADE,
        !of_integer(1).negative(),
{
    lemma2_to64();
    lemma_pow2_adds(23, 126);
    assert(pow2(149) == 0x0080_0000 * pow2(126));
    assert(distance(1) * pow2(149) == pow2(149)) by (nonlinear_arith)
        requires
            distance(1) == 1,
    ;
    lemma_rounded_normalised(0x0080_0000, 1, 126);
    assert(nearest_even(0x0080_0000, 1) == 0x0080_0000);
}

/// A weight of a fade at exponent `121 + j`.
proof fn lemma_fade_weight_pattern(k: int, j: nat)
    requires
        0 <= k < TRANSITION_SIZE,
        j <= 4,
        (k + 1) * 8659208 < pow2(j) * 0x0100_0000,
        (k + 1) * 8659208 >= pow2(j) * 0x0080_0000,
    ensures
        fade_weight(k).magnitude() == (121 + j) * BINADE + nearest_even(
            ((k + 1) * 8659208) as nat,
            pow2(j),
        ),
        !fade_weight(k).negative(),
{
    let u = pow2(149);
    let step = quotient(of_integer(1), of_integer(TRANSITION_SIZE + 1));
    let n = ((k + 1) * 8659208) as nat;
    lemma_fade_step();
    lemma_integer_exact(k + 1);
    lemma_pow2_pos(149);
    lemma_pow2_pos(121);
    lemma_pow2_pos(j);
    lemma_parts(step.magnitude());
    lemma_parts(of_integer(k + 1).magnitude());
    assert((k + 1) * u > 0) by (nonlinear_arith)
        requires
            k >= 0,
            u > 0,
    ;
    let exact = ((k + 1) * u) * (8659208 * pow2(121));
    lemma_pow2_adds(121, j);
    assert(exact * pow2(j) == (n * pow2(121 + j)) * u) by (nonlinear_arith)
        requires
            exact == ((k + 1) * u) * (8659208 * pow2(121)),
            n == (k + 1) * 8659208,
            pow2(121 + j) == pow2(121) * pow2(j),
    ;
    assert(exact >= 0) by (nonlinear_arith)
        requires
            exact == ((k + 1) * u) * (8659208 * pow2(121)),
            (k + 1) * u > 0,
            pow2(121) > 0,
    ;
    lemma_rounded_ratio(exact as nat, u, n * pow2(121 + j), pow2(j));
    lemma_rounded_normalised(n, pow2(j), 121 + j);
    lemma_nearest_even_bound(n, pow2(j), 0x0100_0000);
}

/// A fade gives weight to both signals: the weight of the new one lies between
/// zero and one.
pub proof fn lemma_fade_weights(k: int)
    requires
        0 <= k < TRANSITION_SIZE,
    ensures
        is_less(of_integer(0), fade_weight(k)),
        is_less(fade_weight(k), of_integer(1)),
{
    lemma2_to64();
    let j: nat = if k < 1 {
        0
    } else if k < 3 {
        1
    } else if k < 7 {
        2
    } else if k < 15 {
        3
    } else {
        4
    };
    lemma_fade_weight_pattern(k, j);
    let n = ((k + 1) * 8659208) as nat;
    if j < 4 {
        lemma_nearest_even_bound(n, pow2(j), 0x0100_0000);
    } else {
        lemma_nearest_even_bound(n, pow2(j), 16236016);
    }
    lemma_one();
    lemma_integer_exact(0);
    lemma_integer_exact(1);
    let m = fade_weight(k).magnitude();
    lemma_parts(0);
    lemma_units_monotone(0, m);
    lemma_units_monotone(m, of_integer(1).magnitude());
}

/// Pattern of the margin.
proof fn lemma_margin()
    ensures
        margin().units() == 15099494 * pow2(125),
        margin().magnitude() < INFINITY_MAGNITUDE,
        !margin().negative(),
{
    let u = pow2(149);
    lemma_pow2_pos(149);
    lemma_integer_exact(9);
    lemma_integer_exact(10);
    lemma_parts(of_integer(9).magnitude());
    lemma_parts(of_integer(10).magnitude());
    assert(((9 * u) * u) * 10 == (9 * u) * (10 * u)) by (nonlinear_arith);
    lemma_rounded_ratio(((9 * u) * u) as nat, (10 * u) as nat, (9 * u) as nat, 10);
    lemma2_to64();
    lemma_pow2_adds(24, 125);
    assert(9 * u == 0x0900_0000 * pow2(125));
    lemma_rounded_normalised(0x0900_0000, 10, 125);
    assert(nearest_even(0x0900_0000, 10) == 15099494);
    assert(exponent(1063675494) == 125);
}

/// A power is not less than what a share of it rounds to.
proof fn lemma_share_rounds_down(share: nat, m: nat)
    requires
        share <= 0x0100_0000,
        m < INFINITY_MAGNITUDE,
    ensures
        magnitude_of((share * pow2(125)) * magnitude_units(m), pow2(149)) <= m,
{
    let u = pow2(149);
    let units = magnitude_units(m);
    let exact = (share * pow2(125)) * units;
    lemma2_to64();
    lemma_pow2_adds(24, 125);
    lemma_pow2_pos(125);
    lemma_pow2_pos(149);
    assert(exact <= u * units) by (nonlinear_arith)
        requires
            exact == (share * pow2(125)) * units,
            share <= 0x0100_0000,
            u == 0x0100_0000 * pow2(125),
    ;
    lemma_rounded_at_most(exact, u, m);
}

/// A power times the margin does not round above the power.
#[verifier::spinoff_prover]
proof fn lemma_margin_rounds_down(power: Sample)
    requires
        power.magnitude() < INFINITY_MAGNITUDE,
        power.units() >= 0,
    ensures
        product(margin(), power).units() <= power.units(),
        !product(margin(), power).is_nan(),
{
    let m = power.magnitude();
    let made = magnitude_of((15099494 * pow2(125)) * magnitude_units(m), pow2(149));
    lemma_margin();
    lemma_share_rounds_down(15099494, m);
    lemma_parts(m);
    lemma_parts(made);
    lemma_parts(margin().magnitude());
    assert(distance(power.units()) == magnitude_units(m));
    assert(distance(margin().units()) == 15099494 * pow2(125));
    assert(product(margin(), power) == signed(power.negative(), made));
    if made < m {
        lemma_units_monotone(made, m);
    }
}

/// The coarse filter is chosen only where its error power is strictly lower than
/// that of the refined filter: a power times the margin never rounds above the
/// power. A power is not negative.
#[verifier::spinoff_prover]
pub proof fn lemma_coarse_has_lower_error(output: SubtractorState)
    requires
        !is_less(output.e2_refined_sum, of_integer(0)),
        !output.prefers_refined(),
    ensures
        is_less(output.e2_coarse_sum, output.e2_refined_sum),
{
    let power = output.e2_refined_sum;
    if output.coarse_is_better() {
        lemma_margin();
        lemma_integer_exact(0);
        lemma_parts(power.magnitude());
        if !power.is_nan() && !power.is_infinite() {
            lemma_margin_rounds_down(power);
        }
    }
}

/// When the coarse filter is preferred: where its error power is below nine tenths
/// of that of the refined filter, on a block louder than 30 per sample with an
/// echo louder than 60 per sample by either estimate; or where its error power is
/// lower and the refined filter leaves more than the signal had. Everywhere else
/// the refined filter is preferred.
pub proof fn lemma_when_coarse_is_preferred(output: SubtractorState)
    ensures
        output.prefers_refined() == !({
            let clearly = is_less(
                output.e2_coarse_sum,
                product(quotient(of_integer(9), of_integer(10)), output.e2_refined_sum),
            );
            let loud = is_less(of_integer(57600), output.y2);
            let echoing = is_less(of_integer(230400), output.s2_refined) || is_less(
                of_integer(230400),
                output.s2_coarse,
            );
            let lower = is_less(output.e2_coarse_sum, output.e2_refined_sum);
            let diverged = is_less(output.y2, output.e2_refined_sum);
            clearly && loud && echoing || lower && diverged
        }),
{
}

/// A fade, sample by sample: the first thirty samples mix both signals, the new
/// one with a weight of `(k + 1) / 31`, the rest is the new signal.
pub proof fn lemma_fade_by_sample(from: Seq<Sample>, to: Seq<Sample>, k: int)
    requires
        0 <= k < to.len(),
    ensures
        crossfaded(from, to).len() == to.len(),
        k >= 30 ==> crossfaded(from, to)[k] == to[k],
        k < 30 ==> ({
            let a = product(of_integer(k + 1), quotient(of_integer(1), of_integer(31)));
            crossfaded(from, to)[k] == sum(
                product(a, to[k]),
                product(difference(of_integer(1), a), from[k]),
            )
        }),
{
}

/// The linear filter output, sample by sample: where the filter stays, it is that
/// filter's error; where it changes, it ends in the error of the new filter and
/// starts with a fade from that of the old one.
pub proof fn lemma_linear_output_by_sample(
    output: SubtractorState,
    last_refined: bool,
    use_refined: bool,
    k: int,
)
    requires
        output.wf(),
        0 <= k < 64,
    ensures
        ({
            let e = output.linear_output(last_refined, use_refined);
            &&& e.len() == 64
            &&& use_refined && (last_refined || k >= 30) ==> e[k] == output.e_refined[k]
            &&& !use_refined && (!last_refined || k >= 30) ==> e[k] == output.e_coarse[k]
            &&& use_refined && !last_refined ==> e == crossfaded(
                output.e_coarse,
                output.e_refined,
            )
            &&& !use_refined && last_refined ==> e == crossfaded(
                output.e_refined,
                output.e_coarse,
            )
        }),
{
}

} // verus!
