//! Mixing, filtering and decimation of IQ samples.

use crate::formula::{evaluates, iq_evaluates, is_below, is_determined, law_one_result, Formula, IqFormula, HALF, ONE, PI, TWO, ZERO};
use crate::math::SampleMath;
use crate::raw::{level, raw_level};
use vstd::arithmetic::div_mod::{
    lemma_add_mod_noop, lemma_basic_div, lemma_div_denominator, lemma_div_multiples_vanish_fancy, lemma_div_plus_one,
    lemma_fundamental_div_mod, lemma_mod_multiples_vanish, lemma_mod_twice,
    lemma_small_mod,
};
use vstd::arithmetic::mul::{lemma_mul_inequality, lemma_mul_is_commutative, lemma_mul_is_distributive_add_other_way};
use vstd::prelude::*;

verus! {

/// The bit pattern of -2.
pub const MINUS_TWO: u32 = 0xC000_0000;

/// The bit pattern of 4.
pub const FOUR: u32 = 0x4080_0000;

/// The bit pattern of 0.9999: how slowly the DC blocker follows. At 2 MSPS it cuts off at
/// about 32 Hz.
pub const DC_ALPHA: u32 = 0x3F7F_F972;

/// The bit pattern of 1e-6.
pub const TINY: u32 = 0x3586_37BD;

/// The bit pattern of 0.42, the first coefficient of a Blackman window.
pub const BLACKMAN_0: u32 = 0x3ED7_0A3D;

/// The bit pattern of 0.08, the third coefficient of a Blackman window.
pub const BLACKMAN_2: u32 = 0x3DA3_D70A;

/// The running state of the mixer: the phase of its oscillator and the offsets that the DC
/// blocker has found on the two channels.
#[derive(Debug)]
pub struct Mixer<R> {
    pub phase: R,
    pub dc_i: R,
    pub dc_q: R,
}

impl<R: Copy> Clone for Mixer<R> {
    fn clone(&self) -> (r: Self)
        ensures
            r == *self,
    {
        *self
    }
}

impl<R: Copy> Copy for Mixer<R> {

}

/// The complex zero.
pub open spec fn iq_zero<R, C>() -> IqFormula<R, C> {
    Formula::Single(ZERO).with_imaginary(Formula::Single(ZERO))
}

/// Makes the complex zero.
pub fn zero_sample<M: SampleMath>(math: &M) -> (r: M::Iq)
    ensures
        iq_evaluates(math, iq_zero(), r),
{
    let r = math.iq(math.single(ZERO), math.single(ZERO));
    proof {
        reveal_with_fuel(evaluates, 2);
        reveal_with_fuel(iq_evaluates, 2);
    }
    r
}

/// The phase that a mixer to `-offset` Hz advances per sample at `rate` samples a second:
/// -2 pi offset / rate.
pub open spec fn phase_increment<R, C>(offset: R, rate: u32) -> Formula<R, C> {
    Formula::Single(MINUS_TWO).times(Formula::Single(PI)).times(Formula::Known(offset)).over(
        Formula::Whole(rate as u64),
    )
}

/// The offset that the DC blocker has found after a sample with the raw byte `byte`, where it
/// had found `dc` before.
pub open spec fn blocker_offset<R, C>(dc: R, byte: u8) -> Formula<R, C> {
    let kept = Formula::Single(DC_ALPHA).times(Formula::Known(dc));
    let weight = Formula::Single(ONE).minus(Formula::Single(DC_ALPHA));
    kept.plus(weight.times(raw_level(byte)))
}

/// The oscillator's phase one sample on, within one turn.
pub open spec fn next_phase<R, C>(phase: R, increment: R) -> Formula<R, C> {
    Formula::Known(phase).plus(Formula::Known(increment)).remainder(
        Formula::Single(TWO).times(Formula::Single(PI)),
    )
}

/// The sample with the raw bytes `i` and `q`, without the offsets `dc_i` and `dc_q`, turned by
/// `phase`.
pub open spec fn turned_sample<R, C>(i: u8, q: u8, dc_i: R, dc_q: R, phase: R) -> IqFormula<R, C> {
    let re = raw_level(i).minus(Formula::Known(dc_i));
    let im = raw_level(q).minus(Formula::Known(dc_q));
    let oscillator = Formula::Known(phase).cosine().with_imaginary(Formula::Known(phase).sine());
    re.with_imaginary(im).times(oscillator)
}

/// The mixer goes from `before` to `after` with the sample with the raw bytes `i` and `q`, and
/// makes `out` of it.
pub open spec fn mixes_one<M: SampleMath>(
    math: &M,
    before: Mixer<M::Real>,
    i: u8,
    q: u8,
    increment: M::Real,
    after: Mixer<M::Real>,
    out: M::Iq,
) -> bool {
    &&& evaluates(math, blocker_offset(before.dc_i, i), after.dc_i)
    &&& evaluates(math, blocker_offset(before.dc_q, q), after.dc_q)
    &&& iq_evaluates(math, turned_sample(i, q, after.dc_i, after.dc_q, before.phase), out)
    &&& evaluates(math, next_phase(before.phase, increment), after.phase)
}

/// Lets the DC blocker follow the level `x`.
fn follow<M: SampleMath>(math: &M, dc: M::Real, x: M::Real, Ghost(byte): Ghost<u8>) -> (r: M::Real)
    requires
        evaluates(math, raw_level(byte), x),
    ensures
        evaluates(math, blocker_offset(dc, byte), r),
{
    let kept = math.times(math.single(DC_ALPHA), dc);
    let weight = math.minus(math.single(ONE), math.single(DC_ALPHA));
    let r = math.plus(kept, math.times(weight, x));
    proof {
        reveal_with_fuel(evaluates, 4);
    }
    r
}

/// Takes the DC offset off the sample with the raw bytes `i` and `q` and turns it by the
/// mixer's phase.
fn mix<M: SampleMath>(math: &M, i: u8, q: u8, increment: M::Real, mixer: &mut Mixer<M::Real>) -> (r:
    M::Iq)
    ensures
        mixes_one(math, *old(mixer), i, q, increment, *final(mixer), r),
{
    let phase = mixer.phase;
    let re = level(math, i);
    let im = level(math, q);
    let dc_i = follow(math, mixer.dc_i, re, Ghost(i));
    let dc_q = follow(math, mixer.dc_q, im, Ghost(q));
    let centred = math.iq(math.minus(re, dc_i), math.minus(im, dc_q));
    let oscillator = math.iq(math.cosine(phase), math.sine(phase));
    let r = math.iq_times(centred, oscillator);
    let turn = math.times(math.single(TWO), math.single(PI));
    let next = math.remainder(math.plus(phase, increment), turn);
    proof {
        reveal_with_fuel(evaluates, 5);
        reveal_with_fuel(iq_evaluates, 5);
    }
    *mixer = Mixer { phase: next, dc_i, dc_q };
    r
}

/// `sums` are the partial sums of `samples`.
pub open spec fn iq_sums<M: SampleMath>(math: &M, samples: Seq<M::Iq>, sums: Seq<M::Iq>) -> bool {
    &&& sums.len() == samples.len() + 1
    &&& iq_evaluates(math, iq_zero(), sums[0])
    &&& forall|k: int|
        0 <= k < samples.len() ==> call_ensures(
            M::iq_plus,
            (math, sums[k], #[trigger] samples[k]),
            sums[k + 1],
        )
}

/// `mean` is the mean of `samples`.
pub open spec fn is_iq_mean<M: SampleMath>(math: &M, samples: Seq<M::Iq>, mean: M::Iq) -> bool {
    exists|sums: Seq<M::Iq>| #[trigger] is_iq_mean_by(math, samples, mean, sums)
}

/// The samples have the partial sums `sums`.
pub open spec fn is_iq_mean_by<M: SampleMath>(
    math: &M,
    samples: Seq<M::Iq>,
    mean: M::Iq,
    sums: Seq<M::Iq>,
) -> bool {
    &&& iq_sums(math, samples, sums)
    &&& iq_evaluates(math, iq_part(sums.last(), samples.len()), mean)
}

/// The `count`th part of `sum`.
pub open spec fn iq_part<R, C>(sum: C, count: nat) -> IqFormula<R, C> {
    IqFormula::Known(sum).over(Formula::Whole(count as u64))
}

/// `mixers` are the states of the mixer before and after each of the first samples of `buf`,
/// and `turned` is what it makes of them.
pub open spec fn mixes<M: SampleMath>(
    math: &M,
    buf: Seq<u8>,
    increment: M::Real,
    mixers: Seq<Mixer<M::Real>>,
    turned: Seq<M::Iq>,
) -> bool {
    &&& mixers.len() == turned.len() + 1
    &&& forall|i: int|
        0 <= i < turned.len() ==> mixes_one(
            math,
            mixers[i],
            buf[2 * i],
            buf[2 * i + 1],
            increment,
            mixers[i + 1],
            #[trigger] turned[i],
        )
}

/// `out` holds the mean of every `factor` consecutive samples of `samples`.
pub open spec fn iq_means<M: SampleMath>(
    math: &M,
    samples: Seq<M::Iq>,
    factor: int,
    out: Seq<M::Iq>,
) -> bool {
    &&& samples.len() == out.len() * factor
    &&& forall|c: int|
        0 <= c < out.len() ==> is_iq_mean(
            math,
            samples.subrange(c * factor, c * factor + factor),
            #[trigger] out[c],
        )
}

/// `out` is `buf`, mixed by `increment` per sample and decimated by `factor`, where the mixer
/// goes from `before` to `after`. Samples that fill no whole group are left out.
pub open spec fn mixes_down<M: SampleMath>(
    math: &M,
    buf: Seq<u8>,
    increment: M::Real,
    factor: int,
    before: Mixer<M::Real>,
    after: Mixer<M::Real>,
    out: Seq<M::Iq>,
) -> bool {
    &&& out.len() == buf.len() as int / 2 / factor
    &&& exists|mixers: Seq<Mixer<M::Real>>, turned: Seq<M::Iq>| #[trigger]
        mixes_through(math, buf, increment, factor, before, after, out, mixers, turned)
}

/// The mixer goes through the states `mixers` and makes `turned` of the samples, and `out`
/// holds the means of the latter.
pub open spec fn mixes_through<M: SampleMath>(
    math: &M,
    buf: Seq<u8>,
    increment: M::Real,
    factor: int,
    before: Mixer<M::Real>,
    after: Mixer<M::Real>,
    out: Seq<M::Iq>,
    mixers: Seq<Mixer<M::Real>>,
    turned: Seq<M::Iq>,
) -> bool {
    &&& mixes(math, buf, increment, mixers, turned)
    &&& mixers[0] == before
    &&& mixers.last() == after
    &&& iq_means(math, turned, factor, out)
}

/// `out` is `buf`, at `rate` samples a second, mixed down by `offset` Hz and decimated by
/// `factor`, where the mixer goes from `before` to `after`.
pub open spec fn mixes_channel<M: SampleMath>(
    math: &M,
    buf: Seq<u8>,
    offset: M::Real,
    rate: u32,
    factor: int,
    before: Mixer<M::Real>,
    after: Mixer<M::Real>,
    out: Seq<M::Iq>,
) -> bool {
    exists|increment: M::Real| #[trigger]
        mixes_channel_by(math, buf, offset, rate, factor, before, after, out, increment)
}

/// The oscillator's phase advances by `increment` per sample.
pub open spec fn mixes_channel_by<M: SampleMath>(
    math: &M,
    buf: Seq<u8>,
    offset: M::Real,
    rate: u32,
    factor: int,
    before: Mixer<M::Real>,
    after: Mixer<M::Real>,
    out: Seq<M::Iq>,
    increment: M::Real,
) -> bool {
    &&& evaluates(math, phase_increment(offset, rate), increment)
    &&& mixes_down(math, buf, increment, factor, before, after, out)
}

/// Mixes the samples in `buf` down by `offset` Hz, with their DC offset removed, and decimates
/// them by `factor`, each output being the mean of its group.
pub fn mix_decimate<M: SampleMath>(
    math: &M,
    buf: &[u8],
    offset: M::Real,
    rate: u32,
    factor: usize,
    mixer: &mut Mixer<M::Real>,
) -> (r: Vec<M::Iq>)
    requires
        factor > 0,
    ensures
        mixes_channel(
            math,
            buf@,
            offset,
            rate,
            factor as int,
            *old(mixer),
            *final(mixer),
            r@,
        ),
{
    let turn = math.times(math.single(MINUS_TWO), math.single(PI));
    let increment = math.over(math.times(turn, offset), math.whole(rate as u64));
    proof {
        reveal_with_fuel(evaluates, 5);
    }
    let count: usize = (buf.len() / 2) / factor;
    let mut out: Vec<M::Iq> = Vec::new();
    let mut at: usize = 0;
    let ghost mut mixers: Seq<Mixer<M::Real>> = seq![*mixer];
    let ghost mut turned: Seq<M::Iq> = Seq::empty();
    let mut c: usize = 0;
    while c < count
        invariant
            factor > 0,
            count == buf@.len() as int / 2 / factor as int,
            c <= count,
            out@.len() == c,
            at == c * factor,
            turned.len() == at,
            mixers[0] == *old(mixer),
            mixers.last() == *mixer,
            mixes(math, buf@, increment, mixers, turned),
            iq_means(math, turned, factor as int, out@),
        decreases count - c,
    {
        let mut acc = zero_sample(math);
        let ghost mut sums: Seq<M::Iq> = seq![acc];
        let ghost start = at as int;
        let ghost earlier = turned;
        let ghost outputs = out@;
        let mut k: usize = 0;
        proof {
            lemma_group_in_range(buf@.len() as int / 2, factor as int, c as int);
        }
        while k < factor
            invariant
                k <= factor,
                start == c * factor,
                start + factor <= buf.len() / 2,
                at == start + k,
                turned.len() == at,
                mixers[0] == *old(mixer),
                mixers.last() == *mixer,
                mixes(math, buf@, increment, mixers, turned),
                earlier.len() == start,
                forall|j: int| 0 <= j < start ==> turned[j] == earlier[j],
                sums.last() == acc,
                iq_sums(math, turned.subrange(start, at as int), sums),
            decreases factor - k,
        {
            let sample = mix(math, buf[at * 2], buf[at * 2 + 1], increment, mixer);
            let sum = math.iq_plus(acc, sample);
            proof {
                let group = turned.subrange(start, at as int);
                turned = turned.push(sample);
                mixers = mixers.push(*mixer);
                assert(turned.subrange(start, at + 1) =~= group.push(sample));
                sums = sums.push(sum);
            }
            acc = sum;
            at += 1;
            k += 1;
        }
        let mean = math.iq_over(acc, math.whole(factor as u64));
        out.push(mean);
        proof {
            reveal_with_fuel(evaluates, 2);
            reveal_with_fuel(iq_evaluates, 2);
            lemma_mul_is_distributive_add_other_way(factor as int, c as int, 1);
            assert(is_iq_mean_by(math, turned.subrange(start, start + factor), mean, sums));
            assert forall|d: int| 0 <= d < out@.len() implies is_iq_mean(
                math,
                turned.subrange(d * factor, d * factor + factor),
                #[trigger] out@[d],
            ) by {
                if d < c {
                    lemma_groups_ordered(d, c as int, factor as int);
                    assert(turned.subrange(d * factor, d * factor + factor) =~= earlier.subrange(
                        d * factor,
                        d * factor + factor,
                    ));
                    assert(is_iq_mean(
                        math,
                        earlier.subrange(d * factor, d * factor + factor),
                        outputs[d],
                    ));
                }
            }
        }
        c += 1;
    }
    assert(mixes_through(
        math,
        buf@,
        increment,
        factor as int,
        *old(mixer),
        *mixer,
        out@,
        mixers,
        turned,
    ));
    assert(mixes_channel_by(
        math,
        buf@,
        offset,
        rate,
        factor as int,
        *old(mixer),
        *mixer,
        out@,
        increment,
    ));
    out
}

/// Group `c` lies within the first `total` samples.
proof fn lemma_group_in_range(total: int, factor: int, c: int)
    requires
        factor > 0,
        0 <= c < total / factor,
    ensures
        0 <= c * factor,
        c * factor + factor <= total,
{
    lemma_fundamental_div_mod(total, factor);
    lemma_mul_inequality(c + 1, total / factor, factor);
    lemma_mul_is_distributive_add_other_way(factor, c, 1);
    lemma_mul_inequality(0, c, factor);
}

/// Group `d` ends before group `c` starts.
proof fn lemma_groups_ordered(d: int, c: int, factor: int)
    requires
        0 <= d < c,
        factor > 0,
    ensures
        0 <= d * factor,
        d * factor + factor <= c * factor,
{
    lemma_mul_inequality(0, d, factor);
    lemma_mul_inequality(d + 1, c, factor);
    lemma_mul_is_distributive_add_other_way(factor, d, 1);
}

/// `sums` are the partial sums of `values`.
pub open spec fn sums_of<M: SampleMath>(math: &M, values: Seq<M::Real>, sums: Seq<M::Real>) -> bool {
    &&& sums.len() == values.len() + 1
    &&& evaluates(math, Formula::Single(ZERO), sums[0])
    &&& forall|k: int|
        0 <= k < values.len() ==> call_ensures(
            M::plus,
            (math, sums[k], #[trigger] values[k]),
            sums[k + 1],
        )
}

/// Adds up the `count` values of `values` from `from` on.
fn sum<M: SampleMath>(math: &M, values: &[M::Real], from: usize, count: usize) -> (r: M::Real)
    requires
        from + count <= values@.len(),
    ensures
        exists|sums: Seq<M::Real>| #[trigger]
            sums_of(math, values@.subrange(from as int, from + count), sums) && sums.last() == r,
{
    let mut acc = math.single(ZERO);
    let ghost mut sums: Seq<M::Real> = seq![acc];
    let mut k: usize = 0;
    while k < count
        invariant
            k <= count,
            from + count <= values.len(),
            sums.last() == acc,
            sums_of(math, values@.subrange(from as int, from + k), sums),
        decreases count - k,
    {
        let next = math.plus(acc, values[from + k]);
        proof {
            assert(values@.subrange(from as int, from + k + 1) =~= values@.subrange(
                from as int,
                from + k,
            ).push(values@[from + k]));
            sums = sums.push(next);
        }
        acc = next;
        k += 1;
    }
    acc
}

/// Where tap `i` of `n` stands from the middle.
pub open spec fn from_middle<R, C>(i: int, n: int) -> Formula<R, C> {
    Formula::Whole(i as u64).minus(Formula::Whole((n - 1) as u64).over(Formula::Single(TWO)))
}

/// The cutoff as a fraction of the sample rate.
pub open spec fn relative_cutoff<R, C>(cutoff_hz: u32, rate: u32) -> Formula<R, C> {
    Formula::Whole(cutoff_hz as u64).over(Formula::Whole(rate as u64))
}

/// The impulse response of an ideal low-pass filter at tap `i` of `n`: sin(2 pi f x) / (pi x),
/// or 2 f in the middle.
pub open spec fn sinc<R, C>(i: int, n: int, cutoff_hz: u32, rate: u32, middle: bool) -> Formula<R, C> {
    let f = relative_cutoff(cutoff_hz, rate);
    let x = from_middle(i, n);
    if middle {
        Formula::Single(TWO).times(f)
    } else {
        Formula::Single(TWO).times(Formula::Single(PI)).times(f).times(x).sine().over(
            Formula::Single(PI).times(x),
        )
    }
}

/// `factor` turns of pi, times `i` / (`n` - 1).
pub open spec fn window_angle<R, C>(factor: u32, i: int, n: int) -> Formula<R, C> {
    Formula::Single(factor).times(Formula::Single(PI)).times(Formula::Whole(i as u64)).over(
        Formula::Whole((n - 1) as u64),
    )
}

/// Point `i` of a Blackman window of `n` points:
/// 0.42 - 0.5 cos(2 pi i / (n - 1)) + 0.08 cos(4 pi i / (n - 1)).
pub open spec fn blackman<R, C>(i: int, n: int) -> Formula<R, C> {
    Formula::Single(BLACKMAN_0).minus(
        Formula::Single(HALF).times(window_angle(TWO, i, n).cosine()),
    ).plus(Formula::Single(BLACKMAN_2).times(window_angle(FOUR, i, n).cosine()))
}

/// `tap` is tap `i` of `n` of a Blackman-windowed low-pass filter, before it is normalised.
pub open spec fn is_tap<M: SampleMath>(
    math: &M,
    i: int,
    n: int,
    cutoff_hz: u32,
    rate: u32,
    tap: M::Real,
) -> bool {
    exists|middle: bool| #[trigger] is_tap_by(math, i, n, cutoff_hz, rate, tap, middle)
}

/// Tap `i` is found to stand in the `middle` or not.
pub open spec fn is_tap_by<M: SampleMath>(
    math: &M,
    i: int,
    n: int,
    cutoff_hz: u32,
    rate: u32,
    tap: M::Real,
    middle: bool,
) -> bool {
    &&& is_below(math, from_middle(i, n).absolute(), Formula::Single(TINY), middle)
    &&& evaluates(math, sinc(i, n, cutoff_hz, rate, middle).times(blackman(i, n)), tap)
}

/// Computes point `i` of a Blackman window of `n` points.
fn blackman_point<M: SampleMath>(math: &M, i: usize, n: usize) -> (r: M::Real)
    requires
        i < n,
    ensures
        evaluates(math, blackman(i as int, n as int), r),
{
    let turn = math.times(math.single(TWO), math.single(PI));
    let angle = math.over(math.times(turn, math.whole(i as u64)), math.whole((n - 1) as u64));
    let turns = math.times(math.single(FOUR), math.single(PI));
    let twice = math.over(math.times(turns, math.whole(i as u64)), math.whole((n - 1) as u64));
    let inner = math.minus(
        math.single(BLACKMAN_0),
        math.times(math.single(HALF), math.cosine(angle)),
    );
    let r = math.plus(inner, math.times(math.single(BLACKMAN_2), math.cosine(twice)));
    proof {
        reveal_with_fuel(evaluates, 9);
    }
    r
}

/// Computes tap `i` of `n` of a low-pass filter, before it is normalised.
fn lowpass_tap<M: SampleMath>(math: &M, i: usize, n: usize, cutoff_hz: u32, rate: u32) -> (r: M::Real)
    requires
        i < n,
    ensures
        is_tap(math, i as int, n as int, cutoff_hz, rate, r),
{
    let f = math.over(math.whole(cutoff_hz as u64), math.whole(rate as u64));
    let m = math.over(math.whole((n - 1) as u64), math.single(TWO));
    let x = math.minus(math.whole(i as u64), m);
    proof {
        reveal_with_fuel(evaluates, 4);
        assert(evaluates(math, relative_cutoff(cutoff_hz, rate), f));
        assert(evaluates(math, from_middle(i as int, n as int), x));
    }
    let middle = math.below(math.absolute(x), math.single(TINY));
    let ideal = if middle {
        math.times(math.single(TWO), f)
    } else {
        let turn = math.times(math.single(TWO), math.single(PI));
        let angle = math.times(math.times(turn, f), x);
        math.over(math.sine(angle), math.times(math.single(PI), x))
    };
    let r = math.times(ideal, blackman_point(math, i, n));
    proof {
        reveal_with_fuel(evaluates, 9);
        assert(is_below(
            math,
            from_middle(i as int, n as int).absolute(),
            Formula::Single(TINY),
            middle,
        ));
        assert(evaluates(math, sinc(i as int, n as int, cutoff_hz, rate, middle), ideal));
        assert(is_tap_by(math, i as int, n as int, cutoff_hz, rate, r, middle));
    }
    r
}

/// `taps` are the taps of a low-pass filter, scaled to a gain of one at frequency 0.
pub open spec fn is_lowpass<M: SampleMath>(
    math: &M,
    cutoff_hz: u32,
    rate: u32,
    taps: Seq<M::Real>,
) -> bool {
    exists|raw: Seq<M::Real>, sums: Seq<M::Real>| #[trigger]
        lowpass_by(math, cutoff_hz, rate, taps, raw, sums)
}

/// The taps before they are scaled are `raw`, with the partial sums `sums`.
pub open spec fn lowpass_by<M: SampleMath>(
    math: &M,
    cutoff_hz: u32,
    rate: u32,
    taps: Seq<M::Real>,
    raw: Seq<M::Real>,
    sums: Seq<M::Real>,
) -> bool {
    &&& sums_of(math, raw, sums)
    &&& raw.len() == taps.len()
    &&& forall|i: int|
        #![trigger raw[i]]
        #![trigger taps[i]]
        0 <= i < taps.len() ==> is_tap(math, i, taps.len() as int, cutoff_hz, rate, raw[i])
            && call_ensures(M::over, (math, raw[i], sums.last()), taps[i])
}

/// Designs a low-pass filter of `count` taps with the -6 dB point at `cutoff_hz`.
pub fn make_lpf_fir<M: SampleMath>(math: &M, cutoff_hz: u32, rate: u32, count: usize) -> (r: Vec<
    M::Real,
>)
    requires
        count > 0,
    ensures
        r@.len() == count,
        is_lowpass(math, cutoff_hz, rate, r@),
{
    let mut raw: Vec<M::Real> = Vec::new();
    let mut i: usize = 0;
    while i < count
        invariant
            i <= count,
            raw@.len() == i,
            forall|j: int|
                0 <= j < i ==> is_tap(
                    math,
                    j,
                    count as int,
                    cutoff_hz,
                    rate,
                    #[trigger] raw@[j],
                ),
        decreases count - i,
    {
        raw.push(lowpass_tap(math, i, count, cutoff_hz, rate));
        i += 1;
    }
    let total = sum(math, raw.as_slice(), 0, count);
    let ghost sums = choose|sums: Seq<M::Real>| #[trigger]
        sums_of(math, raw@.subrange(0, count as int), sums) && sums.last() == total;
    assert(raw@.subrange(0, count as int) =~= raw@);
    let mut taps: Vec<M::Real> = Vec::new();
    let mut k: usize = 0;
    while k < count
        invariant
            k <= count,
            raw@.len() == count,
            taps@.len() == k,
            forall|j: int|
                0 <= j < k ==> call_ensures(M::over, (math, raw@[j], total), #[trigger] taps@[j]),
        decreases count - k,
    {
        taps.push(math.over(raw[k], total));
        k += 1;
    }
    assert(lowpass_by(math, cutoff_hz, rate, taps@, raw@, sums));
    taps
}

/// The samples that a filter remembers, in a ring.
#[derive(Debug)]
pub struct DelayLine<T> {
    /// The ring.
    pub slots: Vec<T>,
    /// Where the next sample goes: the place of the oldest one.
    pub pos: usize,
}

impl<T> DelayLine<T> {
    /// The next place is one of the ring's.
    pub open spec fn wf(&self) -> bool {
        self.slots@.len() > 0 ==> self.pos < self.slots@.len()
    }

    /// The samples remembered, from the oldest to the newest.
    pub open spec fn history(&self) -> Seq<T> {
        Seq::new(
            self.slots@.len(),
            |j: int|
                if self.pos + j < self.slots@.len() {
                    self.slots@[self.pos + j]
                } else {
                    self.slots@[self.pos + j - self.slots@.len()]
                },
        )
    }

    /// A ring without places.
    pub fn new() -> (r: Self)
        ensures
            r.wf(),
            r.slots@ == Seq::<T>::empty(),
            r.pos == 0,
    {
        DelayLine { slots: Vec::new(), pos: 0 }
    }
}

/// `out` is the weighted sum of `window`, whose newest sample, the last one, has weight
/// `taps[0]`.
pub open spec fn weighs<M: SampleMath>(
    math: &M,
    taps: Seq<M::Real>,
    window: Seq<M::Iq>,
    out: M::Iq,
) -> bool {
    exists|sums: Seq<M::Iq>| #[trigger] weighted_sums(math, taps, window, sums) && sums.last() == out
}

/// `sum` plus `sample` weighted by `tap`.
pub open spec fn plus_weighted<R, C>(sum: C, sample: C, tap: R) -> IqFormula<R, C> {
    IqFormula::Known(sum).plus(IqFormula::Known(sample).scaled(Formula::Known(tap)))
}

/// `sums` are the partial weighted sums of `window`, from its newest sample on.
pub open spec fn weighted_sums<M: SampleMath>(
    math: &M,
    taps: Seq<M::Real>,
    window: Seq<M::Iq>,
    sums: Seq<M::Iq>,
) -> bool {
    &&& sums.len() == taps.len() + 1
    &&& iq_evaluates(math, iq_zero(), sums[0])
    &&& forall|k: int|
        0 <= k < taps.len() ==> iq_evaluates(
            math,
            plus_weighted(sums[k], window[taps.len() - 1 - k], #[trigger] taps[k]),
            sums[k + 1],
        )
}

/// `out` is the stream `samples` filtered by `taps`, where `history` went before it: output
/// `i` is the weighted sum of sample `i` and those before it.
pub open spec fn filters<M: SampleMath>(
    math: &M,
    taps: Seq<M::Real>,
    history: Seq<M::Iq>,
    samples: Seq<M::Iq>,
    out: Seq<M::Iq>,
) -> bool {
    &&& out.len() == samples.len()
    &&& forall|i: int|
        0 <= i < samples.len() ==> weighs(
            math,
            taps,
            (history + samples).subrange(i + 1, i + 1 + taps.len()),
            #[trigger] out[i],
        )
}

/// What a filter with a memory of `history.len()` samples remembers after `samples`.
pub open spec fn remembered<T>(history: Seq<T>, samples: Seq<T>) -> Seq<T> {
    (history + samples).skip(samples.len() as int)
}

/// `history` is what a filter of `n` taps goes on from: what `line` remembers, or zeros where
/// `line` has another size.
pub open spec fn goes_on_from<M: SampleMath>(
    math: &M,
    line: DelayLine<M::Iq>,
    n: int,
    history: Seq<M::Iq>,
) -> bool {
    if line.slots@.len() == n {
        history == line.history()
    } else {
        &&& history.len() == n
        &&& forall|j: int| 0 <= j < n ==> iq_evaluates(math, iq_zero(), #[trigger] history[j])
    }
}

/// The place at which a filter of `n` taps goes on: that of `line`, or the first one where
/// `line` has another size.
pub open spec fn first_place<T>(line: DelayLine<T>, n: int) -> int {
    if line.slots@.len() == n {
        line.pos as int
    } else {
        0
    }
}

/// The place in a ring of `n` that is `count` places on from `place`.
pub open spec fn place_after(place: int, count: int, n: int) -> int {
    if n == 0 {
        place
    } else {
        (place + count) % n
    }
}

/// `out` is the stream `samples` filtered by `taps`, and the filter's memory goes from
/// `before`, or from zeros where that has another size, to `after`.
pub open spec fn filters_block<M: SampleMath>(
    math: &M,
    taps: Seq<M::Real>,
    before: DelayLine<M::Iq>,
    after: DelayLine<M::Iq>,
    samples: Seq<M::Iq>,
    out: Seq<M::Iq>,
) -> bool {
    let n = taps.len() as int;
    &&& after.slots@.len() == n
    &&& after.pos == place_after(first_place(before, n), samples.len() as int, n)
    &&& exists|history: Seq<M::Iq>| #[trigger]
        filters_block_by(math, taps, before, after, samples, out, history)
}

/// The samples `history` went before the block.
pub open spec fn filters_block_by<M: SampleMath>(
    math: &M,
    taps: Seq<M::Real>,
    before: DelayLine<M::Iq>,
    after: DelayLine<M::Iq>,
    samples: Seq<M::Iq>,
    out: Seq<M::Iq>,
    history: Seq<M::Iq>,
) -> bool {
    &&& goes_on_from(math, before, taps.len() as int, history)
    &&& filters(math, taps, history, samples, out)
    &&& after.history() == remembered(history, samples)
}

/// The place `a` of a ring of `n`, where `a` is less than two rounds on.
proof fn lemma_wrap(a: int, n: int)
    requires
        0 <= a < 2 * n,
    ensures
        a % n == if a < n { a } else { a - n },
{
    if a < n {
        lemma_small_mod(a as nat, n as nat);
    } else {
        lemma_small_mod((a - n) as nat, n as nat);
        lemma_mod_multiples_vanish(1, a - n, n);
    }
}

/// Going on by `i` places and then by `j` is going on by both.
proof fn lemma_place_after(place: int, i: int, j: int, n: int)
    requires
        n >= 0,
    ensures
        place_after(place_after(place, i, n), j, n) == place_after(place, i + j, n),
{
    if n > 0 {
        lemma_add_mod_noop(place + i, j, n);
        lemma_add_mod_noop((place + i) % n, j, n);
        lemma_mod_twice(place + i, n);
    }
}

/// Puts `sample` in the place of the oldest one and weighs what is then remembered.
fn filter_one<M: SampleMath>(
    math: &M,
    sample: M::Iq,
    taps: &[M::Real],
    line: &mut DelayLine<M::Iq>,
) -> (r: M::Iq)
    requires
        taps@.len() > 0,
        2 * taps@.len() <= usize::MAX,
        old(line).slots@.len() == taps@.len(),
        old(line).wf(),
    ensures
        final(line).slots@.len() == taps@.len(),
        final(line).wf(),
        final(line).pos == (old(line).pos + 1) % (taps@.len() as int),
        final(line).history() == old(line).history().drop_first().push(sample),
        weighs(math, taps@, final(line).history(), r),
{
    let n: usize = taps.len();
    let pos: usize = line.pos;
    line.slots[pos] = sample;
    let ghost window = old(line).history().drop_first().push(sample);
    let ghost slots = line.slots@;
    proof {
        assert forall|k: int| 0 <= k < n implies window[n - 1 - k] == #[trigger] slots[(pos + n - k)
            % n as int] by {
            lemma_wrap(pos + n - k, n as int);
        }
    }
    let mut acc = zero_sample(math);
    let ghost mut sums: Seq<M::Iq> = seq![acc];
    let mut k: usize = 0;
    while k < n
        invariant
            k <= n,
            n == taps@.len(),
            2 * n <= usize::MAX,
            pos < n,
            slots == line.slots@,
            slots.len() == n,
            forall|j: int|
                0 <= j < n ==> window[n - 1 - j] == #[trigger] slots[(pos + n - j) % n as int],
            sums.len() == k + 1,
            sums.last() == acc,
            iq_evaluates(math, iq_zero(), sums[0]),
            forall|j: int|
                0 <= j < k ==> iq_evaluates(
                    math,
                    plus_weighted(sums[j], window[n - 1 - j], #[trigger] taps@[j]),
                    sums[j + 1],
                ),
        decreases n - k,
    {
        let at: usize = (pos + n - k) % n;
        let next = math.iq_plus(acc, math.iq_scaled(line.slots[at], taps[k]));
        proof {
            reveal_with_fuel(evaluates, 3);
            reveal_with_fuel(iq_evaluates, 3);
            assert(slots[(pos + n - k) % n as int] == window[n - 1 - k]);
            sums = sums.push(next);
        }
        acc = next;
        k += 1;
    }
    line.pos = (pos + 1) % n;
    proof {
        lemma_wrap(pos + 1, n as int);
        assert(line.history() =~= window);
        assert(weighted_sums(math, taps@, window, sums));
    }
    acc
}

/// Filters `samples` by `taps`. The filter goes on from what `line` remembers, so that blocks
/// of a stream are filtered as one; a line of another size starts from zeros.
pub fn apply_fir_c<M: SampleMath>(
    math: &M,
    samples: &[M::Iq],
    taps: &[M::Real],
    line: &mut DelayLine<M::Iq>,
) -> (r: Vec<M::Iq>)
    requires
        taps@.len() > 0 || samples@.len() == 0,
        2 * taps@.len() <= usize::MAX,
        old(line).wf(),
    ensures
        final(line).wf(),
        filters_block(math, taps@, *old(line), *final(line), samples@, r@),
{
    let n: usize = taps.len();
    if line.slots.len() != n {
        let mut zeros: Vec<M::Iq> = Vec::new();
        while zeros.len() < n
            invariant
                zeros@.len() <= n,
                forall|j: int|
                    0 <= j < zeros@.len() ==> iq_evaluates(
                        math,
                        iq_zero(),
                        #[trigger] zeros@[j],
                    ),
            decreases n - zeros.len(),
        {
            zeros.push(zero_sample(math));
        }
        line.slots = zeros;
        line.pos = 0;
    }
    let ghost history = line.history();
    let ghost place = line.pos as int;
    assert(goes_on_from(math, *old(line), n as int, history));
    proof {
        if n > 0 {
            lemma_small_mod(line.pos as nat, n as nat);
        }
    }
    let mut out: Vec<M::Iq> = Vec::new();
    let mut i: usize = 0;
    assert(remembered(history, samples@.take(0)) =~= history);
    while i < samples.len()
        invariant
            i <= samples@.len(),
            n == taps@.len(),
            n > 0 || samples@.len() == 0,
            2 * n <= usize::MAX,
            line.slots@.len() == n,
            line.wf(),
            history.len() == n,
            place == first_place(*old(line), n as int),
            line.pos == place_after(place, i as int, n as int),
            line.history() == remembered(history, samples@.take(i as int)),
            out@.len() == i,
            forall|j: int|
                0 <= j < i ==> weighs(
                    math,
                    taps@,
                    (history + samples@).subrange(j + 1, j + 1 + n),
                    #[trigger] out@[j],
                ),
        decreases samples.len() - i,
    {
        let filtered = filter_one(math, samples[i], taps, line);
        proof {
            lemma_place_after(place, i as int, 1, n as int);
            assert(line.history() =~= remembered(history, samples@.take(i + 1)));
            assert(line.history() =~= (history + samples@).subrange(i + 1, i + 1 + n));
        }
        out.push(filtered);
        i += 1;
    }
    assert(samples@.take(samples@.len() as int) =~= samples@);
    assert(filters_block_by(math, taps@, *old(line), *line, samples@, out@, history));
    out
}

/// Every `factor`th sample of `samples`, from the first on.
pub open spec fn thinned<T>(samples: Seq<T>, factor: int) -> Seq<T> {
    Seq::new(
        ((samples.len() + factor - 1) / factor) as nat,
        |i: int| samples[i * factor],
    )
}

/// Keeps every `factor`th sample.
pub fn thin<T: Copy>(samples: &[T], factor: usize) -> (r: Vec<T>)
    requires
        factor > 0,
    ensures
        r@ == thinned(samples@, factor as int),
{
    let count: usize = if samples.len() == 0 {
        0
    } else {
        (samples.len() - 1) / factor + 1
    };
    let mut out: Vec<T> = Vec::new();
    let mut at: usize = 0;
    proof {
        if samples@.len() == 0 {
            lemma_basic_div(factor - 1, factor as int);
        } else {
            lemma_div_plus_one(samples@.len() - 1, factor as int);
        }
        assert(out@.len() * factor == 0) by (nonlinear_arith)
            requires
                out@.len() == 0,
        ;
    }
    while out.len() < count
        invariant
            factor > 0,
            count == (samples@.len() + factor - 1) / factor as int,
            count > 0 ==> samples.len() > 0 && count == (samples@.len() - 1) / factor as int + 1,
            out@.len() <= count,
            out@.len() < count ==> at == out@.len() * factor,
            forall|j: int| 0 <= j < out@.len() ==> #[trigger] out@[j] == samples@[j * factor],
        decreases count - out.len(),
    {
        proof {
            lemma_fundamental_div_mod(samples@.len() - 1, factor as int);
            lemma_mul_inequality(out@.len() as int, count - 1, factor as int);
            lemma_mul_is_commutative(factor as int, count - 1);
        }
        out.push(samples[at]);
        if out.len() < count {
            proof {
                lemma_mul_inequality(out@.len() as int, count - 1, factor as int);
                lemma_mul_is_distributive_add_other_way(factor as int, out@.len() - 1, 1);
            }
            at += factor;
        }
    }
    assert(out@ =~= thinned(samples@, factor as int));
    out
}

/// `mean` is the mean of `values`.
pub open spec fn is_mean<M: SampleMath>(math: &M, values: Seq<M::Real>, mean: M::Real) -> bool {
    exists|sums: Seq<M::Real>| #[trigger] is_mean_by(math, values, mean, sums)
}

/// The values have the partial sums `sums`.
pub open spec fn is_mean_by<M: SampleMath>(
    math: &M,
    values: Seq<M::Real>,
    mean: M::Real,
    sums: Seq<M::Real>,
) -> bool {
    &&& sums_of(math, values, sums)
    &&& evaluates(math, part(sums.last(), values.len()), mean)
}

/// The `count`th part of `sum`.
pub open spec fn part<R, C>(sum: R, count: nat) -> Formula<R, C> {
    Formula::Known(sum).over(Formula::Whole(count as u64))
}

/// `out` holds the mean of every `factor` consecutive values of `values`. Values that fill no
/// whole group are left out.
pub open spec fn averages<M: SampleMath>(
    math: &M,
    values: Seq<M::Real>,
    factor: int,
    out: Seq<M::Real>,
) -> bool {
    &&& out.len() == values.len() as int / factor
    &&& forall|c: int|
        0 <= c < out.len() ==> is_mean(
            math,
            values.subrange(c * factor, c * factor + factor),
            #[trigger] out[c],
        )
}

/// Decimates `values` by `factor`, each output being the mean of its group.
pub fn decimate_r<M: SampleMath>(math: &M, values: &[M::Real], factor: usize) -> (r: Vec<M::Real>)
    requires
        factor > 0,
    ensures
        averages(math, values@, factor as int, r@),
{
    let count: usize = values.len() / factor;
    let mut out: Vec<M::Real> = Vec::new();
    let mut at: usize = 0;
    while out.len() < count
        invariant
            factor > 0,
            count == values@.len() as int / factor as int,
            out@.len() <= count,
            at == out@.len() * factor,
            at <= values.len(),
            forall|c: int|
                0 <= c < out@.len() ==> is_mean(
                    math,
                    values@.subrange(c * factor, c * factor + factor),
                    #[trigger] out@[c],
                ),
        decreases count - out.len(),
    {
        proof {
            lemma_group_in_range(values@.len() as int, factor as int, out@.len() as int);
            lemma_mul_is_distributive_add_other_way(factor as int, out@.len() as int, 1);
        }
        let total = sum(math, values, at, factor);
        let mean = math.over(total, math.whole(factor as u64));
        proof {
            reveal_with_fuel(evaluates, 2);
        }
        proof {
            let group = values@.subrange(at as int, at + factor);
            let sums = choose|sums: Seq<M::Real>| #[trigger]
                sums_of(math, group, sums) && sums.last() == total;
            assert(is_mean_by(math, group, mean, sums));
        }
        out.push(mean);
        at += factor;
    }
    out
}

/// Two blocks filtered one after the other give what the stream of both gives.
proof fn lemma_filter_streams<M: SampleMath>(
    math: &M,
    taps: Seq<M::Real>,
    history: Seq<M::Iq>,
    first: Seq<M::Iq>,
    first_out: Seq<M::Iq>,
    second: Seq<M::Iq>,
    second_out: Seq<M::Iq>,
)
    requires
        history.len() == taps.len(),
        filters(math, taps, history, first, first_out),
        filters(math, taps, remembered(history, first), second, second_out),
    ensures
        filters(math, taps, history, first + second, first_out + second_out),
        remembered(remembered(history, first), second) == remembered(history, first + second),
{
    let stream = history + (first + second);
    let out = first_out + second_out;
    let n = taps.len() as int;
    assert forall|i: int| 0 <= i < first.len() + second.len() implies weighs(
        math,
        taps,
        stream.subrange(i + 1, i + 1 + n),
        #[trigger] out[i],
    ) by {
        if i < first.len() {
            assert(stream.subrange(i + 1, i + 1 + n) =~= (history + first).subrange(
                i + 1,
                i + 1 + n,
            ));
            assert(out[i] == first_out[i]);
        } else {
            let j = i - first.len();
            assert(stream.subrange(i + 1, i + 1 + n) =~= (remembered(history, first)
                + second).subrange(j + 1, j + 1 + n));
            assert(out[i] == second_out[j]);
        }
    }
    assert(remembered(remembered(history, first), second) =~= remembered(history, first + second));
}

/// Filtering is continuous across block boundaries: two blocks filtered one after the other
/// give what the stream of both gives, and leave the same memory at the same place.
pub proof fn law_filter_blocks<M: SampleMath>(
    math: &M,
    taps: Seq<M::Real>,
    before: DelayLine<M::Iq>,
    between: DelayLine<M::Iq>,
    after: DelayLine<M::Iq>,
    first: Seq<M::Iq>,
    first_out: Seq<M::Iq>,
    second: Seq<M::Iq>,
    second_out: Seq<M::Iq>,
)
    requires
        filters_block(math, taps, before, between, first, first_out),
        filters_block(math, taps, between, after, second, second_out),
    ensures
        filters_block(math, taps, before, after, first + second, first_out + second_out),
{
    let n = taps.len() as int;
    let history = choose|history: Seq<M::Iq>| #[trigger]
        filters_block_by(math, taps, before, between, first, first_out, history);
    lemma_filter_streams(math, taps, history, first, first_out, second, second_out);
    lemma_place_after(
        first_place(before, n),
        first.len() as int,
        second.len() as int,
        n,
    );
    assert(filters_block_by(
        math,
        taps,
        before,
        after,
        first + second,
        first_out + second_out,
        history,
    ));
}

/// Two buffers mixed down one after the other by one increment give what both in one give.
proof fn lemma_mix_streams<M: SampleMath>(
    math: &M,
    increment: M::Real,
    factor: int,
    before: Mixer<M::Real>,
    between: Mixer<M::Real>,
    after: Mixer<M::Real>,
    first: Seq<u8>,
    first_out: Seq<M::Iq>,
    second: Seq<u8>,
    second_out: Seq<M::Iq>,
)
    requires
        factor > 0,
        first.len() == 2 * (first_out.len() * factor),
        mixes_down(math, first, increment, factor, before, between, first_out),
        mixes_down(math, second, increment, factor, between, after, second_out),
    ensures
        mixes_down(
            math,
            first + second,
            increment,
            factor,
            before,
            after,
            first_out + second_out,
        ),
{
    let (m1, t1) = choose|mixers: Seq<Mixer<M::Real>>, turned: Seq<M::Iq>| #[trigger]
        mixes_through(math, first, increment, factor, before, between, first_out, mixers, turned);
    let (m2, t2) = choose|mixers: Seq<Mixer<M::Real>>, turned: Seq<M::Iq>| #[trigger]
        mixes_through(math, second, increment, factor, between, after, second_out, mixers, turned);
    let n1 = first_out.len() as int;
    let n2 = second_out.len() as int;
    let buf = first + second;
    let mixers = m1 + m2.drop_first();
    let turned = t1 + t2;
    let out = first_out + second_out;
    lemma_fundamental_div_mod(second.len() as int / 2, factor);
    lemma_mul_is_commutative(factor, n2);
    lemma_mul_is_distributive_add_other_way(factor, n1, n2);
    assert(t1.len() == n1 * factor);
    assert(t2.len() == n2 * factor);
    assert(t2.len() <= second.len() / 2);
    assert forall|i: int| 0 <= i < turned.len() implies mixes_one(
        math,
        mixers[i],
        buf[2 * i],
        buf[2 * i + 1],
        increment,
        mixers[i + 1],
        #[trigger] turned[i],
    ) by {
        if i < t1.len() {
            assert(turned[i] == t1[i]);
            assert(mixers[i] == m1[i] && mixers[i + 1] == m1[i + 1]);
        } else {
            let j = i - t1.len();
            assert(turned[i] == t2[j]);
            assert(mixers[i] == m2[j] && mixers[i + 1] == m2[j + 1]);
            assert(buf[2 * i] == second[2 * j] && buf[2 * i + 1] == second[2 * j + 1]);
        }
    }
    assert(mixes(math, buf, increment, mixers, turned));
    assert forall|c: int| 0 <= c < out.len() implies is_iq_mean(
        math,
        turned.subrange(c * factor, c * factor + factor),
        #[trigger] out[c],
    ) by {
        if c < n1 {
            lemma_groups_ordered(c, n1, factor);
            assert(turned.subrange(c * factor, c * factor + factor) =~= t1.subrange(
                c * factor,
                c * factor + factor,
            ));
            assert(out[c] == first_out[c]);
        } else {
            let d = c - n1;
            lemma_groups_ordered(d, n2, factor);
            lemma_mul_is_distributive_add_other_way(factor, n1, d);
            assert(turned.subrange(c * factor, c * factor + factor) =~= t2.subrange(
                d * factor,
                d * factor + factor,
            ));
            assert(out[c] == second_out[d]);
        }
    }
    assert(iq_means(math, turned, factor, out));
    assert(buf.len() as int / 2 == n1 * factor + second.len() as int / 2);
    assert((n1 * factor + second.len() as int / 2) / factor == n1 + second.len() as int / 2
        / factor) by {
        let rest = second.len() as int / 2;
        let remainder = rest % factor;
        lemma_mul_is_commutative(factor, n1 + n2);
        lemma_div_multiples_vanish_fancy(n1 + n2, remainder, factor);
    }
    assert(mixes_through(math, buf, increment, factor, before, after, out, mixers, turned));
}

/// Mixing is continuous across block boundaries: two buffers mixed down one after the other
/// give what both in one give, and leave the mixer in the same state, where the first is made
/// of whole groups and every operation gives one result.
pub proof fn law_mix_blocks<M: SampleMath>(
    math: &M,
    offset: M::Real,
    rate: u32,
    factor: int,
    before: Mixer<M::Real>,
    between: Mixer<M::Real>,
    after: Mixer<M::Real>,
    first: Seq<u8>,
    first_out: Seq<M::Iq>,
    second: Seq<u8>,
    second_out: Seq<M::Iq>,
)
    requires
        is_determined(math),
        factor > 0,
        first.len() as int % (2 * factor) == 0,
        mixes_channel(math, first, offset, rate, factor, before, between, first_out),
        mixes_channel(math, second, offset, rate, factor, between, after, second_out),
    ensures
        mixes_channel(
            math,
            first + second,
            offset,
            rate,
            factor,
            before,
            after,
            first_out + second_out,
        ),
{
    let x = choose|increment: M::Real| #[trigger]
        mixes_channel_by(math, first, offset, rate, factor, before, between, first_out, increment);
    let y = choose|increment: M::Real| #[trigger]
        mixes_channel_by(math, second, offset, rate, factor, between, after, second_out, increment);
    law_one_result(math, phase_increment(offset, rate), x, y);
    let groups = first.len() as int / (2 * factor);
    lemma_fundamental_div_mod(first.len() as int, 2 * factor);
    assert(first.len() as int / 2 / factor == groups) by {
        lemma_div_denominator(first.len() as int, 2, factor);
    }
    assert(first.len() == 2 * (groups * factor)) by (nonlinear_arith)
        requires
            first.len() == (2 * factor) * groups,
    ;
    lemma_mix_streams(
        math,
        x,
        factor,
        before,
        between,
        after,
        first,
        first_out,
        second,
        second_out,
    );
    assert(mixes_channel_by(
        math,
        first + second,
        offset,
        rate,
        factor,
        before,
        after,
        first_out + second_out,
        x,
    ));
}

/// After `k` samples two DC blockers that started alike have found the same offsets, whatever
/// their oscillators do.
proof fn lemma_same_offsets<M: SampleMath>(
    math: &M,
    buf: Seq<u8>,
    x1: M::Real,
    m1: Seq<Mixer<M::Real>>,
    t1: Seq<M::Iq>,
    x2: M::Real,
    m2: Seq<Mixer<M::Real>>,
    t2: Seq<M::Iq>,
    k: int,
)
    requires
        is_determined(math),
        mixes(math, buf, x1, m1, t1),
        mixes(math, buf, x2, m2, t2),
        t1.len() == t2.len(),
        m1[0].dc_i == m2[0].dc_i,
        m1[0].dc_q == m2[0].dc_q,
        0 <= k <= t1.len(),
    ensures
        m1[k].dc_i == m2[k].dc_i,
        m1[k].dc_q == m2[k].dc_q,
    decreases k,
{
    if k > 0 {
        let i = k - 1;
        lemma_same_offsets(math, buf, x1, m1, t1, x2, m2, t2, i);
        let a = m1[i + 1];
        let b = m2[i + 1];
        assert(mixes_one(math, m1[i], buf[2 * i], buf[2 * i + 1], x1, a, t1[i]));
        assert(mixes_one(math, m2[i], buf[2 * i], buf[2 * i + 1], x2, b, t2[i]));
        law_one_result(math, blocker_offset(m1[i].dc_i, buf[2 * i]), a.dc_i, b.dc_i);
        law_one_result(math, blocker_offset(m1[i].dc_q, buf[2 * i + 1]), a.dc_q, b.dc_q);
    }
}

/// The offsets that the DC blocker finds do not depend on the tuning: neither on the offset
/// that is mixed by, nor on the rate, nor on the oscillator's phase.
pub proof fn law_offsets_ignore_tuning<M: SampleMath>(
    math: &M,
    buf: Seq<u8>,
    factor: int,
    offset1: M::Real,
    rate1: u32,
    before1: Mixer<M::Real>,
    after1: Mixer<M::Real>,
    out1: Seq<M::Iq>,
    offset2: M::Real,
    rate2: u32,
    before2: Mixer<M::Real>,
    after2: Mixer<M::Real>,
    out2: Seq<M::Iq>,
)
    requires
        is_determined(math),
        before1.dc_i == before2.dc_i,
        before1.dc_q == before2.dc_q,
        mixes_channel(math, buf, offset1, rate1, factor, before1, after1, out1),
        mixes_channel(math, buf, offset2, rate2, factor, before2, after2, out2),
    ensures
        after1.dc_i == after2.dc_i,
        after1.dc_q == after2.dc_q,
{
    let x1 = choose|increment: M::Real| #[trigger]
        mixes_channel_by(math, buf, offset1, rate1, factor, before1, after1, out1, increment);
    let x2 = choose|increment: M::Real| #[trigger]
        mixes_channel_by(math, buf, offset2, rate2, factor, before2, after2, out2, increment);
    let (m1, t1) = choose|mixers: Seq<Mixer<M::Real>>, turned: Seq<M::Iq>| #[trigger]
        mixes_through(math, buf, x1, factor, before1, after1, out1, mixers, turned);
    let (m2, t2) = choose|mixers: Seq<Mixer<M::Real>>, turned: Seq<M::Iq>| #[trigger]
        mixes_through(math, buf, x2, factor, before2, after2, out2, mixers, turned);
    assert(t1.len() == t2.len());
    lemma_same_offsets(math, buf, x1, m1, t1, x2, m2, t2, t1.len() as int);
}

} // verus!
