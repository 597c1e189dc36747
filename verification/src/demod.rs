//! From filtered IQ samples to audio.

use crate::formula::{evaluates, iq_evaluates, is_below, is_sign_symmetric, Formula, IqFormula, ONE, PI, ZERO};
use crate::math::SampleMath;
use crate::measure::{
    angles_are_bounded, angles_ignore_distance, is_iq_exact, is_scaled, negated, within, Measure,
};
use crate::reals::{lemma_multiplied, lemma_signs, lemma_square};
use vstd::prelude::*;

verus! {

/// The bit pattern of 50e-6: the time constant of the de-emphasis, in seconds.
pub const DEEMPHASIS_TIME: u32 = 0x3851_B717;

/// The bit pattern of 0.9975: how long the AM detector's DC blocker remembers.
pub const AM_ALPHA: u32 = 0x3F7F_5C29;

/// The bit pattern of 0.02: the part of the distance to a louder value that the gain control's
/// peak rises by per sample. At 50 kHz that is a time constant of 1 ms.
pub const ATTACK: u32 = 0x3CA3_D70A;

/// The bit pattern of 0.00008: the part of the distance to a quieter value that the gain
/// control's peak falls by per sample. At 50 kHz that is a time constant of 250 ms.
pub const RELEASE: u32 = 0x38A7_C5AC;

/// The bit pattern of 0.85: the level that the gain control aims at.
pub const TARGET: u32 = 0x3F59_999A;

/// The bit pattern of 1e-5, below which the gain control's peak does not fall.
pub const LOWEST_PEAK: u32 = 0x3727_C5AC;

/// The bit pattern of 0.001, the gain below which nothing is heard.
pub const INAUDIBLE: u32 = 0x3A83_126F;

/// The phase by which `sample` is ahead of `last`.
pub open spec fn phase_step<R, C>(last: C, sample: C) -> Formula<R, C> {
    let product = IqFormula::Known(last).conjugate().times(IqFormula::Known(sample));
    product.imaginary_part().angle(product.real_part())
}

/// The coefficient of a de-emphasis at `rate` samples a second: a sample's time as a part of
/// that time and the time constant together.
pub open spec fn deemphasis_alpha<R, C>(rate: u32) -> Formula<R, C> {
    let time = Formula::Single(ONE).over(Formula::Whole(rate as u64));
    time.over(Formula::Single(DEEMPHASIS_TIME).plus(time))
}

/// The state of a de-emphasis with coefficient `alpha` after `value`.
pub open spec fn smoothed<R, C>(state: R, value: R, alpha: R) -> Formula<R, C> {
    Formula::Known(state).plus(
        Formula::Known(alpha).times(Formula::Known(value).minus(Formula::Known(state))),
    )
}

/// The output of the AM detector's DC blocker for `x`, where its last input was `last_in` and
/// its last output `last_out`.
pub open spec fn unbiased<R, C>(x: R, last_in: R, last_out: R) -> Formula<R, C> {
    Formula::Known(x).minus(Formula::Known(last_in)).plus(
        Formula::Single(AM_ALPHA).times(Formula::Known(last_out)),
    )
}

/// The gain control's peak after `value`: it moves toward the size of the value, faster where
/// that is `louder` than the peak.
pub open spec fn next_peak<R, C>(peak: R, value: R, louder: bool) -> Formula<R, C> {
    let speed = Formula::Single(if louder { ATTACK } else { RELEASE });
    let distance = Formula::Known(value).absolute().minus(Formula::Known(peak));
    Formula::Known(peak).plus(speed.times(distance)).greater(Formula::Single(LOWEST_PEAK))
}

/// `value` on a scale on which the peak `peak` is at the level that the gain control aims at.
pub open spec fn scaled_by_peak<R, C>(value: R, peak: R) -> Formula<R, C> {
    Formula::Known(value).over(Formula::Known(peak)).times(Formula::Single(TARGET))
}

/// `value` brought to level by the peak `peak` and softly limited: x / (1 + |x|).
pub open spec fn brought_to_level<R, C>(value: R, peak: R) -> Formula<R, C> {
    let x = scaled_by_peak(value, peak);
    x.over(Formula::Single(ONE).plus(x.absolute()))
}

/// The fade's gain after one more sample: up to 1 when `open`, else down to 0.
pub open spec fn next_gain<R, C>(gain: R, open: bool, step: R) -> Formula<R, C> {
    if open {
        Formula::Known(gain).plus(Formula::Known(step)).lesser(Formula::Single(ONE))
    } else {
        Formula::Known(gain).minus(Formula::Known(step)).greater(Formula::Single(ZERO))
    }
}

/// `flag` tells whether nothing is heard at `gain`.
pub open spec fn is_inaudible<M: SampleMath>(math: &M, gain: M::Real, flag: bool) -> bool {
    is_below(math, Formula::Known(gain), Formula::Single(INAUDIBLE), flag)
}

/// The sample before sample `i` of a stream `samples` that `before` went ahead of.
pub open spec fn previous<T>(before: T, samples: Seq<T>, i: int) -> T {
    if i == 0 {
        before
    } else {
        samples[i - 1]
    }
}

/// The last sample of a stream `samples` that `before` went ahead of.
pub open spec fn newest<T>(before: T, samples: Seq<T>) -> T {
    previous(before, samples, samples.len() as int)
}

/// `out` is the stream `samples` FM-demodulated, where `before` went ahead of it: each output
/// is the phase by which a sample is ahead of the one before.
pub open spec fn fm_demodulates<M: SampleMath>(
    math: &M,
    before: M::Iq,
    samples: Seq<M::Iq>,
    out: Seq<M::Real>,
) -> bool {
    &&& out.len() == samples.len()
    &&& forall|i: int|
        0 <= i < samples.len() ==> evaluates(
            math,
            phase_step(previous(before, samples, i), samples[i]),
            #[trigger] out[i],
        )
}

/// FM-demodulates `samples`, which follow on `prev`.
pub fn fm_demod<M: SampleMath>(math: &M, samples: &[M::Iq], prev: &mut M::Iq) -> (r: Vec<M::Real>)
    ensures
        fm_demodulates(math, *old(prev), samples@, r@),
        *final(prev) == newest(*old(prev), samples@),
{
    let mut out: Vec<M::Real> = Vec::new();
    let mut last = *prev;
    let mut i: usize = 0;
    while i < samples.len()
        invariant
            i <= samples@.len(),
            out@.len() == i,
            last == previous(*prev, samples@, i as int),
            forall|j: int|
                0 <= j < i ==> evaluates(
                    math,
                    phase_step(previous(*prev, samples@, j), samples@[j]),
                    #[trigger] out@[j],
                ),
        decreases samples.len() - i,
    {
        let product = math.iq_times(math.conjugate(last), samples[i]);
        let phase = math.angle(math.imaginary_part(product), math.real_part(product));
        proof {
            reveal_with_fuel(evaluates, 5);
            reveal_with_fuel(iq_evaluates, 5);
            assert(evaluates(math, phase_step(last, samples@[i as int]), phase));
        }
        out.push(phase);
        last = samples[i];
        i += 1;
    }
    *prev = last;
    out
}

/// `out` holds the values of `values`, each divided by `divisor`.
pub open spec fn divides<M: SampleMath>(
    math: &M,
    values: Seq<M::Real>,
    divisor: M::Real,
    out: Seq<M::Real>,
) -> bool {
    &&& out.len() == values.len()
    &&& forall|i: int|
        0 <= i < values.len() ==> call_ensures(
            M::over,
            (math, values[i], divisor),
            #[trigger] out[i],
        )
}

/// Divides each of `values` by `divisor`.
pub fn divide_all<M: SampleMath>(math: &M, values: &[M::Real], divisor: M::Real) -> (r: Vec<M::Real>)
    ensures
        divides(math, values@, divisor, r@),
{
    let mut out: Vec<M::Real> = Vec::new();
    let mut i: usize = 0;
    while i < values.len()
        invariant
            i <= values@.len(),
            out@.len() == i,
            forall|j: int|
                0 <= j < i ==> call_ensures(
                    M::over,
                    (math, values@[j], divisor),
                    #[trigger] out@[j],
                ),
        decreases values.len() - i,
    {
        out.push(math.over(values[i], divisor));
        i += 1;
    }
    out
}

/// `out` is `values` after a de-emphasis with coefficient `alpha` that stood at `before`: each
/// output is the filter's next state.
pub open spec fn deemphasizes<M: SampleMath>(
    math: &M,
    alpha: M::Real,
    before: M::Real,
    values: Seq<M::Real>,
    out: Seq<M::Real>,
) -> bool {
    &&& out.len() == values.len()
    &&& forall|i: int|
        0 <= i < values.len() ==> evaluates(
            math,
            smoothed(previous(before, out, i), values[i], alpha),
            #[trigger] out[i],
        )
}

/// `out` is `values`, which come at `rate` values a second, after a de-emphasis that stood at
/// `before`.
pub open spec fn deemphasizes_at<M: SampleMath>(
    math: &M,
    rate: u32,
    before: M::Real,
    values: Seq<M::Real>,
    out: Seq<M::Real>,
) -> bool {
    exists|alpha: M::Real| #[trigger] deemphasizes_by(math, rate, before, values, out, alpha)
}

/// The filter's coefficient is `alpha`.
pub open spec fn deemphasizes_by<M: SampleMath>(
    math: &M,
    rate: u32,
    before: M::Real,
    values: Seq<M::Real>,
    out: Seq<M::Real>,
    alpha: M::Real,
) -> bool {
    &&& evaluates(math, deemphasis_alpha(rate), alpha)
    &&& deemphasizes(math, alpha, before, values, out)
}

/// De-emphasizes `values`, which come at `rate` values a second. `state` is the filter's.
pub fn deemphasis<M: SampleMath>(
    math: &M,
    values: &[M::Real],
    state: &mut M::Real,
    rate: u32,
) -> (r: Vec<M::Real>)
    ensures
        deemphasizes_at(math, rate, *old(state), values@, r@),
        *final(state) == newest(*old(state), r@),
{
    let time = math.over(math.single(ONE), math.whole(rate as u64));
    let alpha = math.over(time, math.plus(math.single(DEEMPHASIS_TIME), time));
    proof {
        reveal_with_fuel(evaluates, 5);
        assert(evaluates(math, deemphasis_alpha(rate), alpha));
    }
    let mut out: Vec<M::Real> = Vec::new();
    let mut i: usize = 0;
    while i < values.len()
        invariant
            i <= values@.len(),
            out@.len() == i,
            *state == previous(*old(state), out@, i as int),
            deemphasizes(math, alpha, *old(state), values@.take(i as int), out@),
        decreases values.len() - i,
    {
        let ghost before = out@;
        let next = math.plus(*state, math.times(alpha, math.minus(values[i], *state)));
        assert(evaluates(math, smoothed(*state, values@[i as int], alpha), next)) by {
            reveal_with_fuel(evaluates, 4);
        }
        out.push(next);
        proof {
            assert forall|j: int| 0 <= j < i + 1 implies evaluates(
                math,
                smoothed(previous(*old(state), out@, j), values@.take(i + 1)[j], alpha),
                #[trigger] out@[j],
            ) by {
                if j < i {
                    assert(out@[j] == before[j]);
                    assert(previous(*old(state), out@, j) == previous(*old(state), before, j));
                    assert(values@.take(i as int)[j] == values@[j]);
                } else {
                    assert(previous(*old(state), out@, j) == previous(*old(state), before, j));
                }
            }
        }
        *state = next;
        i += 1;
    }
    assert(values@.take(values@.len() as int) =~= values@);
    assert(deemphasizes_by(math, rate, *old(state), values@, out@, alpha));
    out
}

/// `x` is the envelope of `sample` and `y` what the DC blocker makes of it.
pub open spec fn detects<M: SampleMath>(
    math: &M,
    last_in: M::Real,
    last_out: M::Real,
    sample: M::Iq,
    x: M::Real,
    y: M::Real,
) -> bool {
    &&& evaluates(math, IqFormula::Known(sample).norm(), x)
    &&& evaluates(math, unbiased(x, last_in, last_out), y)
}

/// `out` is the envelope `envelope` of `samples` after its DC offset was removed. Before the
/// stream the filter's input was `last_in` and its output `last_out`.
pub open spec fn am_demodulates<M: SampleMath>(
    math: &M,
    last_in: M::Real,
    last_out: M::Real,
    samples: Seq<M::Iq>,
    envelope: Seq<M::Real>,
    out: Seq<M::Real>,
) -> bool {
    &&& envelope.len() == samples.len()
    &&& out.len() == samples.len()
    &&& forall|i: int|
        0 <= i < samples.len() ==> detects(
            math,
            previous(last_in, envelope, i),
            previous(last_out, out, i),
            samples[i],
            envelope[i],
            #[trigger] out[i],
        )
}

/// A detected stream with one more sample detected after it.
proof fn lemma_detects_one_more<M: SampleMath>(
    math: &M,
    last_in: M::Real,
    last_out: M::Real,
    samples: Seq<M::Iq>,
    envelope: Seq<M::Real>,
    out: Seq<M::Real>,
    sample: M::Iq,
    x: M::Real,
    y: M::Real,
)
    requires
        am_demodulates(math, last_in, last_out, samples, envelope, out),
        detects(
            math,
            previous(last_in, envelope, samples.len() as int),
            previous(last_out, out, samples.len() as int),
            sample,
            x,
            y,
        ),
    ensures
        am_demodulates(
            math,
            last_in,
            last_out,
            samples.push(sample),
            envelope.push(x),
            out.push(y),
        ),
{
    let n = samples.len() as int;
    assert forall|j: int| 0 <= j < n + 1 implies detects(
        math,
        previous(last_in, envelope.push(x), j),
        previous(last_out, out.push(y), j),
        samples.push(sample)[j],
        envelope.push(x)[j],
        #[trigger] out.push(y)[j],
    ) by {
        assert(previous(last_in, envelope.push(x), j) == previous(last_in, envelope, j));
        assert(previous(last_out, out.push(y), j) == previous(last_out, out, j));
        if j < n {
            assert(out.push(y)[j] == out[j]);
        }
    }
}

/// Detects the envelope of `sample` and takes the DC off it.
fn detect<M: SampleMath>(math: &M, sample: M::Iq, last_in: M::Real, last_out: M::Real) -> (r: (
    M::Real,
    M::Real,
))
    ensures
        detects(math, last_in, last_out, sample, r.0, r.1),
{
    let x = math.norm(sample);
    let y = math.plus(math.minus(x, last_in), math.times(math.single(AM_ALPHA), last_out));
    proof {
        reveal_with_fuel(evaluates, 3);
        reveal_with_fuel(iq_evaluates, 2);
    }
    (x, y)
}

/// AM-demodulates `samples`. `last_in` and `last_out` are the DC-blocking filter's state.
pub fn am_demod<M: SampleMath>(
    math: &M,
    samples: &[M::Iq],
    last_in: &mut M::Real,
    last_out: &mut M::Real,
) -> (r: Vec<M::Real>)
    ensures
        exists|envelope: Seq<M::Real>| #[trigger]
            am_demodulates(math, *old(last_in), *old(last_out), samples@, envelope, r@)
                && *final(last_in) == newest(*old(last_in), envelope),
        *final(last_out) == newest(*old(last_out), r@),
{
    let mut out: Vec<M::Real> = Vec::new();
    let ghost mut envelope: Seq<M::Real> = Seq::empty();
    let mut i: usize = 0;
    while i < samples.len()
        invariant
            i <= samples@.len(),
            out@.len() == i,
            envelope.len() == i,
            *last_in == previous(*old(last_in), envelope, i as int),
            *last_out == previous(*old(last_out), out@, i as int),
            am_demodulates(
                math,
                *old(last_in),
                *old(last_out),
                samples@.take(i as int),
                envelope,
                out@,
            ),
        decreases samples.len() - i,
    {
        let (x, y) = detect(math, samples[i], *last_in, *last_out);
        proof {
            lemma_detects_one_more(
                math,
                *old(last_in),
                *old(last_out),
                samples@.take(i as int),
                envelope,
                out@,
                samples@[i as int],
                x,
                y,
            );
            assert(samples@.take(i + 1) =~= samples@.take(i as int).push(samples@[i as int]));
            envelope = envelope.push(x);
        }
        out.push(y);
        *last_in = x;
        *last_out = y;
        i += 1;
    }
    assert(samples@.take(samples@.len() as int) =~= samples@);
    out
}

/// The gain control's peak goes from `before` to `after` with `value`, and `out` is the value
/// brought to level.
pub open spec fn levels_one<M: SampleMath>(
    math: &M,
    before: M::Real,
    value: M::Real,
    after: M::Real,
    out: M::Real,
) -> bool {
    &&& exists|louder: bool| #[trigger]
        is_below(math, Formula::Known(before), Formula::Known(value).absolute(), louder)
            && evaluates(math, next_peak(before, value, louder), after)
    &&& evaluates(math, brought_to_level(value, after), out)
}

/// Brings `value` to level.
fn level_one<M: SampleMath>(math: &M, value: M::Real, peak: &mut M::Real) -> (r: M::Real)
    ensures
        levels_one(math, *old(peak), value, *final(peak), r),
{
    let before = *peak;
    let size = math.absolute(value);
    let louder = math.below(before, size);
    let speed = math.single(if louder { ATTACK } else { RELEASE });
    let moved = math.plus(before, math.times(speed, math.minus(size, before)));
    let after = math.greater(moved, math.single(LOWEST_PEAK));
    let x = math.times(math.over(value, after), math.single(TARGET));
    let r = math.over(x, math.plus(math.single(ONE), math.absolute(x)));
    proof {
        reveal_with_fuel(evaluates, 7);
        assert(is_below(math, Formula::Known(before), Formula::Known(value).absolute(), louder));
    }
    *peak = after;
    r
}

/// `out` is `values` brought to level by a gain control whose peaks, before and after each
/// value, are `peaks`.
pub open spec fn levels_out<M: SampleMath>(
    math: &M,
    peaks: Seq<M::Real>,
    values: Seq<M::Real>,
    out: Seq<M::Real>,
) -> bool {
    &&& peaks.len() == values.len() + 1
    &&& out.len() == values.len()
    &&& forall|i: int|
        0 <= i < values.len() ==> levels_one(
            math,
            peaks[i],
            values[i],
            peaks[i + 1],
            #[trigger] out[i],
        )
}

/// `out` is `values` brought to level, where the peak goes from `before` to `after`.
pub open spec fn is_levelled<M: SampleMath>(
    math: &M,
    before: M::Real,
    after: M::Real,
    values: Seq<M::Real>,
    out: Seq<M::Real>,
) -> bool {
    exists|peaks: Seq<M::Real>| #[trigger]
        levels_out(math, peaks, values, out) && peaks[0] == before && peaks.last() == after
}

/// Brings `values` to level. `peak` is the gain control's.
pub fn agc<M: SampleMath>(math: &M, values: &[M::Real], peak: &mut M::Real) -> (r: Vec<M::Real>)
    ensures
        is_levelled(math, *old(peak), *final(peak), values@, r@),
{
    let mut out: Vec<M::Real> = Vec::new();
    let ghost mut peaks: Seq<M::Real> = seq![*peak];
    let mut i: usize = 0;
    while i < values.len()
        invariant
            i <= values@.len(),
            out@.len() == i,
            peaks.len() == i + 1,
            peaks[0] == *old(peak),
            peaks.last() == *peak,
            forall|j: int|
                0 <= j < i ==> levels_one(
                    math,
                    peaks[j],
                    values@[j],
                    peaks[j + 1],
                    #[trigger] out@[j],
                ),
        decreases values.len() - i,
    {
        out.push(level_one(math, values[i], peak));
        proof {
            peaks = peaks.push(*peak);
        }
        i += 1;
    }
    assert(levels_out(math, peaks, values@, out@));
    out
}

/// One step of a fade: the gain goes from `before` to `after`, and `out` is `value` under the
/// latter.
pub open spec fn fades_one<M: SampleMath>(
    math: &M,
    before: M::Real,
    open: bool,
    step: M::Real,
    value: M::Real,
    after: M::Real,
    out: M::Real,
) -> bool {
    &&& evaluates(math, next_gain(before, open, step), after)
    &&& call_ensures(M::times, (math, value, after), out)
}

/// `out` is `values` under a gain that moves by `step` per value, up if `open` and else down;
/// `gains` are its values before and after each.
pub open spec fn fades<M: SampleMath>(
    math: &M,
    gains: Seq<M::Real>,
    open: bool,
    step: M::Real,
    values: Seq<M::Real>,
    out: Seq<M::Real>,
) -> bool {
    &&& gains.len() == values.len() + 1
    &&& out.len() == values.len()
    &&& forall|i: int|
        0 <= i < values.len() ==> fades_one(
            math,
            gains[i],
            open,
            step,
            values[i],
            gains[i + 1],
            #[trigger] out[i],
        )
}

/// The gains under which the values of a block are heard: one for each value, or the gain
/// that stands where there is none.
pub open spec fn heard_gains<R>(gains: Seq<R>) -> Seq<R> {
    if gains.len() == 1 {
        gains
    } else {
        gains.drop_first()
    }
}

/// `flags` tell of each of `gains` whether nothing is heard at it.
pub open spec fn are_inaudible<M: SampleMath>(
    math: &M,
    gains: Seq<M::Real>,
    flags: Seq<bool>,
) -> bool {
    &&& flags.len() == gains.len()
    &&& forall|i: int|
        0 <= i < gains.len() ==> is_inaudible(math, gains[i], #[trigger] flags[i])
}

/// `r` is `values` faded in or out, where the gain goes from `before` to `after`. Nothing is
/// left when the squelch is closed and nothing of the whole block is heard.
pub open spec fn is_faded<M: SampleMath>(
    math: &M,
    before: M::Real,
    after: M::Real,
    open: bool,
    step: M::Real,
    values: Seq<M::Real>,
    r: Option<Seq<M::Real>>,
) -> bool {
    exists|gains: Seq<M::Real>, out: Seq<M::Real>| #[trigger]
        fades_by(math, before, after, open, step, values, r, gains, out)
}

/// The gain goes through `gains` and makes `out` of `values`.
pub open spec fn fades_by<M: SampleMath>(
    math: &M,
    before: M::Real,
    after: M::Real,
    open: bool,
    step: M::Real,
    values: Seq<M::Real>,
    r: Option<Seq<M::Real>>,
    gains: Seq<M::Real>,
    out: Seq<M::Real>,
) -> bool {
    &&& fades(math, gains, open, step, values, out)
    &&& gains[0] == before
    &&& gains.last() == after
    &&& if open {
        r == Some(out)
    } else {
        exists|flags: Seq<bool>| #[trigger] mutes(math, gains, out, r, flags)
    }
}

/// `flags` tell where nothing of `out` is heard; `r` is `out`, or nothing where that is
/// everywhere.
pub open spec fn mutes<M: SampleMath>(
    math: &M,
    gains: Seq<M::Real>,
    out: Seq<M::Real>,
    r: Option<Seq<M::Real>>,
    flags: Seq<bool>,
) -> bool {
    &&& are_inaudible(math, heard_gains(gains), flags)
    &&& r == (if all_true(flags) {
        None
    } else {
        Some(out)
    })
}

/// All of `flags` are set.
pub open spec fn all_true(flags: Seq<bool>) -> bool {
    forall|i: int| 0 <= i < flags.len() ==> #[trigger] flags[i]
}

/// What an optional signal holds.
pub open spec fn signal_view<R>(signal: Option<Vec<R>>) -> Option<Seq<R>> {
    match signal {
        Some(v) => Some(v@),
        None => None,
    }
}

/// Moves the fade's gain by one sample.
fn fade_gain<M: SampleMath>(math: &M, gain: M::Real, open: bool, step: M::Real) -> (r: M::Real)
    ensures
        evaluates(math, next_gain(gain, open, step), r),
{
    proof {
        reveal_with_fuel(evaluates, 3);
    }
    if open {
        math.lesser(math.plus(gain, step), math.single(ONE))
    } else {
        math.greater(math.minus(gain, step), math.single(ZERO))
    }
}

/// Whether nothing is heard at `gain`.
fn not_heard<M: SampleMath>(math: &M, gain: M::Real) -> (r: bool)
    ensures
        is_inaudible(math, gain, r),
{
    math.below(gain, math.single(INAUDIBLE))
}

/// Fades `values` in when the squelch is `open` and out when it is closed. `None` when the
/// whole block is silent.
pub fn apply_fade<M: SampleMath>(
    math: &M,
    values: &[M::Real],
    gain: &mut M::Real,
    open: bool,
    step: M::Real,
) -> (r: Option<Vec<M::Real>>)
    ensures
        is_faded(math, *old(gain), *final(gain), open, step, values@, signal_view(r)),
{
    let mut out: Vec<M::Real> = Vec::new();
    let mut silent = true;
    let ghost mut gains: Seq<M::Real> = seq![*gain];
    let ghost mut flags: Seq<bool> = Seq::empty();
    let mut i: usize = 0;
    while i < values.len()
        invariant
            i <= values@.len(),
            out@.len() == i,
            gains.len() == i + 1,
            gains[0] == *old(gain),
            gains.last() == *gain,
            forall|j: int|
                0 <= j < i ==> fades_one(
                    math,
                    gains[j],
                    open,
                    step,
                    values@[j],
                    gains[j + 1],
                    #[trigger] out@[j],
                ),
            flags.len() == i,
            forall|j: int|
                0 <= j < i ==> is_inaudible(
                    math,
                    gains[j + 1],
                    #[trigger] flags[j],
                ),
            silent == all_true(flags),
        decreases values.len() - i,
    {
        let next = fade_gain(math, *gain, open, step);
        out.push(math.times(values[i], next));
        let inaudible = not_heard(math, next);
        proof {
            let before = flags;
            gains = gains.push(next);
            flags = flags.push(inaudible);
            if silent && inaudible {
                assert(forall|j: int| 0 <= j < i ==> flags[j] == #[trigger] before[j]);
            } else if !silent {
                let j = choose|j: int| 0 <= j < before.len() && !#[trigger] before[j];
                assert(!flags[j]);
            } else {
                assert(!flags[i as int]);
            }
        }
        silent = silent && inaudible;
        *gain = next;
        i += 1;
    }
    assert(fades(math, gains, open, step, values@, out@));
    if values.len() == 0 {
        silent = not_heard(math, *gain);
        proof {
            flags = seq![silent];
            assert(silent == all_true(flags)) by {
                assert(flags[0] == silent);
            }
        }
    }
    assert(are_inaudible(math, heard_gains(gains), flags));
    let r = if silent && !open {
        None
    } else {
        Some(out)
    };
    assert(!open ==> mutes(math, gains, out@, signal_view(r), flags));
    assert(fades_by(
        math,
        *old(gain),
        *gain,
        open,
        step,
        values@,
        signal_view(r),
        gains,
        out@,
    ));
    r
}

/// FM demodulation is continuous across block boundaries.
pub proof fn law_fm_blocks<M: SampleMath>(
    math: &M,
    before: M::Iq,
    first: Seq<M::Iq>,
    first_out: Seq<M::Real>,
    second: Seq<M::Iq>,
    second_out: Seq<M::Real>,
)
    requires
        fm_demodulates(math, before, first, first_out),
        fm_demodulates(math, newest(before, first), second, second_out),
    ensures
        fm_demodulates(math, before, first + second, first_out + second_out),
        newest(newest(before, first), second) == newest(before, first + second),
{
    let out = first_out + second_out;
    assert forall|i: int| 0 <= i < out.len() implies evaluates(
        math,
        phase_step(previous(before, first + second, i), (first + second)[i]),
        #[trigger] out[i],
    ) by {
        if i < first.len() {
            assert(out[i] == first_out[i]);
        } else {
            assert(out[i] == second_out[i - first.len()]);
        }
    }
}

/// De-emphasis is continuous across block boundaries.
pub proof fn law_deemphasis_blocks<M: SampleMath>(
    math: &M,
    alpha: M::Real,
    before: M::Real,
    first: Seq<M::Real>,
    first_out: Seq<M::Real>,
    second: Seq<M::Real>,
    second_out: Seq<M::Real>,
)
    requires
        deemphasizes(math, alpha, before, first, first_out),
        deemphasizes(math, alpha, newest(before, first_out), second, second_out),
    ensures
        deemphasizes(math, alpha, before, first + second, first_out + second_out),
{
    let out = first_out + second_out;
    assert forall|i: int| 0 <= i < out.len() implies evaluates(
        math,
        smoothed(previous(before, out, i), (first + second)[i], alpha),
        #[trigger] out[i],
    ) by {
        if i < first.len() {
            assert(out[i] == first_out[i]);
        } else {
            assert(out[i] == second_out[i - first.len()]);
        }
    }
}

/// AM demodulation is continuous across block boundaries.
pub proof fn law_am_blocks<M: SampleMath>(
    math: &M,
    last_in: M::Real,
    last_out: M::Real,
    first: Seq<M::Iq>,
    first_envelope: Seq<M::Real>,
    first_out: Seq<M::Real>,
    second: Seq<M::Iq>,
    second_envelope: Seq<M::Real>,
    second_out: Seq<M::Real>,
)
    requires
        am_demodulates(math, last_in, last_out, first, first_envelope, first_out),
        am_demodulates(
            math,
            newest(last_in, first_envelope),
            newest(last_out, first_out),
            second,
            second_envelope,
            second_out,
        ),
    ensures
        am_demodulates(
            math,
            last_in,
            last_out,
            first + second,
            first_envelope + second_envelope,
            first_out + second_out,
        ),
{
    let envelope = first_envelope + second_envelope;
    let out = first_out + second_out;
    assert forall|i: int| 0 <= i < out.len() implies detects(
        math,
        previous(last_in, envelope, i),
        previous(last_out, out, i),
        (first + second)[i],
        envelope[i],
        #[trigger] out[i],
    ) by {
        if i < first.len() {
            assert(out[i] == first_out[i]);
        } else {
            assert(out[i] == second_out[i - first.len()]);
        }
    }
}

/// The gain control is continuous across block boundaries.
pub proof fn law_agc_blocks<M: SampleMath>(
    math: &M,
    before: M::Real,
    between: M::Real,
    after: M::Real,
    first: Seq<M::Real>,
    first_out: Seq<M::Real>,
    second: Seq<M::Real>,
    second_out: Seq<M::Real>,
)
    requires
        is_levelled(math, before, between, first, first_out),
        is_levelled(math, between, after, second, second_out),
    ensures
        is_levelled(math, before, after, first + second, first_out + second_out),
{
    let p1 = choose|peaks: Seq<M::Real>| #[trigger]
        levels_out(math, peaks, first, first_out) && peaks[0] == before && peaks.last() == between;
    let p2 = choose|peaks: Seq<M::Real>| #[trigger]
        levels_out(math, peaks, second, second_out) && peaks[0] == between && peaks.last() == after;
    let peaks = p1 + p2.drop_first();
    let out = first_out + second_out;
    assert forall|i: int| 0 <= i < out.len() implies levels_one(
        math,
        peaks[i],
        (first + second)[i],
        peaks[i + 1],
        #[trigger] out[i],
    ) by {
        if i < first.len() {
            assert(out[i] == first_out[i]);
            assert(peaks[i] == p1[i] && peaks[i + 1] == p1[i + 1]);
        } else {
            let j = i - first.len();
            assert(out[i] == second_out[j]);
            assert(peaks[i] == p2[j] && peaks[i + 1] == p2[j + 1]);
        }
    }
    assert(levels_out(math, peaks, first + second, out));
}

/// The fade is continuous across block boundaries.
pub proof fn law_fade_blocks<M: SampleMath>(
    math: &M,
    open: bool,
    step: M::Real,
    first_gains: Seq<M::Real>,
    first: Seq<M::Real>,
    first_out: Seq<M::Real>,
    second_gains: Seq<M::Real>,
    second: Seq<M::Real>,
    second_out: Seq<M::Real>,
)
    requires
        fades(math, first_gains, open, step, first, first_out),
        fades(math, second_gains, open, step, second, second_out),
        second_gains[0] == first_gains.last(),
    ensures
        fades(
            math,
            first_gains + second_gains.drop_first(),
            open,
            step,
            first + second,
            first_out + second_out,
        ),
{
    let gains = first_gains + second_gains.drop_first();
    let out = first_out + second_out;
    assert forall|i: int| 0 <= i < out.len() implies fades_one(
        math,
        gains[i],
        open,
        step,
        (first + second)[i],
        gains[i + 1],
        #[trigger] out[i],
    ) by {
        if i < first.len() {
            assert(out[i] == first_out[i]);
            assert(gains[i] == first_gains[i] && gains[i + 1] == first_gains[i + 1]);
        } else {
            let j = i - first.len();
            assert(out[i] == second_out[j]);
            assert(gains[i] == second_gains[j] && gains[i + 1] == second_gains[j + 1]);
        }
    }
}

/// A closed fade that stands where it is, with nothing heard there, gives nothing and keeps its
/// gain: the gain 0 is such a place.
pub proof fn law_silence_lasts<M: SampleMath>(
    math: &M,
    gain: M::Real,
    after: M::Real,
    step: M::Real,
    values: Seq<M::Real>,
    r: Option<Seq<M::Real>>,
)
    requires
        is_faded(math, gain, after, false, step, values, r),
        forall|x: M::Real| #[trigger]
            evaluates(math, next_gain(gain, false, step), x) ==> x == gain,
        forall|flag: bool| #[trigger] is_inaudible(math, gain, flag) ==> flag,
    ensures
        r is None,
        after == gain,
{
    let (gains, out) = choose|gains: Seq<M::Real>, out: Seq<M::Real>| #[trigger]
        fades_by(math, gain, after, false, step, values, r, gains, out);
    assert forall|k: int| 0 <= k < gains.len() implies gains[k] == gain by {
        lemma_gain_stands(math, gain, step, values, gains, out, k);
    }
    let flags = choose|flags: Seq<bool>| #[trigger] mutes(math, gains, out, r, flags);
    assert forall|i: int| 0 <= i < flags.len() implies #[trigger] flags[i] by {
        assert(is_inaudible(math, heard_gains(gains)[i], flags[i]));
    }
}

proof fn lemma_gain_stands<M: SampleMath>(
    math: &M,
    gain: M::Real,
    step: M::Real,
    values: Seq<M::Real>,
    gains: Seq<M::Real>,
    out: Seq<M::Real>,
    k: int,
)
    requires
        fades(math, gains, false, step, values, out),
        gains[0] == gain,
        forall|x: M::Real| #[trigger]
            evaluates(math, next_gain(gain, false, step), x) ==> x == gain,
        0 <= k < gains.len(),
    ensures
        gains[k] == gain,
    decreases k,
{
    if k > 0 {
        lemma_gain_stands(math, gain, step, values, gains, out, k - 1);
        let o = out[k - 1];
        assert(fades_one(math, gains[k - 1], false, step, values[k - 1], gains[k - 1 + 1], o));
    }
}

/// A value and the negated one have the same size.
proof fn lemma_same_size<M: SampleMath>(
    math: &M,
    negate: spec_fn(M::Real) -> M::Real,
    value: M::Real,
    size: M::Real,
)
    requires
        is_sign_symmetric(math, negate),
        evaluates(math, Formula::Known(value).absolute(), size),
    ensures
        evaluates(math, Formula::Known(negate(value)).absolute(), size),
{
    let x = choose|x: M::Real| #[trigger]
        call_ensures(M::absolute, (math, x), size) && evaluates(math, Formula::Known(value), x);
    assert(call_ensures(M::absolute, (math, negate(x)), size));
    assert(evaluates(math, Formula::Known(negate(value)), negate(x)));
}

/// The gain control's peak does not depend on the sign of the value.
#[verifier::spinoff_prover]
proof fn lemma_peak_is_even<M: SampleMath>(
    math: &M,
    negate: spec_fn(M::Real) -> M::Real,
    before: M::Real,
    value: M::Real,
    louder: bool,
    after: M::Real,
)
    requires
        is_sign_symmetric(math, negate),
        is_below(math, Formula::Known(before), Formula::Known(value).absolute(), louder),
        evaluates(math, next_peak(before, value, louder), after),
    ensures
        is_below(math, Formula::Known(before), Formula::Known(negate(value)).absolute(), louder),
        evaluates(math, next_peak(before, negate(value), louder), after),
{
    let known = Formula::<M::Real, M::Iq>::Known(before);
    let size = Formula::<M::Real, M::Iq>::Known(value).absolute();
    let other = Formula::<M::Real, M::Iq>::Known(negate(value)).absolute();
    let speed = Formula::<M::Real, M::Iq>::Single(if louder { ATTACK } else { RELEASE });
    let floor = Formula::<M::Real, M::Iq>::Single(LOWEST_PEAK);
    let (p, q) = choose|x: M::Real, y: M::Real| #[trigger]
        call_ensures(M::below, (math, x, y), louder) && evaluates(math, known, x) && evaluates(
            math,
            size,
            y,
        );
    lemma_same_size(math, negate, value, q);
    let (moved, low) = choose|x: M::Real, y: M::Real| #[trigger]
        call_ensures(M::greater, (math, x, y), after) && evaluates(
            math,
            known.plus(speed.times(size.minus(known))),
            x,
        ) && evaluates(math, floor, y);
    let (old_peak, shift) = choose|x: M::Real, y: M::Real| #[trigger]
        call_ensures(M::plus, (math, x, y), moved) && evaluates(math, known, x) && evaluates(
            math,
            speed.times(size.minus(known)),
            y,
        );
    let (rate, distance) = choose|x: M::Real, y: M::Real| #[trigger]
        call_ensures(M::times, (math, x, y), shift) && evaluates(math, speed, x) && evaluates(
            math,
            size.minus(known),
            y,
        );
    let (a, b) = choose|x: M::Real, y: M::Real| #[trigger]
        call_ensures(M::minus, (math, x, y), distance) && evaluates(math, size, x) && evaluates(
            math,
            known,
            y,
        );
    lemma_same_size(math, negate, value, a);
    assert(evaluates(math, other.minus(known), distance));
    assert(evaluates(math, speed.times(other.minus(known)), shift));
    assert(evaluates(math, known.plus(speed.times(other.minus(known))), moved));
}

/// The level that a negated value is brought to is the negated level.
#[verifier::spinoff_prover]
proof fn lemma_level_is_odd<M: SampleMath>(
    math: &M,
    negate: spec_fn(M::Real) -> M::Real,
    value: M::Real,
    peak: M::Real,
    out: M::Real,
)
    requires
        is_sign_symmetric(math, negate),
        evaluates(math, brought_to_level(value, peak), out),
    ensures
        evaluates(math, brought_to_level(negate(value), peak), negate(out)),
{
    let f = scaled_by_peak::<M::Real, M::Iq>(value, peak);
    let g = scaled_by_peak::<M::Real, M::Iq>(negate(value), peak);
    let one = Formula::<M::Real, M::Iq>::Single(ONE);
    let (x, d) = choose|x: M::Real, y: M::Real| #[trigger]
        call_ensures(M::over, (math, x, y), out) && evaluates(math, f, x) && evaluates(
            math,
            one.plus(f.absolute()),
            y,
        );
    let (u, s) = choose|x: M::Real, y: M::Real| #[trigger]
        call_ensures(M::plus, (math, x, y), d) && evaluates(math, one, x) && evaluates(
            math,
            f.absolute(),
            y,
        );
    let z = choose|x: M::Real| #[trigger]
        call_ensures(M::absolute, (math, x), s) && evaluates(math, f, x);
    lemma_scaled_is_odd(math, negate, value, peak, x);
    lemma_scaled_is_odd(math, negate, value, peak, z);
    assert(call_ensures(M::absolute, (math, negate(z)), s));
    assert(evaluates(math, g.absolute(), s));
    assert(evaluates(math, one.plus(g.absolute()), d));
    assert(call_ensures(M::over, (math, negate(x), d), negate(out)));
}

/// A negated value scaled by the peak is the negated value of the scaled one.
proof fn lemma_scaled_is_odd<M: SampleMath>(
    math: &M,
    negate: spec_fn(M::Real) -> M::Real,
    value: M::Real,
    peak: M::Real,
    x: M::Real,
)
    requires
        is_sign_symmetric(math, negate),
        evaluates(math, scaled_by_peak(value, peak), x),
    ensures
        evaluates(math, scaled_by_peak(negate(value), peak), negate(x)),
{
    let known = Formula::<M::Real, M::Iq>::Known(peak);
    let target = Formula::<M::Real, M::Iq>::Single(TARGET);
    let quotient = Formula::<M::Real, M::Iq>::Known(value).over(known);
    let other = Formula::<M::Real, M::Iq>::Known(negate(value)).over(known);
    let (q, t) = choose|x1: M::Real, y: M::Real| #[trigger]
        call_ensures(M::times, (math, x1, y), x) && evaluates(math, quotient, x1) && evaluates(
            math,
            target,
            y,
        );
    let (v, p) = choose|x1: M::Real, y: M::Real| #[trigger]
        call_ensures(M::over, (math, x1, y), q) && evaluates(math, Formula::Known(value), x1)
            && evaluates(math, known, y);
    assert(call_ensures(M::over, (math, negate(v), p), negate(q)));
    assert(evaluates(math, Formula::Known(negate(value)), negate(v)));
    assert(evaluates(math, other, negate(q)));
    assert(call_ensures(M::times, (math, negate(q), t), negate(x)));
}

/// The gain control is odd: the negated values are brought to the negated levels, with the same
/// peaks.
pub proof fn law_levelling_is_odd<M: SampleMath>(
    math: &M,
    negate: spec_fn(M::Real) -> M::Real,
    before: M::Real,
    after: M::Real,
    values: Seq<M::Real>,
    out: Seq<M::Real>,
)
    requires
        is_sign_symmetric(math, negate),
        is_levelled(math, before, after, values, out),
    ensures
        is_levelled(math, before, after, negated(values, negate), negated(out, negate)),
{
    let peaks = choose|peaks: Seq<M::Real>| #[trigger]
        levels_out(math, peaks, values, out) && peaks[0] == before && peaks.last() == after;
    let minus_values = negated(values, negate);
    let minus_out = negated(out, negate);
    assert forall|i: int| 0 <= i < minus_values.len() implies levels_one(
        math,
        peaks[i],
        minus_values[i],
        peaks[i + 1],
        #[trigger] minus_out[i],
    ) by {
        let value = values[i];
        assert(levels_one(math, peaks[i], value, peaks[i + 1], out[i]));
        let louder = choose|louder: bool| #[trigger]
            is_below(math, Formula::Known(peaks[i]), Formula::Known(value).absolute(), louder)
                && evaluates(math, next_peak(peaks[i], value, louder), peaks[i + 1]);
        lemma_peak_is_even(math, negate, peaks[i], value, louder, peaks[i + 1]);
        lemma_level_is_odd(math, negate, value, peaks[i + 1], out[i]);
    }
    assert(levels_out(math, peaks, minus_values, minus_out));
}

/// The demodulated phases lie between -pi and pi.
pub proof fn law_phases_are_bounded<M: SampleMath>(
    math: &M,
    m: Measure<M::Real, M::Iq>,
    before: M::Iq,
    samples: Seq<M::Iq>,
    out: Seq<M::Real>,
    i: int,
)
    requires
        angles_are_bounded(math, m),
        fm_demodulates(math, before, samples, out),
        0 <= i < out.len(),
    ensures
        within((m.value)(out[i]), (m.constant)(PI)),
{
    assert(evaluates(math, phase_step(previous(before, samples, i), samples[i]), out[i]));
}

/// `w` is `z` times the complex number with the parts `re` and `im`.
pub open spec fn is_multiple<R, C>(m: Measure<R, C>, re: real, im: real, z: C, w: C) -> bool {
    &&& (m.re)(w) == re * (m.re)(z) - im * (m.im)(z)
    &&& (m.im)(w) == re * (m.im)(z) + im * (m.re)(z)
}

/// The parts of a conjugate times a sample.
proof fn lemma_product_parts<M: SampleMath>(
    math: &M,
    m: Measure<M::Real, M::Iq>,
    last: M::Iq,
    sample: M::Iq,
    p: M::Iq,
)
    requires
        is_iq_exact(math, m),
        iq_evaluates(
            math,
            IqFormula::Known(last).conjugate().times(IqFormula::Known(sample)),
            p,
        ),
    ensures
        (m.re)(p) == (m.re)(last) * (m.re)(sample) + (m.im)(last) * (m.im)(sample),
        (m.im)(p) == (m.re)(last) * (m.im)(sample) - (m.im)(last) * (m.re)(sample),
{
    let conjugate = IqFormula::<M::Real, M::Iq>::Known(last).conjugate();
    let (u, w) = choose|x: M::Iq, y: M::Iq| #[trigger]
        call_ensures(M::iq_times, (math, x, y), p) && iq_evaluates(math, conjugate, x)
            && iq_evaluates(math, IqFormula::Known(sample), y);
    let z = choose|x: M::Iq| #[trigger]
        call_ensures(M::conjugate, (math, x), u) && iq_evaluates(math, IqFormula::Known(last), x);
    assert(w == sample && z == last);
    let b = (m.im)(last);
    assert((m.im)(u) == -b);
    lemma_signs(b, (m.re)(sample));
    lemma_signs(b, (m.im)(sample));
}

/// What the discriminator takes the angle of.
pub proof fn lemma_phase_parts<M: SampleMath>(
    math: &M,
    m: Measure<M::Real, M::Iq>,
    last: M::Iq,
    sample: M::Iq,
    r: M::Real,
) -> (yx: (M::Real, M::Real))
    requires
        is_iq_exact(math, m),
        evaluates(math, phase_step(last, sample), r),
    ensures
        call_ensures(M::angle, (math, yx.0, yx.1), r),
        (m.value)(yx.0) == (m.re)(last) * (m.im)(sample) - (m.im)(last) * (m.re)(sample),
        (m.value)(yx.1) == (m.re)(last) * (m.re)(sample) + (m.im)(last) * (m.im)(sample),
{
    let product = IqFormula::<M::Real, M::Iq>::Known(last).conjugate().times(
        IqFormula::Known(sample),
    );
    let (y, x) = choose|x: M::Real, y: M::Real| #[trigger]
        call_ensures(M::angle, (math, x, y), r) && evaluates(math, product.imaginary_part(), x)
            && evaluates(math, product.real_part(), y);
    let p = choose|p: M::Iq| #[trigger]
        call_ensures(M::imaginary_part, (math, p), y) && iq_evaluates(math, product, p);
    let q = choose|p: M::Iq| #[trigger]
        call_ensures(M::real_part, (math, p), x) && iq_evaluates(math, product, p);
    lemma_product_parts(math, m, last, sample, p);
    lemma_product_parts(math, m, last, sample, q);
    (y, x)
}

/// FM demodulation does not heed how strong a signal is nor what phase it starts from: where
/// arithmetic does not round, samples that are all multiplied by one complex number other than
/// 0 are demodulated to the same values.
pub proof fn law_fm_ignores_factor<M: SampleMath>(
    math: &M,
    m: Measure<M::Real, M::Iq>,
    re: real,
    im: real,
    before: M::Iq,
    samples: Seq<M::Iq>,
    out: Seq<M::Real>,
    other_before: M::Iq,
    other: Seq<M::Iq>,
    other_out: Seq<M::Real>,
    i: int,
)
    requires
        is_iq_exact(math, m),
        angles_ignore_distance(math, m),
        re != 0real || im != 0real,
        fm_demodulates(math, before, samples, out),
        fm_demodulates(math, other_before, other, other_out),
        other.len() == samples.len(),
        is_multiple(m, re, im, before, other_before),
        forall|k: int|
            0 <= k < samples.len() ==> is_multiple(m, re, im, samples[k], #[trigger] other[k]),
        0 <= i < out.len(),
    ensures
        (m.value)(other_out[i]) == (m.value)(out[i]),
{
    let z = previous(before, samples, i);
    let z2 = previous(other_before, other, i);
    let w = samples[i];
    let w2 = other[i];
    assert(is_multiple(m, re, im, z, z2)) by {
        if i > 0 {
            assert(is_multiple(m, re, im, samples[i - 1], other[i - 1]));
        }
    }
    assert(evaluates(math, phase_step(z, w), out[i]));
    assert(evaluates(math, phase_step(z2, w2), other_out[i]));
    let (y, x) = lemma_phase_parts(math, m, z, w, out[i]);
    let (y2, x2) = lemma_phase_parts(math, m, z2, w2, other_out[i]);
    let scale = re * re + im * im;
    lemma_multiplied(re, im, (m.re)(z), (m.im)(z), (m.re)(w), (m.im)(w));
    lemma_square(re);
    lemma_square(im);
    assert(is_scaled(scale, (m.value)(y), (m.value)(y2)));
    assert(is_scaled(scale, (m.value)(x), (m.value)(x2)));
}

/// A stage that remembers the last sample remembers the last of a block, or what it remembered
/// before where the block is empty.
pub proof fn law_newest<T>(before: T, samples: Seq<T>)
    ensures
        samples.len() == 0 ==> newest(before, samples) == before,
        samples.len() > 0 ==> newest(before, samples) == samples[samples.len() - 1],
{
}

} // verus!
