//! What the demodulators, the gain control and the fade do to a signal: laws of arithmetic that
//! does not round.

use crate::audio::{are_rates, deviation_phase, fade_step, AudioRates};
use crate::config::DemodMode;
use crate::demod::{
    am_demodulates, brought_to_level, deemphasis_alpha, deemphasizes_at, deemphasizes_by, detects,
    divides, fades, fades_by, fades_one, fm_demodulates, heard_gains, is_faded, is_inaudible,
    is_levelled, lemma_phase_parts, levels_one, levels_out, mutes, next_gain, next_peak,
    phase_step, previous, smoothed, unbiased,
};
use crate::formula::{evaluates, iq_evaluates, is_below, Formula, IqFormula};
use crate::ideal::{is_ideal, is_sound, lemma_worth, reads_constants, worth, Ideal};
use crate::math::SampleMath;
use crate::measure::{larger, size, smaller};
use crate::reals::{
    lemma_associate, lemma_commute, lemma_distribute, lemma_divide, lemma_multiplied,
    lemma_nonzero, lemma_one, lemma_ordered, lemma_positive, lemma_signs, lemma_square,
    lemma_zero, square,
};
use vstd::arithmetic::div_mod::{lemma_fundamental_div_mod, lemma_mod_bound};
use vstd::arithmetic::mul::{lemma_mul_is_commutative, lemma_mul_is_distributive_add_other_way};
use vstd::prelude::*;

verus! {

/// The point with the coordinates `x` and `y` is at the angle `angle`, at the distance `far`.
pub open spec fn is_polar<R, C>(ideal: Ideal<R, C>, y: real, x: real, far: real, angle: real) -> bool {
    &&& y == far * (ideal.sine)(angle)
    &&& x == far * (ideal.cosine)(angle)
}

/// `math` finds the angle of every point, up to half a turn either way.
pub open spec fn finds_angles<M: SampleMath>(math: &M, ideal: Ideal<M::Real, M::Iq>) -> bool {
    let v = ideal.measure.value;
    let pi = (ideal.measure.constant)(0x4049_0FDB);
    forall|y: M::Real, x: M::Real, r: M::Real, far: real, angle: real|
        #![trigger call_ensures(M::angle, (math, y, x), r), is_polar(ideal, v(y), v(x), far, angle)]
        call_ensures(M::angle, (math, y, x), r) && far > 0real && -pi < angle <= pi && is_polar(
            ideal,
            v(y),
            v(x),
            far,
            angle,
        ) ==> v(r) == angle
}

/// The discriminator finds by how much a signal turns from sample to sample: where sample `i`
/// is the one before it, other than 0, turned by `angle`, at most half a turn either way, and
/// made `gain` times as strong, it gives `angle`.
pub proof fn law_fm_finds_the_turn<M: SampleMath>(
    math: &M,
    ideal: Ideal<M::Real, M::Iq>,
    before: M::Iq,
    samples: Seq<M::Iq>,
    out: Seq<M::Real>,
    i: int,
    gain: real,
    angle: real,
)
    requires
        is_ideal(math, ideal),
        finds_angles(math, ideal),
        fm_demodulates(math, before, samples, out),
        0 <= i < samples.len(),
        gain > 0real,
        -(ideal.measure.constant)(0x4049_0FDB) < angle <= (ideal.measure.constant)(0x4049_0FDB),
        ({
            let z = if i == 0 { before } else { samples[i - 1] };
            let (re, im) = ((ideal.measure.re)(z), (ideal.measure.im)(z));
            let x = gain * (ideal.cosine)(angle);
            let y = gain * (ideal.sine)(angle);
            &&& re != 0real || im != 0real
            &&& (ideal.measure.re)(samples[i]) == re * x - im * y
            &&& (ideal.measure.im)(samples[i]) == re * y + im * x
        }),
    ensures
        out.len() == samples.len(),
        (ideal.measure.value)(out[i]) == angle,
{
    let v = ideal.measure.value;
    let z = previous(before, samples, i);
    let w = samples[i];
    let (re, im) = ((ideal.measure.re)(z), (ideal.measure.im)(z));
    let c = gain * (ideal.cosine)(angle);
    let s = gain * (ideal.sine)(angle);
    assert(evaluates(math, phase_step(previous(before, samples, i), samples[i]), out[i]));
    let (y, x) = lemma_phase_parts(math, ideal.measure, z, w, out[i]);
    lemma_multiplied(re, im, 1real, 0real, c, s);
    let power = re * re + im * im;
    lemma_one(1real, re);
    lemma_commute(1real, re);
    lemma_one(1real, im);
    lemma_commute(1real, im);
    lemma_zero(0real, re);
    lemma_commute(0real, re);
    lemma_zero(0real, im);
    lemma_commute(0real, im);
    lemma_one(1real, c);
    lemma_one(1real, s);
    lemma_zero(0real, c);
    lemma_zero(0real, s);
    assert(v(y) == power * s);
    assert(v(x) == power * c);
    lemma_square(re);
    lemma_square(im);
    let far = power * gain;
    lemma_positive(power, gain);
    lemma_associate(power, gain, (ideal.sine)(angle));
    lemma_associate(power, gain, (ideal.cosine)(angle));
    assert(is_polar(ideal, v(y), v(x), far, angle));
}

/// Where a sample or the one before it is 0, the discriminator finds no turn, given that the
/// origin is at the angle 0.
pub proof fn law_fm_of_nothing<M: SampleMath>(
    math: &M,
    ideal: Ideal<M::Real, M::Iq>,
    before: M::Iq,
    samples: Seq<M::Iq>,
    out: Seq<M::Real>,
    i: int,
)
    requires
        is_ideal(math, ideal),
        forall|y: M::Real, x: M::Real, r: M::Real| #[trigger]
            call_ensures(M::angle, (math, y, x), r) && (ideal.measure.value)(y) == 0real && (
            ideal.measure.value)(x) == 0real ==> (ideal.measure.value)(r) == 0real,
        fm_demodulates(math, before, samples, out),
        0 <= i < samples.len(),
        ({
            let z = if i == 0 { before } else { samples[i - 1] };
            let w = samples[i];
            (ideal.measure.re)(z) == 0real && (ideal.measure.im)(z) == 0real || (
            ideal.measure.re)(w) == 0real && (ideal.measure.im)(w) == 0real
        }),
    ensures
        (ideal.measure.value)(out[i]) == 0real,
{
    let (re, im) = (ideal.measure.re, ideal.measure.im);
    let z = previous(before, samples, i);
    let w = samples[i];
    assert(evaluates(math, phase_step(previous(before, samples, i), samples[i]), out[i]));
    let (y, x) = lemma_phase_parts(math, ideal.measure, z, w, out[i]);
    lemma_commute(re(z), im(w));
    lemma_commute(im(z), re(w));
    lemma_commute(re(z), re(w));
    lemma_commute(im(z), im(w));
    if re(z) == 0real && im(z) == 0real {
        lemma_zero(re(z), im(w));
        lemma_zero(im(z), re(w));
        lemma_zero(re(z), re(w));
        lemma_zero(im(z), im(w));
    } else {
        lemma_zero(im(w), re(z));
        lemma_zero(re(w), im(z));
        lemma_zero(re(w), re(z));
        lemma_zero(im(w), im(z));
    }
}

/// The scale of FM: a turn of the deviation's phase per sample, 2 pi deviation / rate, is
/// brought to 1, where that is more than a millionth.
pub proof fn law_deviation<M: SampleMath>(
    math: &M,
    ideal: Ideal<M::Real, M::Iq>,
    deviation_hz: u32,
    rate: u32,
    phases: Seq<M::Real>,
    scale: M::Real,
    out: Seq<M::Real>,
    i: int,
)
    requires
        is_ideal(math, ideal),
        reads_constants(ideal),
        rate > 0,
        evaluates(math, deviation_phase(deviation_hz, rate), scale),
        divides(math, phases, scale, out),
        0 <= i < phases.len(),
        (ideal.measure.constant)(0x3586_37BD) > 0real,
    ensures
        out.len() == phases.len(),
        ({
            let pi = (ideal.measure.constant)(0x4049_0FDB);
            let full = deviation_hz as real / rate as real * 2real * pi;
            larger(full, (ideal.measure.constant)(0x3586_37BD)) * (ideal.measure.value)(out[i])
                == (ideal.measure.value)(phases[i])
        }),
{
    let v = ideal.measure.value;
    reveal_with_fuel(worth, 7);
    reveal_with_fuel(is_sound, 7);
    lemma_worth(math, ideal, deviation_phase(deviation_hz, rate), scale);
    assert(call_ensures(M::over, (math, phases[i], scale), out[i]));
    lemma_divide(v(phases[i]), v(scale));
    lemma_commute(v(out[i]), v(scale));
}

/// The de-emphasis goes with each value the same part of the way to it: with a time constant of
/// `tau` seconds, one part in 1 + `tau` * rate.
pub proof fn law_deemphasis<M: SampleMath>(
    math: &M,
    ideal: Ideal<M::Real, M::Iq>,
    rate: u32,
    before: M::Real,
    values: Seq<M::Real>,
    out: Seq<M::Real>,
    i: int,
)
    requires
        is_ideal(math, ideal),
        rate > 0,
        (ideal.measure.constant)(0x3851_B717) > 0real,
        deemphasizes_at(math, rate, before, values, out),
        0 <= i < values.len(),
    ensures
        out.len() == values.len(),
        ({
            let v = ideal.measure.value;
            let tau = (ideal.measure.constant)(0x3851_B717);
            let last = v(if i == 0 { before } else { out[i - 1] });
            (1real + tau * rate as real) * (v(out[i]) - last) == v(values[i]) - last
        }),
{
    let v = ideal.measure.value;
    let tau = (ideal.measure.constant)(0x3851_B717);
    let n = rate as real;
    let alpha = choose|alpha: M::Real| #[trigger]
        deemphasizes_by(math, rate, before, values, out, alpha);
    let last = previous(before, out, i);
    assert(evaluates(math, smoothed(previous(before, out, i), values[i], alpha), out[i]));
    reveal_with_fuel(worth, 5);
    reveal_with_fuel(is_sound, 5);
    lemma_worth(math, ideal, smoothed(last, values[i], alpha), out[i]);
    let t = 1real / n;
    lemma_divide(1real, n);
    assert(t > 0real) by {
        if t <= 0real {
            lemma_ordered(n, t, 0real);
            lemma_commute(n, t);
            lemma_zero(0real, n);
            lemma_commute(0real, n);
        }
    }
    assert(worth(ideal, deemphasis_alpha::<M::Real, M::Iq>(rate)) == t / (tau + t));
    assert(is_sound(ideal, deemphasis_alpha::<M::Real, M::Iq>(rate)));
    lemma_worth(math, ideal, deemphasis_alpha(rate), alpha);
    let a = v(alpha);
    lemma_divide(t, tau + t);
    // a * (tau + t) == t, and t * n == 1.
    let k = 1real + tau * n;
    lemma_distribute(n, tau, t);
    lemma_commute(n, tau);
    lemma_commute(n, t);
    assert(n * (tau + t) == k);
    lemma_commute(a, tau + t);
    lemma_associate(n, tau + t, a);
    assert(k * a == 1real);
    let d = v(values[i]) - v(last);
    assert(v(out[i]) - v(last) == a * d);
    lemma_associate(k, a, d);
    lemma_one(k * a, d);
}

/// The AM detector takes the size of each sample, and of that what differs from the sample
/// before, on top of what is left of the output before: a constant size dies away.
pub proof fn law_envelope<M: SampleMath>(
    math: &M,
    ideal: Ideal<M::Real, M::Iq>,
    last_in: M::Real,
    last_out: M::Real,
    samples: Seq<M::Iq>,
    envelope: Seq<M::Real>,
    out: Seq<M::Real>,
    i: int,
)
    requires
        is_ideal(math, ideal),
        am_demodulates(math, last_in, last_out, samples, envelope, out),
        0 <= i < samples.len(),
    ensures
        out.len() == samples.len(),
        envelope.len() == samples.len(),
        ({
            let v = ideal.measure.value;
            let x = v(envelope[i]);
            let before = v(if i == 0 { last_in } else { envelope[i - 1] });
            let y = v(if i == 0 { last_out } else { out[i - 1] });
            &&& x >= 0real
            &&& square(x) == square((ideal.measure.re)(samples[i])) + square(
                (ideal.measure.im)(samples[i]),
            )
            &&& v(out[i]) == x - before + (ideal.measure.constant)(0x3F7F_5C29) * y
        }),
{
    let before = previous(last_in, envelope, i);
    let y = previous(last_out, out, i);
    let sample = samples[i];
    assert(detects(
        math,
        previous(last_in, envelope, i),
        previous(last_out, out, i),
        samples[i],
        envelope[i],
        out[i],
    ));
    let z = choose|z: M::Iq| #[trigger]
        call_ensures(M::norm, (math, z), envelope[i]) && iq_evaluates(
            math,
            IqFormula::Known(sample),
            z,
        );
    assert(z == sample);
    reveal_with_fuel(worth, 4);
    reveal_with_fuel(is_sound, 4);
    lemma_worth(math, ideal, unbiased(envelope[i], before, y), out[i]);
}

/// The gain control's peak after the first `n` of `values`: with each it goes a part of the way
/// to the value's size, 0.02 of it up and 0.00008 of it down, but not below its floor.
pub open spec fn peak_after<R, C>(ideal: Ideal<R, C>, start: real, values: Seq<R>, n: nat) -> real
    decreases n,
{
    if n == 0 {
        start
    } else {
        let p = peak_after(ideal, start, values, (n - 1) as nat);
        let s = size((ideal.measure.value)(values[n - 1]));
        let part = if s > p {
            (ideal.measure.constant)(0x3CA3_D70A)
        } else {
            (ideal.measure.constant)(0x38A7_C5AC)
        };
        larger(p + part * (s - p), (ideal.measure.constant)(0x3727_C5AC))
    }
}

/// One step of the gain control.
proof fn lemma_level_step<M: SampleMath>(
    math: &M,
    ideal: Ideal<M::Real, M::Iq>,
    before: M::Real,
    value: M::Real,
    after: M::Real,
    out: M::Real,
)
    requires
        is_ideal(math, ideal),
        (ideal.measure.constant)(0x3727_C5AC) > 0real,
        (ideal.measure.constant)(0x3F59_999A) > 0real,
        levels_one(math, before, value, after, out),
    ensures
        ({
            let v = ideal.measure.value;
            let p = v(before);
            let s = size(v(value));
            let part = if s > p {
                (ideal.measure.constant)(0x3CA3_D70A)
            } else {
                (ideal.measure.constant)(0x38A7_C5AC)
            };
            let target = (ideal.measure.constant)(0x3F59_999A);
            &&& v(after) == larger(p + part * (s - p), (ideal.measure.constant)(0x3727_C5AC))
            &&& (v(after) + target * s) * v(out) == target * v(value)
        }),
{
    let v = ideal.measure.value;
    let target = (ideal.measure.constant)(0x3F59_999A);
    let known = Formula::<M::Real, M::Iq>::Known(before);
    let absolute = Formula::<M::Real, M::Iq>::Known(value).absolute();
    let louder = choose|louder: bool| #[trigger]
        is_below(math, Formula::Known(before), Formula::Known(value).absolute(), louder)
            && evaluates(math, next_peak(before, value, louder), after);
    let (x, y) = choose|x: M::Real, y: M::Real| #[trigger]
        call_ensures(M::below, (math, x, y), louder) && evaluates(math, known, x) && evaluates(
            math,
            absolute,
            y,
        );
    reveal_with_fuel(worth, 7);
    reveal_with_fuel(is_sound, 7);
    lemma_worth(math, ideal, absolute, y);
    lemma_worth(math, ideal, next_peak(before, value, louder), after);
    let p = v(after);
    let s = v(value);
    let q = s / p;
    let scaled = q * target;
    lemma_divide(s, p);
    let f = brought_to_level::<M::Real, M::Iq>(value, after);
    assert(size(scaled) >= 0real);
    assert(is_sound(ideal, f));
    lemma_worth(math, ideal, f, out);
    assert(v(out) == scaled / (1real + size(scaled)));
    let o = v(out);
    lemma_divide(scaled, 1real + size(scaled));
    // o * (1 + |scaled|) == scaled, and p * scaled == target * s.
    lemma_associate(p, q, target);
    lemma_commute(p, q);
    lemma_commute(s, target);
    assert(p * scaled == target * s);
    assert(p * size(scaled) == target * size(s)) by {
        lemma_signs(p, scaled);
        lemma_signs(target, s);
        if scaled >= 0real && s < 0real {
            lemma_ordered(p, 0real, scaled);
            lemma_positive(target, -s);
            lemma_zero(0real, p);
            lemma_commute(0real, p);
        } else if scaled < 0real && s >= 0real {
            lemma_positive(p, -scaled);
            lemma_ordered(target, 0real, s);
            lemma_zero(0real, target);
            lemma_commute(0real, target);
        }
    }
    lemma_distribute(p, 1real, size(scaled));
    lemma_commute(p, 1real);
    lemma_one(1real, p);
    assert(p * (1real + size(scaled)) == p + target * size(s));
    lemma_associate(p, 1real + size(scaled), o);
    lemma_commute(o, 1real + size(scaled));
    assert((p + target * size(s)) * o == p * scaled);
}

/// The peaks of the gain control.
proof fn lemma_peaks<M: SampleMath>(
    math: &M,
    ideal: Ideal<M::Real, M::Iq>,
    peaks: Seq<M::Real>,
    values: Seq<M::Real>,
    out: Seq<M::Real>,
    n: int,
)
    requires
        is_ideal(math, ideal),
        (ideal.measure.constant)(0x3727_C5AC) > 0real,
        (ideal.measure.constant)(0x3F59_999A) > 0real,
        levels_out(math, peaks, values, out),
        0 <= n <= values.len(),
    ensures
        (ideal.measure.value)(peaks[n]) == peak_after(
            ideal,
            (ideal.measure.value)(peaks[0]),
            values,
            n as nat,
        ),
    decreases n,
{
    if n > 0 {
        let k = n - 1;
        lemma_peaks(math, ideal, peaks, values, out, k);
        assert(levels_one(math, peaks[k], values[k], peaks[k + 1], out[k]));
        lemma_level_step(math, ideal, peaks[k], values[k], peaks[k + 1], out[k]);
    }
}

/// The gain control brings each value to level by the peak it has then: with the target `t` of
/// 0.85 and the peak `p`, a value `s` comes to `t` `s` / (`p` + `t` |`s`|). So it keeps its sign
/// and stays below 1.
pub proof fn law_levelling<M: SampleMath>(
    math: &M,
    ideal: Ideal<M::Real, M::Iq>,
    before: M::Real,
    after: M::Real,
    values: Seq<M::Real>,
    out: Seq<M::Real>,
    i: int,
)
    requires
        is_ideal(math, ideal),
        (ideal.measure.constant)(0x3727_C5AC) > 0real,
        (ideal.measure.constant)(0x3F59_999A) > 0real,
        is_levelled(math, before, after, values, out),
        0 <= i < values.len(),
    ensures
        out.len() == values.len(),
        ({
            let v = ideal.measure.value;
            let t = (ideal.measure.constant)(0x3F59_999A);
            let p = peak_after(ideal, v(before), values, (i + 1) as nat);
            let s = v(values[i]);
            let o = v(out[i]);
            &&& v(after) == peak_after(ideal, v(before), values, values.len())
            &&& p >= (ideal.measure.constant)(0x3727_C5AC)
            &&& (p + t * size(s)) * o == t * s
            &&& -1real < o < 1real
            &&& s > 0real ==> o > 0real
            &&& s == 0real ==> o == 0real
            &&& s < 0real ==> o < 0real
        }),
{
    let v = ideal.measure.value;
    let t = (ideal.measure.constant)(0x3F59_999A);
    let peaks = choose|peaks: Seq<M::Real>| #[trigger]
        levels_out(math, peaks, values, out) && peaks[0] == before && peaks.last() == after;
    lemma_peaks(math, ideal, peaks, values, out, values.len() as int);
    lemma_peaks(math, ideal, peaks, values, out, i + 1);
    assert(levels_one(math, peaks[i], values[i], peaks[i + 1], out[i]));
    lemma_level_step(math, ideal, peaks[i], values[i], peaks[i + 1], out[i]);
    let p = v(peaks[i + 1]);
    let s = v(values[i]);
    let o = v(out[i]);
    let d = p + t * size(s);
    lemma_ordered(t, 0real, size(s));
    lemma_zero(0real, t);
    lemma_commute(0real, t);
    assert(d > 0real);
    lemma_signs(t, s);
    lemma_one(1real, d);
    lemma_commute(1real, d);
    lemma_signs(d, 1real);
    lemma_zero(0real, d);
    lemma_commute(0real, d);
    if o >= 1real {
        lemma_ordered(d, 1real, o);
    }
    if o <= -1real {
        lemma_ordered(d, o, -1real);
    }
    if s > 0real {
        lemma_positive(t, s);
        if o <= 0real {
            lemma_ordered(d, o, 0real);
        }
    } else if s < 0real {
        lemma_positive(t, -s);
        if o >= 0real {
            lemma_ordered(d, 0real, o);
        }
    } else if o != 0real {
        lemma_nonzero(d, o);
    }
}

/// One value brought to level: the peak `p` goes 0.02 of the way to the value's size where that
/// is greater, else 0.00008 of the way, but not below a hundred thousandth; and with the new peak
/// the value `s` comes to 0.85 `s` / (peak + 0.85 |`s`|).
pub proof fn law_one_value_levelled<M: SampleMath>(
    math: &M,
    ideal: Ideal<M::Real, M::Iq>,
    before: M::Real,
    after: M::Real,
    value: M::Real,
    out: Seq<M::Real>,
)
    requires
        is_ideal(math, ideal),
        (ideal.measure.constant)(0x3727_C5AC) > 0real,
        (ideal.measure.constant)(0x3F59_999A) > 0real,
        is_levelled(math, before, after, seq![value], out),
    ensures
        out.len() == 1,
        ({
            let v = ideal.measure.value;
            let constant = ideal.measure.constant;
            let p = v(before);
            let s = if v(value) >= 0real { v(value) } else { -v(value) };
            let up = p + constant(0x3CA3_D70A) * (s - p);
            let down = p + constant(0x38A7_C5AC) * (s - p);
            let moved = if s > p { up } else { down };
            let floor = constant(0x3727_C5AC);
            let peak = if moved >= floor { moved } else { floor };
            let t = constant(0x3F59_999A);
            &&& v(after) == peak
            &&& (peak + t * s) * v(out[0]) == t * v(value)
        }),
{
    law_levelling(math, ideal, before, after, seq![value], out, 0);
    reveal_with_fuel(peak_after, 2);
}

/// The gain of a fade that stood at `start`, after `n` samples: it moves by `step` with each, up
/// to 1 where the squelch is open and else down to 0, and stays there.
pub open spec fn gain_after(start: real, open: bool, step: real, n: nat) -> real {
    if n == 0 {
        start
    } else if open {
        smaller(start + n as real * step, 1real)
    } else {
        larger(start - n as real * step, 0real)
    }
}

/// The gains of a fade.
proof fn lemma_gains<M: SampleMath>(
    math: &M,
    ideal: Ideal<M::Real, M::Iq>,
    gains: Seq<M::Real>,
    open: bool,
    step: M::Real,
    values: Seq<M::Real>,
    out: Seq<M::Real>,
    n: int,
)
    requires
        is_ideal(math, ideal),
        (ideal.measure.value)(step) >= 0real,
        fades(math, gains, open, step, values, out),
        0 <= n <= values.len(),
    ensures
        (ideal.measure.value)(gains[n]) == gain_after(
            (ideal.measure.value)(gains[0]),
            open,
            (ideal.measure.value)(step),
            n as nat,
        ),
    decreases n,
{
    let v = ideal.measure.value;
    let d = v(step);
    if n > 0 {
        let k = n - 1;
        lemma_gains(math, ideal, gains, open, step, values, out, k);
        assert(fades_one(math, gains[k], open, step, values[k], gains[k + 1], out[k]));
        reveal_with_fuel(worth, 3);
        reveal_with_fuel(is_sound, 3);
        lemma_worth(math, ideal, next_gain(gains[k], open, step), gains[k + 1]);
        assert(n as real == k as real + 1real);
        lemma_commute(n as real, d);
        lemma_commute(k as real, d);
        lemma_distribute(d, k as real, 1real);
        lemma_one(1real, d);
        lemma_commute(1real, d);
        lemma_zero(0real, d);
    }
}

/// The squelch opens and closes by a ramp: sample `i` is heard under the gain that the fade has
/// reached with it, and the next block goes on from the gain that the last sample left. While
/// the squelch is closed, and only then, a block is dropped that is heard nowhere at a gain of a
/// thousandth or more.
pub proof fn law_fade<M: SampleMath>(
    math: &M,
    ideal: Ideal<M::Real, M::Iq>,
    before: M::Real,
    after: M::Real,
    open: bool,
    step: M::Real,
    values: Seq<M::Real>,
    r: Option<Seq<M::Real>>,
)
    requires
        is_ideal(math, ideal),
        (ideal.measure.value)(step) >= 0real,
        is_faded(math, before, after, open, step, values, r),
    ensures
        ({
            let v = ideal.measure.value;
            let g = v(before);
            let d = v(step);
            let least = (ideal.measure.constant)(0x3A83_126F);
            let gain = |n: int|
                if n == 0 {
                    g
                } else if open {
                    if g + n as real * d <= 1real {
                        g + n as real * d
                    } else {
                        1real
                    }
                } else {
                    if g - n as real * d >= 0real {
                        g - n as real * d
                    } else {
                        0real
                    }
                };
            &&& v(after) == gain(values.len() as int)
            &&& r matches Some(out) ==> out.len() == values.len() && forall|i: int|
                0 <= i < values.len() ==> v(#[trigger] out[i]) == v(values[i]) * gain(i + 1)
            &&& open ==> r is Some
            &&& !open && values.len() == 0 ==> (r is None <==> g < least)
            &&& !open && values.len() > 0 ==> (r is None <==> forall|n: int|
                1 <= n <= values.len() ==> #[trigger] gain(n) < least)
        }),
{
    let v = ideal.measure.value;
    let g = v(before);
    let d = v(step);
    let least = (ideal.measure.constant)(0x3A83_126F);
    let gain = |n: int|
        if n == 0 {
            g
        } else if open {
            if g + n as real * d <= 1real {
                g + n as real * d
            } else {
                1real
            }
        } else {
            if g - n as real * d >= 0real {
                g - n as real * d
            } else {
                0real
            }
        };
    assert forall|n: int| 0 <= n implies #[trigger] gain(n) == gain_after(g, open, d, n as nat) by {}
    let (gains, out) = choose|gains: Seq<M::Real>, out: Seq<M::Real>| #[trigger]
        fades_by(math, before, after, open, step, values, r, gains, out);
    lemma_gains(math, ideal, gains, open, step, values, out, values.len() as int);
    assert(gain(values.len() as int) == v(after));
    assert forall|i: int| 0 <= i < values.len() implies v(#[trigger] out[i]) == v(values[i])
        * gain(i + 1) by {
        assert(fades_one(math, gains[i], open, step, values[i], gains[i + 1], out[i]));
        lemma_gains(math, ideal, gains, open, step, values, out, i + 1);
    }
    if !open {
        let flags = choose|flags: Seq<bool>| #[trigger] mutes(math, gains, out, r, flags);
        let heard = heard_gains(gains);
        assert forall|k: int| 0 <= k < heard.len() implies #[trigger] flags[k] == (v(heard[k])
            < least) by {
            assert(is_inaudible(math, heard[k], flags[k]));
            lemma_inaudible(math, ideal, heard[k], flags[k]);
        }
        if values.len() == 0 {
            assert(heard[0] == before);
            assert(flags[0] == (v(heard[0]) < least));
        } else {
            assert forall|n: int| 1 <= n <= values.len() implies flags[n - 1] == (
            #[trigger] gain(n) < least) by {
                lemma_gains(math, ideal, gains, open, step, values, out, n);
                assert(heard[n - 1] == gains[n]);
                assert(flags[n - 1] == (v(heard[n - 1]) < least));
            }
            if r is None {
                assert forall|n: int| 1 <= n <= values.len() implies #[trigger] gain(n)
                    < least by {
                    assert(flags[n - 1]);
                }
            } else {
                let k = choose|k: int| 0 <= k < flags.len() && !#[trigger] flags[k];
                assert(!(gain(k + 1) < least));
            }
        }
    }
}

/// Whether nothing is heard at a gain.
proof fn lemma_inaudible<M: SampleMath>(
    math: &M,
    ideal: Ideal<M::Real, M::Iq>,
    gain: M::Real,
    flag: bool,
)
    requires
        is_ideal(math, ideal),
        is_inaudible(math, gain, flag),
    ensures
        flag == ((ideal.measure.value)(gain) < (ideal.measure.constant)(0x3A83_126F)),
{
    let (x, y) = choose|x: M::Real, y: M::Real| #[trigger]
        call_ensures(M::below, (math, x, y), flag) && evaluates(math, Formula::Known(gain), x)
            && evaluates(math, Formula::Single(0x3A83_126F), y);
}

/// The ramp takes 0.01 s, at every audio rate.
pub proof fn law_fade_time<M: SampleMath>(
    math: &M,
    ideal: Ideal<M::Real, M::Iq>,
    rate: u32,
    step: M::Real,
)
    requires
        is_ideal(math, ideal),
        rate > 0,
        (ideal.measure.constant)(0x3C23_D70A) > 0real,
        evaluates(math, fade_step(rate), step),
    ensures
        rate as real * (ideal.measure.constant)(0x3C23_D70A) * (ideal.measure.value)(step) == 1real,
        (ideal.measure.value)(step) > 0real,
{
    let v = ideal.measure.value;
    let n = rate as real * (ideal.measure.constant)(0x3C23_D70A);
    lemma_positive(rate as real, (ideal.measure.constant)(0x3C23_D70A));
    reveal_with_fuel(worth, 4);
    reveal_with_fuel(is_sound, 4);
    lemma_worth(math, ideal, fade_step(rate), step);
    lemma_divide(1real, n);
    lemma_commute(v(step), n);
    if v(step) <= 0real {
        lemma_ordered(n, v(step), 0real);
        lemma_zero(0real, n);
        lemma_commute(0real, n);
    }
}

/// The rates: the first decimation goes as far toward 250 kHz, for WBFM 400 kHz, as whole
/// factors go, and the second as far toward 50 kHz, for AM 24 kHz; neither goes below.
pub proof fn law_rates(mode: DemodMode, input_sr: u32, rates: AudioRates)
    requires
        are_rates(mode, input_sr, rates),
    ensures
        ({
            let coarse = if mode == DemodMode::WBFM { 400_000int } else { 250_000int };
            let fine = if mode == DemodMode::AM { 24_000int } else { 50_000int };
            let (f1, f2) = (rates.factor1 as int, rates.factor2 as int);
            &&& f1 >= 1
            &&& f1 == 1 || f1 * coarse <= input_sr
            &&& input_sr < (f1 + 1) * coarse
            &&& rates.sr_mid * f1 <= input_sr < (rates.sr_mid + 1) * f1
            &&& f2 >= 1
            &&& f2 == 1 || f2 * fine <= rates.sr_mid
            &&& rates.sr_mid < (f2 + 1) * fine
            &&& rates.out_sr * f2 <= rates.sr_mid < (rates.out_sr + 1) * f2
        }),
{
    let coarse = if mode == DemodMode::WBFM { 400_000int } else { 250_000int };
    let fine = if mode == DemodMode::AM { 24_000int } else { 50_000int };
    lemma_goes_into(input_sr as int, coarse, rates.factor1 as int);
    lemma_is_part(input_sr as int, rates.factor1 as int);
    lemma_goes_into(rates.sr_mid as int, fine, rates.factor2 as int);
    lemma_is_part(rates.sr_mid as int, rates.factor2 as int);
}

/// How often one rate goes into another.
proof fn lemma_goes_into(rate: int, target: int, factor: int)
    requires
        rate >= 0,
        target > 0,
        factor == if rate < target { 1 } else { rate / target },
    ensures
        factor >= 1,
        factor == 1 || factor * target <= rate,
        rate < (factor + 1) * target,
{
    if rate >= target {
        lemma_fundamental_div_mod(rate, target);
        lemma_mod_bound(rate, target);
        lemma_mul_is_commutative(target, factor);
        lemma_mul_is_distributive_add_other_way(target, factor, 1);
        vstd::arithmetic::div_mod::lemma_div_is_ordered(target, rate, target);
        vstd::arithmetic::div_mod::lemma_div_by_self(target);
    }
}

/// A part of a rate.
proof fn lemma_is_part(rate: int, factor: int)
    requires
        rate >= 0,
        factor > 0,
    ensures
        (rate / factor) * factor <= rate < (rate / factor + 1) * factor,
{
    let slower = rate / factor;
    lemma_fundamental_div_mod(rate, factor);
    lemma_mod_bound(rate, factor);
    lemma_mul_is_commutative(factor, slower);
    lemma_mul_is_distributive_add_other_way(factor, slower, 1);
}

} // verus!
