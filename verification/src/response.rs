//! What the filters and decimations do to a signal: laws of arithmetic that does not round.

use crate::filter::{
    averages, blackman, filters_block, filters_block_by, from_middle, iq_zero, is_lowpass, is_mean,
    is_mean_by, is_tap, is_tap_by, lowpass_by, part, plus_weighted, sinc, sums_of, thinned,
    weighs, weighted_sums, DelayLine,
};
use crate::formula::{evaluates, iq_evaluates, Formula};
use crate::ideal::{
    im_worth, is_ideal, is_iq_sound, is_sound, lemma_iq_worth, lemma_worth, re_worth,
    reads_constants, worth, Ideal,
};
use crate::math::SampleMath;
use crate::measure::size;
use crate::reals::{
    lemma_commute, lemma_divide, lemma_nonzero, lemma_one, lemma_quotient, lemma_same_total,
    lemma_scaled_total, lemma_zero, total,
};
use crate::spectrum::{hann, is_window};
use vstd::arithmetic::div_mod::{lemma_fundamental_div_mod, lemma_mod_bound};
use vstd::arithmetic::mul::{
    lemma_mul_inequality, lemma_mul_is_commutative, lemma_mul_is_distributive_add_other_way,
    lemma_mul_nonnegative,
};
use vstd::prelude::*;

verus! {

/// The sample `k` before sample `i` of a stream `samples`, where a filter that remembers the
/// samples before the stream in the ring `line` comes to it.
pub open spec fn sample_before<C>(line: DelayLine<C>, samples: Seq<C>, i: int, k: int) -> C {
    let n = line.slots@.len() as int;
    if k <= i {
        samples[i - k]
    } else {
        line.slots@[(line.pos + n + i - k) % n]
    }
}

/// What the weighted sum of a window is worth, so far.
proof fn lemma_weighted<M: SampleMath>(
    math: &M,
    ideal: Ideal<M::Real, M::Iq>,
    taps: Seq<M::Real>,
    window: Seq<M::Iq>,
    sums: Seq<M::Iq>,
    k: int,
)
    requires
        is_ideal(math, ideal),
        weighted_sums(math, taps, window, sums),
        0 <= k <= taps.len(),
    ensures
        (ideal.measure.re)(sums[k]) == total(
            |j: int| (ideal.measure.re)(window[taps.len() - 1 - j]) * (ideal.measure.value)(taps[j]),
            k as nat,
        ),
        (ideal.measure.im)(sums[k]) == total(
            |j: int| (ideal.measure.im)(window[taps.len() - 1 - j]) * (ideal.measure.value)(taps[j]),
            k as nat,
        ),
    decreases k,
{
    reveal_with_fuel(worth, 4);
    reveal_with_fuel(re_worth, 4);
    reveal_with_fuel(im_worth, 4);
    reveal_with_fuel(is_sound, 4);
    reveal_with_fuel(is_iq_sound, 4);
    if k == 0 {
        lemma_iq_worth(math, ideal, iq_zero(), sums[0]);
    } else {
        let j = k - 1;
        lemma_weighted(math, ideal, taps, window, sums, j);
        let f = plus_weighted(sums[j], window[taps.len() - 1 - j], taps[j]);
        assert(iq_evaluates(math, f, sums[j + 1]));
        lemma_iq_worth(math, ideal, f, sums[k]);
    }
}

/// The place of a remembered sample in the ring.
proof fn lemma_ring_place(pos: int, j: int, n: int)
    requires
        0 <= pos < n,
        0 <= j < n,
    ensures
        (pos + j) % n == if pos + j < n { pos + j } else { pos + j - n },
{
    if pos + j < n {
        vstd::arithmetic::div_mod::lemma_small_mod((pos + j) as nat, n as nat);
    } else {
        vstd::arithmetic::div_mod::lemma_small_mod((pos + j - n) as nat, n as nat);
        vstd::arithmetic::div_mod::lemma_mod_multiples_vanish(1, pos + j - n, n);
    }
}

/// What filtering does: each output is the sum of the samples so far, each weighted by the tap
/// of its age, the newest by the first. What stood before the stream is what the ring remembers,
/// or nothing where the ring has another size.
pub proof fn law_filtering<M: SampleMath>(
    math: &M,
    ideal: Ideal<M::Real, M::Iq>,
    taps: Seq<M::Real>,
    before: DelayLine<M::Iq>,
    after: DelayLine<M::Iq>,
    samples: Seq<M::Iq>,
    out: Seq<M::Iq>,
    i: int,
)
    requires
        is_ideal(math, ideal),
        before.wf(),
        filters_block(math, taps, before, after, samples, out),
        0 <= i < samples.len(),
    ensures
        out.len() == samples.len(),
        before.slots@.len() == taps.len() ==> (ideal.measure.re)(out[i]) == total(
            |k: int|
                (ideal.measure.re)(sample_before(before, samples, i, k)) * (ideal.measure.value)(
                    taps[k],
                ),
            taps.len(),
        ) && (ideal.measure.im)(out[i]) == total(
            |k: int|
                (ideal.measure.im)(sample_before(before, samples, i, k)) * (ideal.measure.value)(
                    taps[k],
                ),
            taps.len(),
        ),
        before.slots@.len() != taps.len() ==> (ideal.measure.re)(out[i]) == total(
            |k: int|
                if k <= i {
                    (ideal.measure.re)(samples[i - k]) * (ideal.measure.value)(taps[k])
                } else {
                    0real
                },
            taps.len(),
        ) && (ideal.measure.im)(out[i]) == total(
            |k: int|
                if k <= i {
                    (ideal.measure.im)(samples[i - k]) * (ideal.measure.value)(taps[k])
                } else {
                    0real
                },
            taps.len(),
        ),
{
    let (v, re, im) = (ideal.measure.value, ideal.measure.re, ideal.measure.im);
    let n = taps.len() as int;
    let history = choose|history: Seq<M::Iq>| #[trigger]
        filters_block_by(math, taps, before, after, samples, out, history);
    let window = (history + samples).subrange(i + 1, i + 1 + n);
    assert(weighs(math, taps, window, out[i]));
    let sums = choose|sums: Seq<M::Iq>| #[trigger]
        weighted_sums(math, taps, window, sums) && sums.last() == out[i];
    lemma_weighted(math, ideal, taps, window, sums, n);
    let f = |j: int| re(window[n - 1 - j]) * v(taps[j]);
    let g = |j: int| im(window[n - 1 - j]) * v(taps[j]);
    if before.slots@.len() == n {
        let f2 = |k: int| re(sample_before(before, samples, i, k)) * v(taps[k]);
        let g2 = |k: int| im(sample_before(before, samples, i, k)) * v(taps[k]);
        assert forall|k: int| 0 <= k < n implies #[trigger] f(k) == f2(k) && g(k) == g2(k) by {
            assert(window[n - 1 - k] == (history + samples)[i + n - k]);
            if k > i {
                let j = n + i - k;
                lemma_ring_place(before.pos as int, j, n);
                assert(history[j] == before.history()[j]);
            }
        }
        assert forall|k: int| 0 <= k < n implies #[trigger] g(k) == g2(k) by {
            assert(f(k) == f2(k));
        }
        lemma_same_total(f, f2, n as nat);
        lemma_same_total(g, g2, n as nat);
    } else {
        let f2 = |k: int|
            if k <= i {
                re(samples[i - k]) * v(taps[k])
            } else {
                0real
            };
        let g2 = |k: int|
            if k <= i {
                im(samples[i - k]) * v(taps[k])
            } else {
                0real
            };
        assert forall|k: int| 0 <= k < n implies #[trigger] f(k) == f2(k) && g(k) == g2(k) by {
            assert(window[n - 1 - k] == (history + samples)[i + n - k]);
            if k > i {
                let z = history[n + i - k];
                assert(iq_evaluates(math, iq_zero(), z));
                lemma_zero_sample(math, ideal, z);
                lemma_zero(re(z), v(taps[k]));
                lemma_zero(im(z), v(taps[k]));
            }
        }
        assert forall|k: int| 0 <= k < n implies #[trigger] g(k) == g2(k) by {
            assert(f(k) == f2(k));
        }
        lemma_same_total(f, f2, n as nat);
        lemma_same_total(g, g2, n as nat);
    }
}

/// The complex zero stands for 0.
proof fn lemma_zero_sample<M: SampleMath>(math: &M, ideal: Ideal<M::Real, M::Iq>, z: M::Iq)
    requires
        is_ideal(math, ideal),
        iq_evaluates(math, iq_zero(), z),
    ensures
        (ideal.measure.re)(z) == 0real,
        (ideal.measure.im)(z) == 0real,
{
    reveal_with_fuel(worth, 3);
    reveal_with_fuel(re_worth, 3);
    reveal_with_fuel(im_worth, 3);
    reveal_with_fuel(is_sound, 3);
    reveal_with_fuel(is_iq_sound, 3);
    lemma_iq_worth(math, ideal, iq_zero(), z);
}

/// What a filter remembers after a block: the newest of its samples, and of those before it as
/// many as there is room for. `age` counts back from the last sample.
pub proof fn law_filter_remembers<M: SampleMath>(
    math: &M,
    taps: Seq<M::Real>,
    before: DelayLine<M::Iq>,
    after: DelayLine<M::Iq>,
    samples: Seq<M::Iq>,
    out: Seq<M::Iq>,
    age: int,
)
    requires
        before.wf(),
        after.wf(),
        filters_block(math, taps, before, after, samples, out),
        0 <= age < taps.len(),
    ensures
        ({
            let n = taps.len() as int;
            let kept = after.slots@[(after.pos + n - 1 - age) % n];
            &&& after.slots@.len() == n
            &&& age < samples.len() ==> kept == samples[samples.len() - 1 - age]
            &&& age >= samples.len() && before.slots@.len() == n ==> kept == before.slots@[(
            before.pos + n - 1 - (age - samples.len())) % n]
            &&& age >= samples.len() && before.slots@.len() != n ==> iq_evaluates(
                math,
                iq_zero(),
                kept,
            )
        }),
{
    let n = taps.len() as int;
    let history = choose|history: Seq<M::Iq>| #[trigger]
        filters_block_by(math, taps, before, after, samples, out, history);
    let j = n - 1 - age;
    lemma_ring_place(after.pos as int, j, n);
    assert(after.history()[j] == (history + samples)[samples.len() + j]);
    if age >= samples.len() {
        let k = n - 1 - (age - samples.len());
        assert((history + samples)[samples.len() + j] == history[k]);
        if before.slots@.len() == n {
            lemma_ring_place(before.pos as int, k, n);
            assert(history[k] == before.history()[k]);
        }
    }
}

/// Thinning keeps the first sample and every `factor`th after it.
pub proof fn law_thinning<T>(samples: Seq<T>, factor: int, i: int)
    requires
        factor > 0,
        i >= 0,
    ensures
        i < thinned(samples, factor).len() <==> i * factor < samples.len(),
        i < thinned(samples, factor).len() ==> thinned(samples, factor)[i] == samples[i * factor],
{
    let total = samples.len() + factor - 1;
    let count = total / factor;
    lemma_fundamental_div_mod(total, factor);
    lemma_mod_bound(total, factor);
    lemma_mul_is_commutative(factor, count);
    vstd::arithmetic::div_mod::lemma_div_pos_is_pos(total, factor);
    if i < count {
        lemma_mul_inequality(i + 1, count, factor);
        lemma_mul_is_distributive_add_other_way(factor, i, 1);
    } else {
        lemma_mul_inequality(count, i, factor);
    }
}

/// What a partial sum stands for.
proof fn lemma_sum<M: SampleMath>(
    math: &M,
    ideal: Ideal<M::Real, M::Iq>,
    values: Seq<M::Real>,
    sums: Seq<M::Real>,
    k: int,
)
    requires
        is_ideal(math, ideal),
        sums_of(math, values, sums),
        0 <= k <= values.len(),
    ensures
        (ideal.measure.value)(sums[k]) == total(
            |j: int| (ideal.measure.value)(values[j]),
            k as nat,
        ),
    decreases k,
{
    if k > 0 {
        lemma_sum(math, ideal, values, sums, k - 1);
        assert(call_ensures(M::plus, (math, sums[k - 1], values[k - 1]), sums[k - 1 + 1]));
    }
}

/// Decimation takes the mean of each whole group of `factor` values.
pub proof fn law_decimation<M: SampleMath>(
    math: &M,
    ideal: Ideal<M::Real, M::Iq>,
    values: Seq<M::Real>,
    factor: int,
    out: Seq<M::Real>,
    c: int,
)
    requires
        is_ideal(math, ideal),
        0 < factor <= u64::MAX,
        averages(math, values, factor, out),
        0 <= c,
    ensures
        c < out.len() <==> c * factor + factor <= values.len(),
        c < out.len() ==> factor as real * (ideal.measure.value)(out[c]) == total(
            |k: int| (ideal.measure.value)(values[c * factor + k]),
            factor as nat,
        ),
{
    let v = ideal.measure.value;
    let count = out.len() as int;
    lemma_fundamental_div_mod(values.len() as int, factor);
    lemma_mod_bound(values.len() as int, factor);
    lemma_mul_is_commutative(factor, count);
    lemma_mul_is_distributive_add_other_way(factor, c, 1);
    lemma_mul_nonnegative(c, factor);
    if c < count {
        lemma_mul_inequality(c + 1, count, factor);
        let group = values.subrange(c * factor, c * factor + factor);
        assert(is_mean(math, values.subrange(c * factor, c * factor + factor), out[c]));
        let sums = choose|sums: Seq<M::Real>| #[trigger] is_mean_by(math, group, out[c], sums);
        lemma_sum(math, ideal, group, sums, factor);
        reveal_with_fuel(worth, 2);
        reveal_with_fuel(is_sound, 2);
        assert(group.len() as u64 as real == factor as real);
        lemma_worth(math, ideal, part(sums.last(), group.len()), out[c]);
        lemma_divide(v(sums.last()), factor as real);
        lemma_commute(v(out[c]), factor as real);
        let f = |j: int| v(group[j]);
        let g = |k: int| v(values[c * factor + k]);
        assert forall|k: int| 0 <= k < factor implies #[trigger] f(k) == g(k) by {
            assert(group[k] == values[c * factor + k]);
        }
        lemma_same_total(f, g, factor as nat);
    } else {
        lemma_mul_inequality(count, c, factor);
        lemma_mul_is_distributive_add_other_way(factor, count, 1);
        lemma_mul_inequality(count + 1, c + 1, factor);
    }
}

/// Tap `i` of `n` of the low-pass filter that is to be designed, before it is scaled: the
/// impulse response of an ideal one, which is symmetric about the middle, under a Blackman
/// window.
pub open spec fn lowpass_shape<R, C>(
    ideal: Ideal<R, C>,
    i: int,
    n: int,
    cutoff_hz: u32,
    rate: u32,
) -> real {
    let constant = ideal.measure.constant;
    let pi = constant(0x4049_0FDB);
    let f = cutoff_hz as real / rate as real;
    let x = i as real - (n - 1) as real / 2real;
    let response = if 2 * i == n - 1 {
        2real * f
    } else {
        (ideal.sine)(2real * pi * f * x) / (pi * x)
    };
    response * blackman_shape(ideal, i, n)
}

/// Point `i` of `n` of a Blackman window.
pub open spec fn blackman_shape<R, C>(ideal: Ideal<R, C>, i: int, n: int) -> real {
    let constant = ideal.measure.constant;
    let pi = constant(0x4049_0FDB);
    constant(0x3ED7_0A3D) - 1real / 2real * (ideal.cosine)(2real * pi * i as real / (n - 1) as real)
        + constant(0x3DA3_D70A) * (ideal.cosine)(4real * pi * i as real / (n - 1) as real)
}

/// What a point of a Blackman window is worth.
proof fn lemma_blackman<R, C>(ideal: Ideal<R, C>, i: int, n: int)
    requires
        reads_constants(ideal),
        0 <= i < n <= u64::MAX,
        n >= 2,
    ensures
        is_sound(ideal, blackman(i, n)),
        worth(ideal, blackman(i, n)) == blackman_shape(ideal, i, n),
{
    reveal_with_fuel(worth, 9);
    reveal_with_fuel(is_sound, 9);
    assert((i as u64) as real == i as real);
    assert(((n - 1) as u64) as real == (n - 1) as real);
}

/// What the response of an ideal low-pass filter is worth.
proof fn lemma_sinc<R, C>(
    ideal: Ideal<R, C>,
    i: int,
    n: int,
    cutoff_hz: u32,
    rate: u32,
    middle: bool,
)
    requires
        reads_constants(ideal),
        (ideal.measure.constant)(0x4049_0FDB) != 0real,
        0 <= i < n <= u64::MAX,
        n >= 2,
        rate > 0,
        middle == (2 * i == n - 1),
    ensures
        is_sound(ideal, sinc(i, n, cutoff_hz, rate, middle)),
        worth(ideal, sinc(i, n, cutoff_hz, rate, middle)) * blackman_shape(ideal, i, n)
            == lowpass_shape(ideal, i, n, cutoff_hz, rate),
{
    let x = i as real - (n - 1) as real / 2real;
    let pi = (ideal.measure.constant)(0x4049_0FDB);
    assert((i as u64) as real == i as real);
    assert(((n - 1) as u64) as real == (n - 1) as real);
    lemma_from_middle(ideal, i, n);
    reveal_with_fuel(worth, 9);
    reveal_with_fuel(is_sound, 9);
    if !middle {
        assert(x != 0real) by {
            assert((2 * i) as real != (n - 1) as real);
        }
        lemma_nonzero(pi, x);
    }
}

/// Where a tap stands from the middle.
proof fn lemma_from_middle<R, C>(ideal: Ideal<R, C>, i: int, n: int)
    requires
        reads_constants(ideal),
        0 <= i < n <= u64::MAX,
    ensures
        is_sound(ideal, from_middle(i, n)),
        worth(ideal, from_middle(i, n)) == i as real - (n - 1) as real / 2real,
{
    assert((i as u64) as real == i as real);
    assert(((n - 1) as u64) as real == (n - 1) as real);
    reveal_with_fuel(worth, 4);
    reveal_with_fuel(is_sound, 4);
}

/// What a tap stands for, before it is scaled.
proof fn lemma_tap<M: SampleMath>(
    math: &M,
    ideal: Ideal<M::Real, M::Iq>,
    i: int,
    n: int,
    cutoff_hz: u32,
    rate: u32,
    tap: M::Real,
)
    requires
        is_ideal(math, ideal),
        reads_constants(ideal),
        (ideal.measure.constant)(0x4049_0FDB) != 0real,
        0real < (ideal.measure.constant)(0x3586_37BD) < 1real / 2real,
        0 <= i < n <= u64::MAX,
        n >= 2,
        rate > 0,
        is_tap(math, i, n, cutoff_hz, rate, tap),
    ensures
        (ideal.measure.value)(tap) == lowpass_shape(ideal, i, n, cutoff_hz, rate),
{
    let middle = choose|middle: bool| #[trigger]
        is_tap_by(math, i, n, cutoff_hz, rate, tap, middle);
    let away = from_middle::<M::Real, M::Iq>(i, n).absolute();
    let tiny = Formula::<M::Real, M::Iq>::Single(0x3586_37BD);
    let (x, y) = choose|x: M::Real, y: M::Real| #[trigger]
        call_ensures(M::below, (math, x, y), middle) && evaluates(math, away, x) && evaluates(
            math,
            tiny,
            y,
        );
    lemma_from_middle(ideal, i, n);
    assert(is_sound(ideal, away));
    lemma_worth(math, ideal, away, x);
    assert(worth(ideal, away) == size(i as real - (n - 1) as real / 2real));
    assert((2 * i) as real == 2real * i as real);
    assert(middle == (2 * i == n - 1)) by {
        if 2 * i > n - 1 {
            assert((2 * i) as real >= (n - 1) as real + 1real);
        } else if 2 * i < n - 1 {
            assert((2 * i) as real + 1real <= (n - 1) as real);
        }
    }
    lemma_sinc(ideal, i, n, cutoff_hz, rate, middle);
    lemma_blackman(ideal, i, n);
    let f = sinc::<M::Real, M::Iq>(i, n, cutoff_hz, rate, middle).times(blackman(i, n));
    assert(is_sound(ideal, f));
    lemma_worth(math, ideal, f, tap);
}

/// The channel filter: its taps are in the proportions of `shape`, the response of an ideal
/// low-pass filter, symmetric about the middle, under a Blackman window; and they add up to 1.
pub proof fn law_lowpass<M: SampleMath>(
    math: &M,
    ideal: Ideal<M::Real, M::Iq>,
    cutoff_hz: u32,
    rate: u32,
    taps: Seq<M::Real>,
    shape: spec_fn(int) -> real,
    i: int,
)
    requires
        is_ideal(math, ideal),
        reads_constants(ideal),
        (ideal.measure.constant)(0x4049_0FDB) != 0real,
        0real < (ideal.measure.constant)(0x3586_37BD) < 1real / 2real,
        2 <= taps.len() <= u64::MAX,
        rate > 0,
        is_lowpass(math, cutoff_hz, rate, taps),
        shape == (|k: int|
                {
                    let constant = ideal.measure.constant;
                    let pi = constant(0x4049_0FDB);
                    let f = cutoff_hz as real / rate as real;
                    let last = (taps.len() - 1) as real;
                    let x = k as real - last / 2real;
                    let response = if 2 * k == taps.len() - 1 {
                        2real * f
                    } else {
                        (ideal.sine)(2real * pi * f * x) / (pi * x)
                    };
                    response * (constant(0x3ED7_0A3D) - 1real / 2real * (ideal.cosine)(
                        2real * pi * k as real / last,
                    ) + constant(0x3DA3_D70A) * (ideal.cosine)(4real * pi * k as real / last))
                }),
        total(shape, taps.len()) != 0real,
        0 <= i < taps.len(),
    ensures
        total(shape, taps.len()) * (ideal.measure.value)(taps[i]) == shape(i),
        total(|k: int| (ideal.measure.value)(taps[k]), taps.len()) == 1real,
{
    let v = ideal.measure.value;
    let n = taps.len() as int;
    let sum = total(shape, n as nat);
    let (raw, sums) = choose|raw: Seq<M::Real>, sums: Seq<M::Real>| #[trigger]
        lowpass_by(math, cutoff_hz, rate, taps, raw, sums);
    let f = |j: int| v(raw[j]);
    assert forall|k: int| 0 <= k < n implies #[trigger] f(k) == shape(k) by {
        assert(is_tap(math, k, n, cutoff_hz, rate, raw[k]));
        lemma_tap(math, ideal, k, n, cutoff_hz, rate, raw[k]);
        assert(shape(k) == lowpass_shape(ideal, k, n, cutoff_hz, rate));
    }
    lemma_sum(math, ideal, raw, sums, n);
    lemma_same_total(f, shape, n as nat);
    assert(v(sums.last()) == sum);
    let g = |k: int| v(taps[k]);
    assert forall|k: int| 0 <= k < n implies #[trigger] shape(k) == sum * g(k) by {
        assert(call_ensures(M::over, (math, raw[k], sums.last()), taps[k]));
        assert(f(k) == shape(k));
        lemma_divide(v(raw[k]), sum);
        lemma_commute(v(taps[k]), sum);
    }
    assert(shape(i) == sum * g(i));
    lemma_scaled_total(g, shape, sum, n as nat);
    lemma_quotient(sum, sum, total(g, n as nat));
    lemma_quotient(sum, sum, 1real);
    lemma_one(1real, sum);
    lemma_commute(1real, sum);
}

/// A filter whose taps add up to 1 passes a steady signal on as it is, once it remembers nothing
/// else.
pub proof fn law_steady_signal_passes<M: SampleMath>(
    math: &M,
    ideal: Ideal<M::Real, M::Iq>,
    taps: Seq<M::Real>,
    before: DelayLine<M::Iq>,
    after: DelayLine<M::Iq>,
    samples: Seq<M::Iq>,
    out: Seq<M::Iq>,
    re: real,
    im: real,
    i: int,
)
    requires
        is_ideal(math, ideal),
        before.wf(),
        total(|k: int| (ideal.measure.value)(taps[k]), taps.len()) == 1real,
        filters_block(math, taps, before, after, samples, out),
        forall|k: int|
            0 <= k < samples.len() ==> (ideal.measure.re)(#[trigger] samples[k]) == re && (
            ideal.measure.im)(samples[k]) == im,
        taps.len() - 1 <= i < samples.len(),
        i >= 0,
    ensures
        (ideal.measure.re)(out[i]) == re,
        (ideal.measure.im)(out[i]) == im,
{
    let m = ideal.measure;
    law_filtering(math, ideal, taps, before, after, samples, out, i);
    let n = taps.len();
    let g = |k: int| (m.value)(taps[k]);
    let f1 = |k: int| (m.re)(sample_before(before, samples, i, k)) * (m.value)(taps[k]);
    let g1 = |k: int| (m.im)(sample_before(before, samples, i, k)) * (m.value)(taps[k]);
    let f2 = |k: int|
        if k <= i {
            (m.re)(samples[i - k]) * (m.value)(taps[k])
        } else {
            0real
        };
    let g2 = |k: int|
        if k <= i {
            (m.im)(samples[i - k]) * (m.value)(taps[k])
        } else {
            0real
        };
    assert forall|k: int| 0 <= k < n implies #[trigger] f1(k) == re * g(k) by {
        assert((m.re)(samples[i - k]) == re);
    }
    assert forall|k: int| 0 <= k < n implies #[trigger] g1(k) == im * g(k) by {
        assert((m.re)(samples[i - k]) == re);
    }
    assert forall|k: int| 0 <= k < n implies #[trigger] f2(k) == re * g(k) by {
        assert((m.re)(samples[i - k]) == re);
    }
    assert forall|k: int| 0 <= k < n implies #[trigger] g2(k) == im * g(k) by {
        assert((m.re)(samples[i - k]) == re);
    }
    lemma_scaled_total(g, f1, re, n);
    lemma_scaled_total(g, g1, im, n);
    lemma_scaled_total(g, f2, re, n);
    lemma_scaled_total(g, g2, im, n);
    lemma_one(1real, re);
    lemma_commute(1real, re);
    lemma_one(1real, im);
    lemma_commute(1real, im);
}

/// The window of the spectrum: point `i` of `n` is (1 - cos(2 pi i / (n - 1))) / 2.
pub proof fn law_window<M: SampleMath>(
    math: &M,
    ideal: Ideal<M::Real, M::Iq>,
    window: Seq<M::Real>,
    i: int,
)
    requires
        is_ideal(math, ideal),
        reads_constants(ideal),
        is_window(math, window),
        2 <= window.len() <= u64::MAX,
        0 <= i < window.len(),
    ensures
        2real * (ideal.measure.value)(window[i]) == 1real - (ideal.cosine)(
            2real * (ideal.measure.constant)(0x4049_0FDB) * i as real / (window.len() - 1) as real,
        ),
{
    let n = window.len() as int;
    assert((i as u64) as real == i as real);
    assert(((n - 1) as u64) as real == (n - 1) as real);
    assert(evaluates(math, hann(i, window.len() as int), window[i]));
    reveal_with_fuel(worth, 8);
    reveal_with_fuel(is_sound, 8);
    lemma_worth(math, ideal, hann(i, n), window[i]);
}

} // verus!
