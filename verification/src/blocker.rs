//! What the DC blocker does to a static offset: laws of arithmetic that does not round.

use crate::filter::{
    blocker_offset, iq_sums, is_iq_mean, is_iq_mean_by, mixes, mixes_channel, mixes_channel_by,
    mixes_one, mixes_through, turned_sample, Mixer, DC_ALPHA,
};
use crate::formula::{evaluates, iq_evaluates, Formula, IqFormula, ONE, ZERO};
use crate::math::SampleMath;
use crate::measure::{is_exact, is_iq_exact, power_of, Measure};
use crate::raw::{raw_level, MIDDLE, RAW_SCALE};
use crate::reals::{
    enough, law_powers_vanish, lemma_associate, lemma_commute, lemma_distribute, lemma_divide,
    lemma_multiplied, lemma_one, lemma_ordered, lemma_ordered_converse, lemma_powers_shrink,
    lemma_square, lemma_square_of_product, lemma_sum_power, lemma_zero, power, square,
};
use vstd::arithmetic::div_mod::lemma_fundamental_div_mod;
use vstd::arithmetic::mul::{
    lemma_mul_inequality, lemma_mul_is_commutative, lemma_mul_is_distributive_add_other_way,
    lemma_mul_nonnegative,
};
use vstd::prelude::*;

verus! {

/// The level that the raw byte `byte` stands for.
pub open spec fn exact_level<R, C>(m: Measure<R, C>, byte: u8) -> real {
    (byte as real - (m.constant)(MIDDLE)) / (m.constant)(RAW_SCALE)
}

/// How far the offset `dc` is from a static one that gives the raw byte `byte`.
pub open spec fn offset_left<R, C>(m: Measure<R, C>, byte: u8, dc: R) -> real {
    exact_level(m, byte) - (m.value)(dc)
}

/// The samples in `buf` all have the raw bytes `i` and `q`.
pub open spec fn is_static(buf: Seq<u8>, i: u8, q: u8) -> bool {
    forall|n: int|
        0 <= n < buf.len() ==> #[trigger] buf[n] == if n % 2 == 0 {
            i
        } else {
            q
        }
}

/// The level of a raw byte.
proof fn lemma_level<M: SampleMath>(math: &M, m: Measure<M::Real, M::Iq>, byte: u8, r: M::Real)
    requires
        is_exact(math, m),
        (m.constant)(RAW_SCALE) != 0real,
        evaluates(math, raw_level(byte), r),
    ensures
        (m.value)(r) == exact_level(m, byte),
{
    let middle = Formula::<M::Real, M::Iq>::Single(MIDDLE);
    let whole = Formula::<M::Real, M::Iq>::Whole(byte as u64);
    let (x, scale) = choose|x: M::Real, y: M::Real| #[trigger]
        call_ensures(M::over, (math, x, y), r) && evaluates(math, whole.minus(middle), x)
            && evaluates(math, Formula::Single(RAW_SCALE), y);
    let (b, c) = choose|a: M::Real, b: M::Real| #[trigger]
        call_ensures(M::minus, (math, a, b), x) && evaluates(math, whole, a) && evaluates(
            math,
            middle,
            b,
        );
    assert((m.value)(b) == byte as real);
}

/// The blocker's offset comes nearer to the level of the sample that it follows.
proof fn lemma_follows<M: SampleMath>(
    math: &M,
    m: Measure<M::Real, M::Iq>,
    dc: M::Real,
    byte: u8,
    r: M::Real,
)
    requires
        is_exact(math, m),
        (m.constant)(RAW_SCALE) != 0real,
        evaluates(math, blocker_offset(dc, byte), r),
    ensures
        offset_left(m, byte, r) == (m.constant)(DC_ALPHA) * offset_left(m, byte, dc),
{
    let alpha = (m.constant)(DC_ALPHA);
    let level = exact_level(m, byte);
    let rate = Formula::<M::Real, M::Iq>::Single(DC_ALPHA);
    let one = Formula::<M::Real, M::Iq>::Single(ONE);
    let kept = rate.times(Formula::Known(dc));
    let added = one.minus(rate).times(raw_level(byte));
    let (x, y) = choose|x: M::Real, y: M::Real| #[trigger]
        call_ensures(M::plus, (math, x, y), r) && evaluates(math, kept, x) && evaluates(
            math,
            added,
            y,
        );
    let (a, d) = choose|a: M::Real, b: M::Real| #[trigger]
        call_ensures(M::times, (math, a, b), x) && evaluates(math, rate, a) && evaluates(
            math,
            Formula::Known(dc),
            b,
        );
    let (w, l) = choose|a: M::Real, b: M::Real| #[trigger]
        call_ensures(M::times, (math, a, b), y) && evaluates(math, one.minus(rate), a)
            && evaluates(math, raw_level(byte), b);
    let (o, e) = choose|a: M::Real, b: M::Real| #[trigger]
        call_ensures(M::minus, (math, a, b), w) && evaluates(math, one, a) && evaluates(
            math,
            rate,
            b,
        );
    lemma_level(math, m, byte, l);
    assert((m.value)(w) == 1real - alpha);
    lemma_commute(1real - alpha, level);
    lemma_distribute(level, 1real, alpha);
    lemma_distribute(alpha, level, (m.value)(dc));
    lemma_commute(alpha, level);
}

/// Turning a sample leaves its power as it is.
proof fn lemma_turned_power<M: SampleMath>(
    math: &M,
    m: Measure<M::Real, M::Iq>,
    i: u8,
    q: u8,
    dc_i: M::Real,
    dc_q: M::Real,
    phase: M::Real,
    out: M::Iq,
)
    requires
        is_exact(math, m),
        is_iq_exact(math, m),
        (m.constant)(RAW_SCALE) != 0real,
        iq_evaluates(math, turned_sample(i, q, dc_i, dc_q, phase), out),
    ensures
        power_of(m, out) == square(offset_left(m, i, dc_i)) + square(offset_left(m, q, dc_q)),
{
    let re = raw_level::<M::Real, M::Iq>(i).minus(Formula::Known(dc_i));
    let im = raw_level::<M::Real, M::Iq>(q).minus(Formula::Known(dc_q));
    let cosine = Formula::<M::Real, M::Iq>::Known(phase).cosine();
    let sine = Formula::<M::Real, M::Iq>::Known(phase).sine();
    let (z, w) = choose|x: M::Iq, y: M::Iq| #[trigger]
        call_ensures(M::iq_times, (math, x, y), out) && iq_evaluates(
            math,
            re.with_imaginary(im),
            x,
        ) && iq_evaluates(math, cosine.with_imaginary(sine), y);
    let (a, b) = choose|x: M::Real, y: M::Real| #[trigger]
        call_ensures(M::iq, (math, x, y), z) && evaluates(math, re, x) && evaluates(math, im, y);
    let (c, s) = choose|x: M::Real, y: M::Real| #[trigger]
        call_ensures(M::iq, (math, x, y), w) && evaluates(math, cosine, x) && evaluates(
            math,
            sine,
            y,
        );
    let (l, d) = choose|x: M::Real, y: M::Real| #[trigger]
        call_ensures(M::minus, (math, x, y), a) && evaluates(math, raw_level(i), x) && evaluates(
            math,
            Formula::Known(dc_i),
            y,
        );
    let (k, e) = choose|x: M::Real, y: M::Real| #[trigger]
        call_ensures(M::minus, (math, x, y), b) && evaluates(math, raw_level(q), x) && evaluates(
            math,
            Formula::Known(dc_q),
            y,
        );
    let p = choose|x: M::Real| #[trigger]
        call_ensures(M::cosine, (math, x), c) && evaluates(math, Formula::Known(phase), x);
    let t = choose|x: M::Real| #[trigger]
        call_ensures(M::sine, (math, x), s) && evaluates(math, Formula::Known(phase), x);
    assert(p == phase && t == phase);
    lemma_level(math, m, i, l);
    lemma_level(math, m, q, k);
    let (re, im, c, s) = ((m.value)(a), (m.value)(b), (m.value)(c), (m.value)(s));
    assert(re == offset_left(m, i, dc_i) && im == offset_left(m, q, dc_q));
    lemma_multiplied(re, im, c, s, c, s);
}

/// What is left of a static offset after `k` samples.
proof fn lemma_left<M: SampleMath>(
    math: &M,
    m: Measure<M::Real, M::Iq>,
    buf: Seq<u8>,
    i: u8,
    q: u8,
    increment: M::Real,
    mixers: Seq<Mixer<M::Real>>,
    turned: Seq<M::Iq>,
    k: int,
)
    requires
        is_exact(math, m),
        (m.constant)(RAW_SCALE) != 0real,
        is_static(buf, i, q),
        turned.len() <= buf.len() as int / 2,
        mixes(math, buf, increment, mixers, turned),
        0 <= k <= turned.len(),
    ensures
        offset_left(m, i, mixers[k].dc_i) == power((m.constant)(DC_ALPHA), k as nat) * offset_left(
            m,
            i,
            mixers[0].dc_i,
        ),
        offset_left(m, q, mixers[k].dc_q) == power((m.constant)(DC_ALPHA), k as nat) * offset_left(
            m,
            q,
            mixers[0].dc_q,
        ),
    decreases k,
{
    let alpha = (m.constant)(DC_ALPHA);
    if k > 0 {
        let j = k - 1;
        lemma_left(math, m, buf, i, q, increment, mixers, turned, j);
        let a = mixers[j];
        let b = mixers[j + 1];
        assert(buf[2 * j] == i && buf[2 * j + 1] == q);
        assert(mixes_one(math, a, buf[2 * j], buf[2 * j + 1], increment, b, turned[j]));
        lemma_follows(math, m, a.dc_i, i, b.dc_i);
        lemma_follows(math, m, a.dc_q, q, b.dc_q);
        lemma_associate(alpha, power(alpha, j as nat), offset_left(m, i, mixers[0].dc_i));
        lemma_associate(alpha, power(alpha, j as nat), offset_left(m, q, mixers[0].dc_q));
    }
}

/// The power of a static offset that is left after `count` samples, where the blocker started
/// from the state `before`.
pub open spec fn power_left<R, C>(
    m: Measure<R, C>,
    before: Mixer<R>,
    i: u8,
    q: u8,
    count: nat,
) -> real {
    square(power((m.constant)(DC_ALPHA), count)) * (square(offset_left(m, i, before.dc_i)) + square(
        offset_left(m, q, before.dc_q),
    ))
}

/// The power of a turned sample.
proof fn lemma_power_left<M: SampleMath>(
    math: &M,
    m: Measure<M::Real, M::Iq>,
    buf: Seq<u8>,
    i: u8,
    q: u8,
    increment: M::Real,
    mixers: Seq<Mixer<M::Real>>,
    turned: Seq<M::Iq>,
    k: int,
)
    requires
        is_exact(math, m),
        is_iq_exact(math, m),
        (m.constant)(RAW_SCALE) != 0real,
        is_static(buf, i, q),
        turned.len() <= buf.len() as int / 2,
        mixes(math, buf, increment, mixers, turned),
        0 <= k < turned.len(),
    ensures
        power_of(m, turned[k]) == power_left(m, mixers[0], i, q, (k + 1) as nat),
{
    let p = power((m.constant)(DC_ALPHA), (k + 1) as nat);
    let left_i = offset_left(m, i, mixers[0].dc_i);
    let left_q = offset_left(m, q, mixers[0].dc_q);
    let a = mixers[k];
    let b = mixers[k + 1];
    assert(buf[2 * k] == i && buf[2 * k + 1] == q);
    assert(mixes_one(math, a, buf[2 * k], buf[2 * k + 1], increment, b, turned[k]));
    lemma_left(math, m, buf, i, q, increment, mixers, turned, k + 1);
    lemma_turned_power(math, m, i, q, b.dc_i, b.dc_q, a.phase, turned[k]);
    lemma_square_of_product(p, left_i);
    lemma_square_of_product(p, left_q);
    lemma_distribute(square(p), square(left_i), square(left_q));
}

/// The power of a sum of samples of a power of at most `p`.
proof fn lemma_sum_of_samples<M: SampleMath>(
    math: &M,
    m: Measure<M::Real, M::Iq>,
    samples: Seq<M::Iq>,
    sums: Seq<M::Iq>,
    p: real,
    k: int,
)
    requires
        is_exact(math, m),
        is_iq_exact(math, m),
        iq_sums(math, samples, sums),
        forall|j: int| 0 <= j < samples.len() ==> power_of(m, #[trigger] samples[j]) <= p,
        0 <= k <= samples.len(),
    ensures
        power_of(m, sums[k]) <= square(k as real) * p,
    decreases k,
{
    if k == 0 {
        let zero = Formula::<M::Real, M::Iq>::Single(ZERO);
        let (x, y) = choose|x: M::Real, y: M::Real| #[trigger]
            call_ensures(M::iq, (math, x, y), sums[0]) && evaluates(math, zero, x) && evaluates(
                math,
                zero,
                y,
            );
        lemma_zero((m.re)(sums[0]), (m.re)(sums[0]));
        lemma_zero((m.im)(sums[0]), (m.im)(sums[0]));
        lemma_zero(k as real, k as real);
        lemma_zero(square(k as real), p);
    } else {
        let s = sums[k - 1];
        let z = samples[k - 1];
        lemma_sum_of_samples(math, m, samples, sums, p, k - 1);
        assert(call_ensures(M::iq_plus, (math, sums[k - 1], samples[k - 1]), sums[k - 1 + 1]));
        assert(power_of(m, z) <= p);
        lemma_sum_power((k - 1) as real, p, (m.re)(s), (m.im)(s), (m.re)(z), (m.im)(z));
        assert((k - 1) as real + 1real == k as real);
    }
}

/// The power of a mean of samples of a power of at most `p`.
proof fn lemma_mean_power<M: SampleMath>(
    math: &M,
    m: Measure<M::Real, M::Iq>,
    samples: Seq<M::Iq>,
    mean: M::Iq,
    p: real,
)
    requires
        is_exact(math, m),
        is_iq_exact(math, m),
        is_iq_mean(math, samples, mean),
        forall|j: int| 0 <= j < samples.len() ==> power_of(m, #[trigger] samples[j]) <= p,
        0 < samples.len() <= u64::MAX,
    ensures
        power_of(m, mean) <= p,
{
    let sums = choose|sums: Seq<M::Iq>| #[trigger] is_iq_mean_by(math, samples, mean, sums);
    let n = samples.len() as real;
    let sum = sums.last();
    lemma_sum_of_samples(math, m, samples, sums, p, samples.len() as int);
    let count = Formula::<M::Real, M::Iq>::Whole(samples.len() as u64);
    let (z, x) = choose|z: M::Iq, x: M::Real| #[trigger]
        call_ensures(M::iq_over, (math, z, x), mean) && iq_evaluates(
            math,
            IqFormula::Known(sum),
            z,
        ) && evaluates(math, count, x);
    assert((m.value)(x) == n);
    lemma_divide((m.re)(sum), n);
    lemma_divide((m.im)(sum), n);
    lemma_square_of_product((m.re)(mean), n);
    lemma_square_of_product((m.im)(mean), n);
    lemma_commute(square((m.re)(mean)), square(n));
    lemma_commute(square((m.im)(mean)), square(n));
    lemma_distribute(square(n), square((m.re)(mean)), square((m.im)(mean)));
    lemma_square(n);
    lemma_ordered_converse(square(n), power_of(m, mean), p);
}

/// The mean of one sample has the power of that sample.
proof fn lemma_mean_of_one<M: SampleMath>(
    math: &M,
    m: Measure<M::Real, M::Iq>,
    samples: Seq<M::Iq>,
    mean: M::Iq,
)
    requires
        is_exact(math, m),
        is_iq_exact(math, m),
        is_iq_mean(math, samples, mean),
        samples.len() == 1,
    ensures
        power_of(m, mean) == power_of(m, samples[0]),
{
    let sums = choose|sums: Seq<M::Iq>| #[trigger] is_iq_mean_by(math, samples, mean, sums);
    let zero = Formula::<M::Real, M::Iq>::Single(ZERO);
    let (x, y) = choose|x: M::Real, y: M::Real| #[trigger]
        call_ensures(M::iq, (math, x, y), sums[0]) && evaluates(math, zero, x) && evaluates(
            math,
            zero,
            y,
        );
    assert(call_ensures(M::iq_plus, (math, sums[0], samples[0]), sums[1]));
    let count = Formula::<M::Real, M::Iq>::Whole(samples.len() as u64);
    let (z, n) = choose|z: M::Iq, n: M::Real| #[trigger]
        call_ensures(M::iq_over, (math, z, n), mean) && iq_evaluates(
            math,
            IqFormula::Known(sums.last()),
            z,
        ) && evaluates(math, count, n);
    assert((m.value)(n) == 1real);
    assert(z == sums[1]);
}

/// A static offset dies away: where arithmetic does not round, what the DC blocker has not yet
/// found of it falls by the blocker's rate with each sample, and the power of what is left of it
/// in a decimated sample is at most what was left of it at the first sample of the group. Where
/// each sample is a group of its own, it is just that.
pub proof fn law_static_offset_dies_away<M: SampleMath>(
    math: &M,
    m: Measure<M::Real, M::Iq>,
    buf: Seq<u8>,
    i: u8,
    q: u8,
    offset: M::Real,
    rate: u32,
    factor: int,
    before: Mixer<M::Real>,
    after: Mixer<M::Real>,
    out: Seq<M::Iq>,
)
    requires
        is_exact(math, m),
        is_iq_exact(math, m),
        (m.constant)(RAW_SCALE) != 0real,
        0real <= (m.constant)(DC_ALPHA) <= 1real,
        0 < factor <= u64::MAX,
        is_static(buf, i, q),
        mixes_channel(math, buf, offset, rate, factor, before, after, out),
    ensures
        offset_left(m, i, after.dc_i) == power(
            (m.constant)(DC_ALPHA),
            (out.len() * factor) as nat,
        ) * offset_left(m, i, before.dc_i),
        offset_left(m, q, after.dc_q) == power(
            (m.constant)(DC_ALPHA),
            (out.len() * factor) as nat,
        ) * offset_left(m, q, before.dc_q),
        forall|c: int|
            0 <= c < out.len() ==> power_of(m, #[trigger] out[c]) <= power_left(
                m,
                before,
                i,
                q,
                (c * factor + 1) as nat,
            ),
        factor == 1 ==> forall|c: int|
            0 <= c < out.len() ==> power_of(m, #[trigger] out[c]) == power_left(
                m,
                before,
                i,
                q,
                (c + 1) as nat,
            ),
{
    let increment = choose|increment: M::Real| #[trigger]
        mixes_channel_by(math, buf, offset, rate, factor, before, after, out, increment);
    let (mixers, turned) = choose|mixers: Seq<Mixer<M::Real>>, turned: Seq<M::Iq>| #[trigger]
        mixes_through(math, buf, increment, factor, before, after, out, mixers, turned);
    let samples = buf.len() as int / 2;
    lemma_fundamental_div_mod(samples, factor);
    lemma_mul_is_commutative(factor, samples / factor);
    lemma_left(math, m, buf, i, q, increment, mixers, turned, turned.len() as int);
    let alpha = (m.constant)(DC_ALPHA);
    assert forall|c: int| 0 <= c < out.len() implies power_of(m, #[trigger] out[c]) <= power_left(
        m,
        before,
        i,
        q,
        (c * factor + 1) as nat,
    ) by {
        let first = c * factor;
        lemma_mul_is_distributive_add_other_way(factor, c, 1);
        lemma_mul_inequality(c + 1, out.len() as int, factor);
        lemma_mul_nonnegative(c, factor);
        let group = turned.subrange(first, first + factor);
        let p = power_left(m, before, i, q, (first + 1) as nat);
        assert(is_iq_mean(math, turned.subrange(c * factor, c * factor + factor), out[c]));
        assert forall|j: int| 0 <= j < group.len() implies power_of(m, #[trigger] group[j])
            <= p by {
            let k = first + j;
            assert(group[j] == turned[k]);
            lemma_power_left(math, m, buf, i, q, increment, mixers, turned, k);
            lemma_power_shrinks(m, alpha, before, i, q, (first + 1) as nat, (k + 1) as nat);
        }
        lemma_mean_power(math, m, group, out[c], p);
    }
    if factor == 1 {
        assert forall|c: int| 0 <= c < out.len() implies power_of(m, #[trigger] out[c])
            == power_left(m, before, i, q, (c + 1) as nat) by {
            let group = turned.subrange(c, c + 1);
            assert(is_iq_mean(math, turned.subrange(c * factor, c * factor + factor), out[c]));
            assert(group[0] == turned[c]);
            lemma_mean_of_one(math, m, group, out[c]);
            lemma_power_left(math, m, buf, i, q, increment, mixers, turned, c);
        }
    }
}

/// Less and less power of a static offset is left.
proof fn lemma_power_shrinks<R, C>(
    m: Measure<R, C>,
    alpha: real,
    before: Mixer<R>,
    i: u8,
    q: u8,
    j: nat,
    k: nat,
)
    requires
        alpha == (m.constant)(DC_ALPHA),
        0real <= alpha <= 1real,
        j <= k,
    ensures
        power_left(m, before, i, q, k) <= power_left(m, before, i, q, j),
{
    let a = power(alpha, j);
    let b = power(alpha, k);
    let left = square(offset_left(m, i, before.dc_i)) + square(offset_left(m, q, before.dc_q));
    lemma_powers_shrink(alpha, j, k);
    lemma_ordered(b, b, a);
    lemma_ordered(a, b, a);
    lemma_commute(a, b);
    lemma_square(offset_left(m, i, before.dc_i));
    lemma_square(offset_left(m, q, before.dc_q));
    lemma_ordered(left, square(b), square(a));
    lemma_commute(left, square(b));
    lemma_commute(left, square(a));
}

/// The power of a static offset that is left falls below every bound.
pub proof fn law_power_left_vanishes<R, C>(
    m: Measure<R, C>,
    before: Mixer<R>,
    i: u8,
    q: u8,
    bound: real,
    count: nat,
)
    requires
        0real <= (m.constant)(DC_ALPHA) < 1real,
        bound > 0real,
        count >= enough(
            (m.constant)(DC_ALPHA),
            bound / (power_left(m, before, i, q, 0) + 1real),
        ),
    ensures
        power_left(m, before, i, q, count) < bound,
{
    let alpha = (m.constant)(DC_ALPHA);
    let p = power(alpha, count);
    let left = square(offset_left(m, i, before.dc_i)) + square(offset_left(m, q, before.dc_q));
    lemma_square(offset_left(m, i, before.dc_i));
    lemma_square(offset_left(m, q, before.dc_q));
    assert(power_left(m, before, i, q, 0) == left) by {
        lemma_one(square(power(alpha, 0)), left);
    }
    let part = bound / (left + 1real);
    lemma_divide(bound, left + 1real);
    if part <= 0real {
        lemma_ordered(left + 1real, part, 0real);
        lemma_commute(left + 1real, part);
    }
    law_powers_vanish(alpha, part, count);
    lemma_powers_shrink(alpha, 0, count);
    lemma_ordered(left + 1real, p, part);
    lemma_commute(left + 1real, part);
    lemma_commute(left + 1real, p);
    lemma_distribute(p, left, 1real);
    lemma_ordered(p, p, 1real);
    lemma_ordered(left, square(p), p);
    lemma_commute(left, square(p));
    lemma_commute(left, p);
    if p == 0real {
        lemma_zero(p, left);
    }
}

} // verus!
