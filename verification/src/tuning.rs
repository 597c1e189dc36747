//! What the mixer does to a signal: laws of arithmetic that does not round.

use crate::filter::{
    blocker_offset, iq_sums, is_iq_mean, is_iq_mean_by, iq_part, iq_zero, mixes, mixes_channel,
    mixes_channel_by, mixes_one, mixes_through, next_phase, phase_increment, turned_sample, Mixer,
};
use crate::formula::{evaluates, Formula};
use crate::ideal::{
    adds_angles, im_worth, is_circular, is_ideal, is_iq_sound, is_sound, lemma_iq_worth,
    lemma_worth, re_worth, reads_constants, repeats, whole_turn, worth, Ideal,
};
use crate::math::SampleMath;
use crate::measure::{leaves_remainders, turned_by};
use crate::raw::raw_level;
use crate::reals::{
    lemma_associate, lemma_commute, lemma_distribute, lemma_divide, lemma_one, lemma_quotient,
    lemma_same_total, lemma_signs, lemma_total_of_equal, lemma_zero, total,
};
use vstd::arithmetic::div_mod::{lemma_fundamental_div_mod, lemma_mod_bound};
use vstd::arithmetic::mul::{
    lemma_mul_inequality, lemma_mul_is_commutative, lemma_mul_is_distributive_add_other_way,
    lemma_mul_nonnegative,
};
use vstd::prelude::*;

verus! {

/// The level that a raw byte stands for: the 256 values of a byte are spread evenly and
/// symmetrically about 0, a 32768th apart.
pub open spec fn byte_level(byte: u8) -> real {
    (2real * byte as real - 255real) / 65536real
}

/// The phase by which an oscillator that takes `offset` Hz to 0 advances per sample.
pub open spec fn step_to<R, C>(ideal: Ideal<R, C>, offset: real, rate: u32) -> real {
    -(whole_turn(ideal) * offset / rate as real)
}

/// The level of a raw byte is evenly spaced and symmetric.
pub proof fn law_byte_level<M: SampleMath>(
    math: &M,
    ideal: Ideal<M::Real, M::Iq>,
    byte: u8,
    r: M::Real,
)
    requires
        is_ideal(math, ideal),
        reads_constants(ideal),
        evaluates(math, raw_level(byte), r),
    ensures
        (ideal.measure.value)(r) == byte_level(byte),
        byte_level(byte) == -byte_level((255 - byte) as u8),
        byte < 255 ==> byte_level((byte + 1) as u8) - byte_level(byte) == 1real / 32768real,
{
    reveal_with_fuel(worth, 4);
    reveal_with_fuel(is_sound, 4);
    lemma_worth(math, ideal, raw_level(byte), r);
}

/// What the level of a raw byte is worth.
pub proof fn lemma_level_worth<R, C>(ideal: Ideal<R, C>, byte: u8)
    requires
        reads_constants(ideal),
    ensures
        is_sound(ideal, raw_level(byte)),
        worth(ideal, raw_level(byte)) == byte_level(byte),
{
    reveal_with_fuel(worth, 4);
    reveal_with_fuel(is_sound, 4);
}

/// The oscillator's increment.
proof fn lemma_increment<M: SampleMath>(
    math: &M,
    ideal: Ideal<M::Real, M::Iq>,
    offset: M::Real,
    rate: u32,
    increment: M::Real,
)
    requires
        is_ideal(math, ideal),
        reads_constants(ideal),
        rate > 0,
        evaluates(math, phase_increment(offset, rate), increment),
    ensures
        (ideal.measure.value)(increment) == step_to(ideal, (ideal.measure.value)(offset), rate),
{
    reveal_with_fuel(worth, 6);
    reveal_with_fuel(is_sound, 6);
    lemma_worth(math, ideal, phase_increment(offset, rate), increment);
    let pi = (ideal.measure.constant)(0x4049_0FDB);
    let f = (ideal.measure.value)(offset);
    let n = rate as real;
    let x = whole_turn(ideal) * f;
    assert((-2real * pi) * f == -x) by {
        lemma_signs(whole_turn(ideal), f);
        assert(-2real * pi == -whole_turn(ideal));
    }
    lemma_divide(x, n);
    lemma_signs(x / n, n);
    lemma_commute(-(x / n), n);
    lemma_quotient(-x, n, -(x / n));
}

/// The oscillator's phase after one more sample.
proof fn lemma_next_phase<M: SampleMath>(
    math: &M,
    ideal: Ideal<M::Real, M::Iq>,
    phase: M::Real,
    increment: M::Real,
    r: M::Real,
) -> (turns: int)
    requires
        is_ideal(math, ideal),
        reads_constants(ideal),
        whole_turn(ideal) > 0real,
        leaves_remainders(math, ideal.measure),
        evaluates(math, next_phase(phase, increment), r),
    ensures
        turned_by(
            (ideal.measure.value)(phase) + (ideal.measure.value)(increment),
            (ideal.measure.value)(r),
            whole_turn(ideal),
            turns,
        ),
        0real <= (ideal.measure.value)(r) < whole_turn(ideal),
{
    let m = ideal.measure;
    let sum = Formula::<M::Real, M::Iq>::Known(phase).plus(Formula::Known(increment));
    let turn = Formula::<M::Real, M::Iq>::Single(0x4000_0000).times(Formula::Single(0x4049_0FDB));
    let (x, y) = choose|x: M::Real, y: M::Real| #[trigger]
        call_ensures(M::remainder, (math, x, y), r) && evaluates(math, sum, x) && evaluates(
            math,
            turn,
            y,
        );
    reveal_with_fuel(worth, 3);
    reveal_with_fuel(is_sound, 3);
    lemma_worth(math, ideal, sum, x);
    lemma_worth(math, ideal, turn, y);
    choose|turns: int| #[trigger] turned_by((m.value)(x), (m.value)(r), (m.value)(y), turns)
}

/// The oscillator's phase after `n` samples.
proof fn lemma_phase<M: SampleMath>(
    math: &M,
    ideal: Ideal<M::Real, M::Iq>,
    buf: Seq<u8>,
    increment: M::Real,
    mixers: Seq<Mixer<M::Real>>,
    turned: Seq<M::Iq>,
    n: int,
) -> (turns: int)
    requires
        is_ideal(math, ideal),
        reads_constants(ideal),
        whole_turn(ideal) > 0real,
        leaves_remainders(math, ideal.measure),
        mixes(math, buf, increment, mixers, turned),
        0 <= n <= turned.len(),
    ensures
        turned_by(
            (ideal.measure.value)(mixers[0].phase) + n as real * (ideal.measure.value)(increment),
            (ideal.measure.value)(mixers[n].phase),
            whole_turn(ideal),
            turns,
        ),
        n > 0 ==> 0real <= (ideal.measure.value)(mixers[n].phase) < whole_turn(ideal),
    decreases n,
{
    let step = (ideal.measure.value)(increment);
    let turn = whole_turn(ideal);
    if n == 0 {
        lemma_zero(n as real, step);
        lemma_zero(0int as real, turn);
        0
    } else {
        let k = n - 1;
        let before = lemma_phase(math, ideal, buf, increment, mixers, turned, k);
        assert(mixes_one(
            math,
            mixers[k],
            buf[2 * k],
            buf[2 * k + 1],
            increment,
            mixers[k + 1],
            turned[k],
        ));
        let more = lemma_next_phase(math, ideal, mixers[k].phase, increment, mixers[n].phase);
        lemma_commute(n as real, step);
        lemma_commute(k as real, step);
        assert(n as real == k as real + 1real);
        lemma_distribute(step, k as real, 1real);
        lemma_commute(before as real, turn);
        lemma_commute(more as real, turn);
        lemma_commute((before + more) as real, turn);
        assert((before + more) as real == before as real + more as real);
        lemma_distribute(turn, before as real, more as real);
        before + more
    }
}

/// The oscillator turns back by the offset: after `n` samples, whatever the sign of the offset
/// and however many they are, its phase is less by the offset's turns in that time, but for
/// whole turns.
pub proof fn law_oscillator<M: SampleMath>(
    math: &M,
    ideal: Ideal<M::Real, M::Iq>,
    buf: Seq<u8>,
    offset: M::Real,
    rate: u32,
    factor: int,
    before: Mixer<M::Real>,
    after: Mixer<M::Real>,
    out: Seq<M::Iq>,
)
    requires
        is_ideal(math, ideal),
        is_circular(ideal),
        reads_constants(ideal),
        leaves_remainders(math, ideal.measure),
        rate > 0,
        factor > 0,
        mixes_channel(math, buf, offset, rate, factor, before, after, out),
    ensures
        exists|turns: int| #[trigger]
            turned_by(
                (ideal.measure.value)(before.phase) - (out.len() * factor) as real * (whole_turn(
                    ideal,
                ) * (ideal.measure.value)(offset) / rate as real),
                (ideal.measure.value)(after.phase),
                whole_turn(ideal),
                turns,
            ),
        out.len() == buf.len() as int / 2 / factor,
{
    let increment = choose|increment: M::Real| #[trigger]
        mixes_channel_by(math, buf, offset, rate, factor, before, after, out, increment);
    let (mixers, turned) = choose|mixers: Seq<Mixer<M::Real>>, turned: Seq<M::Iq>| #[trigger]
        mixes_through(math, buf, increment, factor, before, after, out, mixers, turned);
    let n = turned.len() as int;
    lemma_increment(math, ideal, offset, rate, increment);
    let turns = lemma_phase(math, ideal, buf, increment, mixers, turned, n);
    let x = whole_turn(ideal) * (ideal.measure.value)(offset) / rate as real;
    lemma_signs(n as real, x);
    assert(turned_by(
        (ideal.measure.value)(before.phase) - (out.len() * factor) as real * x,
        (ideal.measure.value)(after.phase),
        whole_turn(ideal),
        turns,
    ));
}

/// The offset that a DC blocker which stood at `start` has found after `n` samples, on the
/// channel of the bytes `channel`, `channel` + 2 .. of `buf`: each sample takes it a ten
/// thousandth of the way to the sample's level.
pub open spec fn found<R, C>(
    ideal: Ideal<R, C>,
    buf: Seq<u8>,
    channel: int,
    start: real,
    n: nat,
) -> real
    decreases n,
{
    if n == 0 {
        start
    } else {
        let before = found(ideal, buf, channel, start, (n - 1) as nat);
        let level = byte_level(buf[2 * (n - 1) + channel]);
        before + (1real - (ideal.measure.constant)(0x3F7F_F972)) * (level - before)
    }
}

/// Sample `n` of `buf` on one of its channels, without the offset found by then.
pub open spec fn centred<R, C>(
    ideal: Ideal<R, C>,
    buf: Seq<u8>,
    channel: int,
    start: real,
    n: int,
) -> real {
    byte_level(buf[2 * n + channel]) - found(ideal, buf, channel, start, (n + 1) as nat)
}

/// What a DC blocker has found on one channel after one more sample.
proof fn lemma_found_more<M: SampleMath>(
    math: &M,
    ideal: Ideal<M::Real, M::Iq>,
    dc: M::Real,
    byte: u8,
    r: M::Real,
)
    requires
        is_ideal(math, ideal),
        reads_constants(ideal),
        evaluates(math, blocker_offset(dc, byte), r),
    ensures
        ({
            let d = (ideal.measure.value)(dc);
            let alpha = (ideal.measure.constant)(0x3F7F_F972);
            (ideal.measure.value)(r) == d + (1real - alpha) * (byte_level(byte) - d)
        }),
{
    reveal_with_fuel(worth, 7);
    reveal_with_fuel(is_sound, 7);
    lemma_worth(math, ideal, blocker_offset(dc, byte), r);
    let d = (ideal.measure.value)(dc);
    let alpha = (ideal.measure.constant)(0x3F7F_F972);
    let level = byte_level(byte);
    assert((ideal.measure.value)(r) == alpha * d + (1real - alpha) * level);
    lemma_distribute(1real - alpha, level, d);
    lemma_commute(1real - alpha, d);
    lemma_distribute(d, 1real, alpha);
    lemma_commute(d, alpha);
}

/// What the DC blockers have found after `n` samples.
proof fn lemma_found<M: SampleMath>(
    math: &M,
    ideal: Ideal<M::Real, M::Iq>,
    buf: Seq<u8>,
    increment: M::Real,
    mixers: Seq<Mixer<M::Real>>,
    turned: Seq<M::Iq>,
    n: int,
)
    requires
        is_ideal(math, ideal),
        reads_constants(ideal),
        mixes(math, buf, increment, mixers, turned),
        0 <= n <= turned.len(),
    ensures
        (ideal.measure.value)(mixers[n].dc_i) == found(
            ideal,
            buf,
            0,
            (ideal.measure.value)(mixers[0].dc_i),
            n as nat,
        ),
        (ideal.measure.value)(mixers[n].dc_q) == found(
            ideal,
            buf,
            1,
            (ideal.measure.value)(mixers[0].dc_q),
            n as nat,
        ),
    decreases n,
{
    if n > 0 {
        let k = n - 1;
        lemma_found(math, ideal, buf, increment, mixers, turned, k);
        assert(mixes_one(
            math,
            mixers[k],
            buf[2 * k],
            buf[2 * k + 1],
            increment,
            mixers[k + 1],
            turned[k],
        ));
        lemma_found_more(math, ideal, mixers[k].dc_i, buf[2 * k], mixers[n].dc_i);
        lemma_found_more(math, ideal, mixers[k].dc_q, buf[2 * k + 1], mixers[n].dc_q);
    }
}

/// Sample `n` of `buf` in the real part, turned by the phase that the oscillator has reached.
pub open spec fn mixed_re<R, C>(
    ideal: Ideal<R, C>,
    buf: Seq<u8>,
    before: Mixer<R>,
    step: real,
    n: int,
) -> real {
    let v = ideal.measure.value;
    let phase = v(before.phase) + n as real * step;
    centred(ideal, buf, 0, v(before.dc_i), n) * (ideal.cosine)(phase) - centred(
        ideal,
        buf,
        1,
        v(before.dc_q),
        n,
    ) * (ideal.sine)(phase)
}

/// The same in the imaginary part.
pub open spec fn mixed_im<R, C>(
    ideal: Ideal<R, C>,
    buf: Seq<u8>,
    before: Mixer<R>,
    step: real,
    n: int,
) -> real {
    let v = ideal.measure.value;
    let phase = v(before.phase) + n as real * step;
    centred(ideal, buf, 0, v(before.dc_i), n) * (ideal.sine)(phase) + centred(
        ideal,
        buf,
        1,
        v(before.dc_q),
        n,
    ) * (ideal.cosine)(phase)
}

/// What a turned sample stands for.
proof fn lemma_turned<M: SampleMath>(
    math: &M,
    ideal: Ideal<M::Real, M::Iq>,
    buf: Seq<u8>,
    increment: M::Real,
    mixers: Seq<Mixer<M::Real>>,
    turned: Seq<M::Iq>,
    n: int,
)
    requires
        is_ideal(math, ideal),
        is_circular(ideal),
        reads_constants(ideal),
        leaves_remainders(math, ideal.measure),
        mixes(math, buf, increment, mixers, turned),
        0 <= n < turned.len(),
    ensures
        (ideal.measure.re)(turned[n]) == mixed_re(
            ideal,
            buf,
            mixers[0],
            (ideal.measure.value)(increment),
            n,
        ),
        (ideal.measure.im)(turned[n]) == mixed_im(
            ideal,
            buf,
            mixers[0],
            (ideal.measure.value)(increment),
            n,
        ),
{
    let v = ideal.measure.value;
    let a = mixers[n];
    let b = mixers[n + 1];
    assert(mixes_one(math, a, buf[2 * n], buf[2 * n + 1], increment, b, turned[n]));
    lemma_found(math, ideal, buf, increment, mixers, turned, n + 1);
    let turns = lemma_phase(math, ideal, buf, increment, mixers, turned, n);
    let phase = v(mixers[0].phase) + n as real * v(increment);
    assert(repeats(ideal, phase, turns));
    let f = turned_sample::<M::Real, M::Iq>(buf[2 * n], buf[2 * n + 1], b.dc_i, b.dc_q, a.phase);
    reveal_with_fuel(worth, 8);
    reveal_with_fuel(re_worth, 8);
    reveal_with_fuel(im_worth, 8);
    reveal_with_fuel(is_sound, 8);
    reveal_with_fuel(is_iq_sound, 8);
    lemma_iq_worth(math, ideal, f, turned[n]);
    let x = centred(ideal, buf, 0, v(mixers[0].dc_i), n);
    let y = centred(ideal, buf, 1, v(mixers[0].dc_q), n);
    lemma_level_worth(ideal, buf[2 * n]);
    lemma_level_worth(ideal, buf[2 * n + 1]);
    assert(worth(
        ideal,
        raw_level::<M::Real, M::Iq>(buf[2 * n]).minus(Formula::Known(b.dc_i)),
    ) == x);
    assert(worth(
        ideal,
        raw_level::<M::Real, M::Iq>(buf[2 * n + 1]).minus(Formula::Known(b.dc_q)),
    ) == y);
    assert(re_worth(ideal, f) == x * (ideal.cosine)(v(a.phase)) - y * (ideal.sine)(v(a.phase)));
    assert(im_worth(ideal, f) == x * (ideal.sine)(v(a.phase)) + y * (ideal.cosine)(v(a.phase)));
}

/// What a partial sum of samples stands for.
proof fn lemma_iq_total<M: SampleMath>(
    math: &M,
    ideal: Ideal<M::Real, M::Iq>,
    samples: Seq<M::Iq>,
    sums: Seq<M::Iq>,
    k: int,
)
    requires
        is_ideal(math, ideal),
        iq_sums(math, samples, sums),
        0 <= k <= samples.len(),
    ensures
        (ideal.measure.re)(sums[k]) == total(|j: int| (ideal.measure.re)(samples[j]), k as nat),
        (ideal.measure.im)(sums[k]) == total(|j: int| (ideal.measure.im)(samples[j]), k as nat),
    decreases k,
{
    if k == 0 {
        reveal_with_fuel(worth, 2);
        reveal_with_fuel(re_worth, 2);
        reveal_with_fuel(im_worth, 2);
        reveal_with_fuel(is_sound, 2);
        reveal_with_fuel(is_iq_sound, 2);
        lemma_iq_worth(math, ideal, iq_zero(), sums[0]);
    } else {
        lemma_iq_total(math, ideal, samples, sums, k - 1);
        assert(call_ensures(M::iq_plus, (math, sums[k - 1], samples[k - 1]), sums[k - 1 + 1]));
    }
}

/// What a mean of samples stands for.
pub proof fn lemma_iq_mean<M: SampleMath>(
    math: &M,
    ideal: Ideal<M::Real, M::Iq>,
    samples: Seq<M::Iq>,
    mean: M::Iq,
)
    requires
        is_ideal(math, ideal),
        is_iq_mean(math, samples, mean),
        0 < samples.len() <= u64::MAX,
    ensures
        samples.len() as real * (ideal.measure.re)(mean) == total(
            |j: int| (ideal.measure.re)(samples[j]),
            samples.len(),
        ),
        samples.len() as real * (ideal.measure.im)(mean) == total(
            |j: int| (ideal.measure.im)(samples[j]),
            samples.len(),
        ),
{
    let sums = choose|sums: Seq<M::Iq>| #[trigger] is_iq_mean_by(math, samples, mean, sums);
    let n = samples.len() as real;
    let sum = sums.last();
    lemma_iq_total(math, ideal, samples, sums, samples.len() as int);
    reveal_with_fuel(worth, 2);
    reveal_with_fuel(re_worth, 2);
    reveal_with_fuel(im_worth, 2);
    reveal_with_fuel(is_sound, 2);
    reveal_with_fuel(is_iq_sound, 2);
    assert(n == samples.len() as u64 as real);
    lemma_iq_worth(math, ideal, iq_part(sum, samples.len()), mean);
    lemma_divide((ideal.measure.re)(sum), n);
    lemma_divide((ideal.measure.im)(sum), n);
    lemma_commute((ideal.measure.re)(mean), n);
    lemma_commute((ideal.measure.im)(mean), n);
}

/// Group `c` of a mixed and decimated buffer, whose samples stand for `re` and `im`.
proof fn lemma_group<M: SampleMath>(
    math: &M,
    ideal: Ideal<M::Real, M::Iq>,
    buf: Seq<u8>,
    offset: M::Real,
    rate: u32,
    factor: int,
    before: Mixer<M::Real>,
    after: Mixer<M::Real>,
    out: Seq<M::Iq>,
    c: int,
    re: spec_fn(int) -> real,
    im: spec_fn(int) -> real,
)
    requires
        is_ideal(math, ideal),
        is_circular(ideal),
        reads_constants(ideal),
        leaves_remainders(math, ideal.measure),
        rate > 0,
        0 < factor <= u64::MAX,
        mixes_channel(math, buf, offset, rate, factor, before, after, out),
        0 <= c < out.len(),
        forall|k: int|
            #![trigger re(k)]
            #![trigger im(k)]
            0 <= k < factor ==> re(k) == mixed_re(
                ideal,
                buf,
                before,
                step_to(ideal, (ideal.measure.value)(offset), rate),
                c * factor + k,
            ) && im(k) == mixed_im(
                ideal,
                buf,
                before,
                step_to(ideal, (ideal.measure.value)(offset), rate),
                c * factor + k,
            ),
    ensures
        factor as real * (ideal.measure.re)(out[c]) == total(re, factor as nat),
        factor as real * (ideal.measure.im)(out[c]) == total(im, factor as nat),
{
    let increment = choose|increment: M::Real| #[trigger]
        mixes_channel_by(math, buf, offset, rate, factor, before, after, out, increment);
    let (mixers, turned) = choose|mixers: Seq<Mixer<M::Real>>, turned: Seq<M::Iq>| #[trigger]
        mixes_through(math, buf, increment, factor, before, after, out, mixers, turned);
    lemma_increment(math, ideal, offset, rate, increment);
    let first = c * factor;
    lemma_mul_is_distributive_add_other_way(factor, c, 1);
    lemma_mul_inequality(c + 1, out.len() as int, factor);
    lemma_mul_nonnegative(c, factor);
    let group = turned.subrange(first, first + factor);
    assert(is_iq_mean(math, turned.subrange(c * factor, c * factor + factor), out[c]));
    lemma_iq_mean(math, ideal, group, out[c]);
    let f = |j: int| (ideal.measure.re)(group[j]);
    let g = |j: int| (ideal.measure.im)(group[j]);
    assert forall|k: int| 0 <= k < factor implies #[trigger] f(k) == re(k) && g(k) == im(k) by {
        assert(group[k] == turned[first + k]);
        lemma_turned(math, ideal, buf, increment, mixers, turned, first + k);
    }
    assert forall|k: int| 0 <= k < factor implies #[trigger] g(k) == im(k) by {
        assert(f(k) == re(k));
    }
    lemma_same_total(f, re, factor as nat);
    lemma_same_total(g, im, factor as nat);
}

/// What the mixer makes of a buffer: sample `n` of it, without the offsets that the DC blockers
/// have found by then, is turned by the phase at the start less the turns of the offset in `n`
/// samples, and each output is the mean of a whole group of them.
pub proof fn law_mixing<M: SampleMath>(
    math: &M,
    ideal: Ideal<M::Real, M::Iq>,
    buf: Seq<u8>,
    offset: M::Real,
    rate: u32,
    factor: int,
    before: Mixer<M::Real>,
    after: Mixer<M::Real>,
    out: Seq<M::Iq>,
    c: int,
)
    requires
        is_ideal(math, ideal),
        is_circular(ideal),
        reads_constants(ideal),
        leaves_remainders(math, ideal.measure),
        rate > 0,
        0 < factor <= u64::MAX,
        mixes_channel(math, buf, offset, rate, factor, before, after, out),
        0 <= c < out.len(),
    ensures
        ({
            let step = -(whole_turn(ideal) * (ideal.measure.value)(offset) / rate as real);
            &&& factor as real * (ideal.measure.re)(out[c]) == total(
                |k: int| mixed_re(ideal, buf, before, step, c * factor + k),
                factor as nat,
            )
            &&& factor as real * (ideal.measure.im)(out[c]) == total(
                |k: int| mixed_im(ideal, buf, before, step, c * factor + k),
                factor as nat,
            )
        }),
{
    let step = step_to(ideal, (ideal.measure.value)(offset), rate);
    let re = |k: int| mixed_re(ideal, buf, before, step, c * factor + k);
    let im = |k: int| mixed_im(ideal, buf, before, step, c * factor + k);
    lemma_group(math, ideal, buf, offset, rate, factor, before, after, out, c, re, im);
}

/// The offsets that the DC blockers have found after a buffer: those at the start, taken with
/// each sample of the groups a ten thousandth of the way to the sample's level.
pub proof fn law_offsets_found<M: SampleMath>(
    math: &M,
    ideal: Ideal<M::Real, M::Iq>,
    buf: Seq<u8>,
    offset: M::Real,
    rate: u32,
    factor: int,
    before: Mixer<M::Real>,
    after: Mixer<M::Real>,
    out: Seq<M::Iq>,
)
    requires
        is_ideal(math, ideal),
        reads_constants(ideal),
        factor > 0,
        mixes_channel(math, buf, offset, rate, factor, before, after, out),
    ensures
        (ideal.measure.value)(after.dc_i) == found(
            ideal,
            buf,
            0,
            (ideal.measure.value)(before.dc_i),
            (out.len() * factor) as nat,
        ),
        (ideal.measure.value)(after.dc_q) == found(
            ideal,
            buf,
            1,
            (ideal.measure.value)(before.dc_q),
            (out.len() * factor) as nat,
        ),
{
    let increment = choose|increment: M::Real| #[trigger]
        mixes_channel_by(math, buf, offset, rate, factor, before, after, out, increment);
    let (mixers, turned) = choose|mixers: Seq<Mixer<M::Real>>, turned: Seq<M::Iq>| #[trigger]
        mixes_through(math, buf, increment, factor, before, after, out, mixers, turned);
    lemma_found(math, ideal, buf, increment, mixers, turned, turned.len() as int);
}

/// `z` is a tone of the given size that starts at the phase `start` and advances by `step` per
/// sample.
pub open spec fn is_tone<R, C>(
    ideal: Ideal<R, C>,
    z: Seq<C>,
    amplitude: real,
    start: real,
    step: real,
) -> bool {
    forall|n: int|
        0 <= n < z.len() ==> (ideal.measure.re)(#[trigger] z[n]) == amplitude * (ideal.cosine)(
            start + n as real * step,
        ) && (ideal.measure.im)(z[n]) == amplitude * (ideal.sine)(start + n as real * step)
}

/// A tone turned back by its own step.
proof fn lemma_turned_back<R, C>(
    ideal: Ideal<R, C>,
    x: real,
    y: real,
    amplitude: real,
    start: real,
    step: real,
    phase: real,
    n: int,
)
    requires
        is_circular(ideal),
        x == amplitude * (ideal.cosine)(start + n as real * step),
        y == amplitude * (ideal.sine)(start + n as real * step),
    ensures
        ({
            let back = phase + n as real * -step;
            &&& x * (ideal.cosine)(back) - y * (ideal.sine)(back) == amplitude * (ideal.cosine)(
                start + phase,
            )
            &&& x * (ideal.sine)(back) + y * (ideal.cosine)(back) == amplitude * (ideal.sine)(
                start + phase,
            )
        }),
{
    let at = start + n as real * step;
    let back = phase + n as real * -step;
    let (ca, sa) = ((ideal.cosine)(at), (ideal.sine)(at));
    let (cb, sb) = ((ideal.cosine)(back), (ideal.sine)(back));
    lemma_signs(n as real, step);
    assert(at + back == start + phase);
    assert(adds_angles(ideal, at, back));
    lemma_associate(amplitude, ca, cb);
    lemma_associate(amplitude, sa, sb);
    lemma_associate(amplitude, ca, sb);
    lemma_associate(amplitude, sa, cb);
    lemma_distribute(amplitude, ca * cb, sa * sb);
    lemma_distribute(amplitude, ca * sb, sa * cb);
}

/// A signal at the chosen offset comes to frequency 0: where the signal in a buffer, as a mixer
/// tuned to the centre passes it on, is a tone at `offset` Hz, above the centre or below it, it
/// is the same in every output of a mixer tuned to that offset, whatever its factor: the tone's
/// size, at the phase that the tone and the oscillator started from.
pub proof fn law_tone_comes_to_rest<M: SampleMath>(
    math: &M,
    ideal: Ideal<M::Real, M::Iq>,
    buf: Seq<u8>,
    rate: u32,
    amplitude: real,
    start: real,
    zero: M::Real,
    centre: Mixer<M::Real>,
    centre_after: Mixer<M::Real>,
    signal: Seq<M::Iq>,
    offset: M::Real,
    factor: int,
    before: Mixer<M::Real>,
    after: Mixer<M::Real>,
    out: Seq<M::Iq>,
    c: int,
)
    requires
        is_ideal(math, ideal),
        is_circular(ideal),
        reads_constants(ideal),
        leaves_remainders(math, ideal.measure),
        rate > 0,
        0 < factor <= u64::MAX,
        (ideal.measure.value)(zero) == 0real,
        (ideal.measure.value)(centre.phase) == 0real,
        (ideal.measure.value)(before.dc_i) == (ideal.measure.value)(centre.dc_i),
        (ideal.measure.value)(before.dc_q) == (ideal.measure.value)(centre.dc_q),
        mixes_channel(math, buf, zero, rate, 1, centre, centre_after, signal),
        is_tone(
            ideal,
            signal,
            amplitude,
            start,
            whole_turn(ideal) * (ideal.measure.value)(offset) / rate as real,
        ),
        mixes_channel(math, buf, offset, rate, factor, before, after, out),
        0 <= c < out.len(),
    ensures
        (ideal.measure.re)(out[c]) == amplitude * (ideal.cosine)(
            start + (ideal.measure.value)(before.phase),
        ),
        (ideal.measure.im)(out[c]) == amplitude * (ideal.sine)(
            start + (ideal.measure.value)(before.phase),
        ),
{
    let v = ideal.measure.value;
    let f = v(offset);
    let tone = whole_turn(ideal) * f / rate as real;
    let step = step_to(ideal, f, rate);
    let re = |k: int| mixed_re(ideal, buf, before, step, c * factor + k);
    let im = |k: int| mixed_im(ideal, buf, before, step, c * factor + k);
    let p = v(before.phase);
    let x = amplitude * (ideal.cosine)(start + p);
    let y = amplitude * (ideal.sine)(start + p);
    lemma_fundamental_div_mod(buf.len() as int / 2, factor);
    lemma_mul_is_commutative(factor, out.len() as int);
    lemma_mul_is_distributive_add_other_way(factor, c, 1);
    lemma_mul_inequality(c + 1, out.len() as int, factor);
    lemma_mul_nonnegative(c, factor);
    assert forall|k: int| 0 <= k < factor implies #[trigger] re(k) == x && im(k) == y by {
        let n = c * factor + k;
        lemma_centre(math, ideal, buf, rate, zero, centre, centre_after, signal, n);
        lemma_turned_back(
            ideal,
            (ideal.measure.re)(signal[n]),
            (ideal.measure.im)(signal[n]),
            amplitude,
            start,
            tone,
            p,
            n,
        );
    }
    assert forall|k: int| 0 <= k < factor implies #[trigger] im(k) == y by {
        assert(re(k) == x);
    }
    lemma_group(math, ideal, buf, offset, rate, factor, before, after, out, c, re, im);
    lemma_total_of_equal(re, x, factor as nat);
    lemma_total_of_equal(im, y, factor as nat);
    lemma_quotient(factor as real * x, factor as real, (ideal.measure.re)(out[c]));
    lemma_quotient(factor as real * x, factor as real, x);
    lemma_quotient(factor as real * y, factor as real, (ideal.measure.im)(out[c]));
    lemma_quotient(factor as real * y, factor as real, y);
}

/// A mixer tuned to the centre passes the samples on as the DC blockers leave them.
proof fn lemma_centre<M: SampleMath>(
    math: &M,
    ideal: Ideal<M::Real, M::Iq>,
    buf: Seq<u8>,
    rate: u32,
    zero: M::Real,
    centre: Mixer<M::Real>,
    after: Mixer<M::Real>,
    signal: Seq<M::Iq>,
    n: int,
)
    requires
        is_ideal(math, ideal),
        is_circular(ideal),
        reads_constants(ideal),
        leaves_remainders(math, ideal.measure),
        rate > 0,
        (ideal.measure.value)(zero) == 0real,
        (ideal.measure.value)(centre.phase) == 0real,
        mixes_channel(math, buf, zero, rate, 1, centre, after, signal),
        0 <= n < signal.len(),
    ensures
        (ideal.measure.re)(signal[n]) == centred(
            ideal,
            buf,
            0,
            (ideal.measure.value)(centre.dc_i),
            n,
        ),
        (ideal.measure.im)(signal[n]) == centred(
            ideal,
            buf,
            1,
            (ideal.measure.value)(centre.dc_q),
            n,
        ),
{
    let v = ideal.measure.value;
    let step = step_to(ideal, 0real, rate);
    let turn = whole_turn(ideal);
    assert(step == 0real) by {
        lemma_zero(0real, turn);
        lemma_commute(0real, turn);
        lemma_zero(0real, rate as real);
        lemma_commute(0real, rate as real);
        lemma_quotient(turn * 0real, rate as real, 0real);
    }
    lemma_zero(step, n as real);
    lemma_commute(step, n as real);
    let re = |k: int| mixed_re(ideal, buf, centre, step, n * 1 + k);
    let im = |k: int| mixed_im(ideal, buf, centre, step, n * 1 + k);
    lemma_group(math, ideal, buf, zero, rate, 1, centre, after, signal, n, re, im);
    reveal_with_fuel(total, 2);
    assert(total(re, 1) == re(0));
    assert(total(im, 1) == im(0));
    let x = centred(ideal, buf, 0, v(centre.dc_i), n);
    let y = centred(ideal, buf, 1, v(centre.dc_q), n);
    lemma_one(1real, x);
    lemma_commute(1real, x);
    lemma_one(1real, y);
    lemma_commute(1real, y);
    lemma_zero(0real, x);
    lemma_commute(0real, x);
    lemma_zero(0real, y);
    lemma_commute(0real, y);
    assert(v(centre.phase) + n as real * step == 0real);
    assert(re(0) == x && im(0) == y);
    lemma_one(1real, (ideal.measure.re)(signal[n]));
    lemma_one(1real, (ideal.measure.im)(signal[n]));
    assert(1int as real == 1real);
}

/// One sample, mixed: its level on each channel, the byte less 127.5 on a scale of 32768 to one,
/// takes the offset found there a ten thousandth of the way to itself; what is left of it is
/// turned by the oscillator's phase, which goes on by what takes `offset` Hz to 0.
pub proof fn law_one_sample<M: SampleMath>(
    math: &M,
    ideal: Ideal<M::Real, M::Iq>,
    i: u8,
    q: u8,
    offset: M::Real,
    rate: u32,
    before: Mixer<M::Real>,
    after: Mixer<M::Real>,
    out: Seq<M::Iq>,
)
    requires
        is_ideal(math, ideal),
        is_circular(ideal),
        reads_constants(ideal),
        leaves_remainders(math, ideal.measure),
        rate > 0,
        mixes_channel(math, seq![i, q], offset, rate, 1, before, after, out),
    ensures
        out.len() == 1,
        ({
            let v = ideal.measure.value;
            let rest = 1real - (ideal.measure.constant)(0x3F7F_F972);
            let x = (i as real - 255real / 2real) / 32768real;
            let y = (q as real - 255real / 2real) / 32768real;
            let dc_i = v(before.dc_i) + rest * (x - v(before.dc_i));
            let dc_q = v(before.dc_q) + rest * (y - v(before.dc_q));
            let c = (ideal.cosine)(v(before.phase));
            let s = (ideal.sine)(v(before.phase));
            &&& v(after.dc_i) == dc_i
            &&& v(after.dc_q) == dc_q
            &&& (ideal.measure.re)(out[0]) == (x - dc_i) * c - (y - dc_q) * s
            &&& (ideal.measure.im)(out[0]) == (x - dc_i) * s + (y - dc_q) * c
            &&& exists|turns: int| #[trigger]
                turned_by(
                    v(before.phase) - whole_turn(ideal) * v(offset) / rate as real,
                    v(after.phase),
                    whole_turn(ideal),
                    turns,
                )
        }),
{
    let v = ideal.measure.value;
    let buf = seq![i, q];
    law_oscillator(math, ideal, buf, offset, rate, 1, before, after, out);
    law_offsets_found(math, ideal, buf, offset, rate, 1, before, after, out);
    let step = -(whole_turn(ideal) * v(offset) / rate as real);
    let re = |k: int| mixed_re(ideal, buf, before, step, 0 * 1 + k);
    let im = |k: int| mixed_im(ideal, buf, before, step, 0 * 1 + k);
    lemma_group(math, ideal, buf, offset, rate, 1, before, after, out, 0, re, im);
    reveal_with_fuel(total, 2);
    reveal_with_fuel(found, 2);
    assert(total(re, 1) == re(0));
    assert(total(im, 1) == im(0));
    lemma_one(1real, (ideal.measure.re)(out[0]));
    lemma_one(1real, (ideal.measure.im)(out[0]));
    lemma_zero(0real, step);
    assert(0int as real * step == 0real);
    assert(1int as real == 1real);
    let x = whole_turn(ideal) * v(offset) / rate as real;
    lemma_one(1real, x);
    assert((out.len() * 1) as real * x == x);
}

/// Decimation takes the means of whole groups: what a mixer with the factor `factor` makes of a
/// buffer is the mean of as many outputs of one with the factor 1 that started alike, and it
/// leaves off where the last whole group ends.
pub proof fn law_groups<M: SampleMath>(
    math: &M,
    ideal: Ideal<M::Real, M::Iq>,
    buf: Seq<u8>,
    offset: M::Real,
    rate: u32,
    factor: int,
    before: Mixer<M::Real>,
    after: Mixer<M::Real>,
    out: Seq<M::Iq>,
    other: Mixer<M::Real>,
    each: Seq<M::Iq>,
    c: int,
)
    requires
        is_ideal(math, ideal),
        is_circular(ideal),
        reads_constants(ideal),
        leaves_remainders(math, ideal.measure),
        rate > 0,
        0 < factor <= u64::MAX,
        mixes_channel(math, buf, offset, rate, factor, before, after, out),
        mixes_channel(math, buf, offset, rate, 1, before, other, each),
        0 <= c,
    ensures
        each.len() == buf.len() as int / 2,
        c < out.len() <==> c * factor + factor <= each.len(),
        c < out.len() ==> factor as real * (ideal.measure.re)(out[c]) == total(
            |k: int| (ideal.measure.re)(each[c * factor + k]),
            factor as nat,
        ) && factor as real * (ideal.measure.im)(out[c]) == total(
            |k: int| (ideal.measure.im)(each[c * factor + k]),
            factor as nat,
        ),
{
    let samples = buf.len() as int / 2;
    let count = out.len() as int;
    lemma_fundamental_div_mod(samples, factor);
    lemma_mod_bound(samples, factor);
    lemma_mul_is_commutative(factor, count);
    lemma_mul_is_distributive_add_other_way(factor, c, 1);
    lemma_mul_nonnegative(c, factor);
    if c < count {
        lemma_mul_inequality(c + 1, count, factor);
        let step = step_to(ideal, (ideal.measure.value)(offset), rate);
        let re = |k: int| (ideal.measure.re)(each[c * factor + k]);
        let im = |k: int| (ideal.measure.im)(each[c * factor + k]);
        assert forall|k: int|
            #![trigger re(k)]
            #![trigger im(k)]
            0 <= k < factor implies re(k) == mixed_re(ideal, buf, before, step, c * factor + k)
            && im(k) == mixed_im(ideal, buf, before, step, c * factor + k) by {
            let n = c * factor + k;
            let r1 = |j: int| mixed_re(ideal, buf, before, step, n * 1 + j);
            let i1 = |j: int| mixed_im(ideal, buf, before, step, n * 1 + j);
            lemma_group(math, ideal, buf, offset, rate, 1, before, other, each, n, r1, i1);
            reveal_with_fuel(total, 2);
            assert(total(r1, 1) == r1(0));
            assert(total(i1, 1) == i1(0));
            lemma_one(1real, (ideal.measure.re)(each[n]));
            lemma_one(1real, (ideal.measure.im)(each[n]));
            assert(1int as real == 1real);
        }
        lemma_group(math, ideal, buf, offset, rate, factor, before, after, out, c, re, im);
    } else {
        lemma_mul_inequality(count, c, factor);
        lemma_mul_is_distributive_add_other_way(factor, count, 1);
        lemma_mul_inequality(count + 1, c + 1, factor);
    }
}

/// Opposite offsets turn opposite ways: from opposite phases, the oscillators of two mixers tuned
/// as far above the centre as below it come to opposite phases, but for whole turns.
pub proof fn law_opposite_offsets<M: SampleMath>(
    math: &M,
    ideal: Ideal<M::Real, M::Iq>,
    buf: Seq<u8>,
    rate: u32,
    factor: int,
    above: M::Real,
    before1: Mixer<M::Real>,
    after1: Mixer<M::Real>,
    out1: Seq<M::Iq>,
    below: M::Real,
    before2: Mixer<M::Real>,
    after2: Mixer<M::Real>,
    out2: Seq<M::Iq>,
)
    requires
        is_ideal(math, ideal),
        is_circular(ideal),
        reads_constants(ideal),
        leaves_remainders(math, ideal.measure),
        rate > 0,
        factor > 0,
        (ideal.measure.value)(below) == -(ideal.measure.value)(above),
        (ideal.measure.value)(before2.phase) == -(ideal.measure.value)(before1.phase),
        mixes_channel(math, buf, above, rate, factor, before1, after1, out1),
        mixes_channel(math, buf, below, rate, factor, before2, after2, out2),
    ensures
        exists|turns: int| #[trigger]
            turned_by(
                -(ideal.measure.value)(after1.phase),
                (ideal.measure.value)(after2.phase),
                whole_turn(ideal),
                turns,
            ),
{
    let v = ideal.measure.value;
    let turn = whole_turn(ideal);
    let n = (out1.len() * factor) as real;
    law_oscillator(math, ideal, buf, above, rate, factor, before1, after1, out1);
    law_oscillator(math, ideal, buf, below, rate, factor, before2, after2, out2);
    let x = turn * v(above) / rate as real;
    let y = turn * v(below) / rate as real;
    assert(y == -x) by {
        lemma_signs(turn, v(above));
        lemma_divide(turn * v(above), rate as real);
        lemma_signs(x, rate as real);
        lemma_commute(-x, rate as real);
        lemma_quotient(-(turn * v(above)), rate as real, -x);
    }
    lemma_signs(n, x);
    let t1 = choose|t: int| #[trigger]
        turned_by(
            v(before1.phase) - (out1.len() * factor) as real * x,
            v(after1.phase),
            turn,
            t,
        );
    let t2 = choose|t: int| #[trigger]
        turned_by(
            v(before2.phase) - (out2.len() * factor) as real * y,
            v(after2.phase),
            turn,
            t,
        );
    lemma_commute(t1 as real, turn);
    lemma_commute(t2 as real, turn);
    lemma_commute((t1 + t2) as real, turn);
    assert((t1 + t2) as real == t1 as real + t2 as real);
    lemma_distribute(turn, t1 as real, t2 as real);
    assert(turned_by(-v(after1.phase), v(after2.phase), turn, t1 + t2));
}

} // verus!
