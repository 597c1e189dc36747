//! Where every operation of the arithmetic gives one result, so does the signal path: from the
//! same samples and the same state come the same frames and the same next state.

use crate::audio::{
    am_by, channel_cutoff, demodulates, deviation_phase, fade_step, fronts, fronts_by, is_audio,
    is_audio_by, law_intermediate_rate, levels_and_fades, levels_and_fades_by, nbfm_by,
    wbfm_demodulates, wbfm_packs, wbfm_packs_by, AudioRates, DemodRun,
};
use crate::config::{DemodConfig, DemodMode};
use crate::demod::{
    am_demodulates, brought_to_level, deemphasis_alpha, deemphasizes, deemphasizes_at,
    deemphasizes_by, divides, fades, fades_by, fm_demodulates, heard_gains, is_faded, is_levelled,
    law_agc_blocks, law_fm_blocks, levels_out, mutes, newest, next_gain, next_peak, phase_step,
    previous, smoothed, unbiased, INAUDIBLE,
};
use crate::filter::{
    averages, blackman, blocker_offset, filters_block, filters_block_by, from_middle, iq_part,
    iq_sums, iq_zero, is_iq_mean, is_iq_mean_by, is_lowpass, is_mean, is_mean_by, is_tap,
    is_tap_by, law_filter_blocks, law_mix_blocks, lowpass_by, mixes, mixes_channel,
    mixes_channel_by, mixes_one, mixes_through, next_phase, part, phase_increment, plus_weighted,
    sinc, sums_of, thinned, turned_sample, weighs, weighted_sums, DelayLine, Mixer, TINY,
};
use crate::formula::{
    evaluates, iq_evaluates, is_below, is_determined, law_one_iq_result, law_one_result,
    lemma_one_i16,
    Formula, IqFormula, ONE, ZERO,
};
use crate::frame::{
    audio_frame, encodes_audio, encodes_spectrum, encodes_spectrum_by, in_pcm, in_tenths, pcm_of,
    tenths_of,
};
use crate::math::{SampleMath, FFT_AVERAGES, FFT_SIZE, OUTPUT_BINS};
use crate::receiver::{prepares, shows, shows_by, spectrum_due, turns, turns_by, Receiver, Tuning};
use crate::settings::Settings;
use crate::spectrum::{
    accumulates, adds_stretch, adds_stretch_by, is_downsampled, is_spectrum, is_spectrum_by,
    law_every_place_is_fed, mean_db, midpoint, plus_power, shifted, windowed,
};
use crate::squelch::{
    bin_position, channel_bins, channel_width, is_minus_100, maxima_of, opens, reaches_by,
    reaches_threshold, LOWEST,
};
use vstd::prelude::*;

verus! {

/// A comparison of two formulas has one result.
proof fn lemma_one_comparison<M: SampleMath>(
    math: &M,
    f: Formula<M::Real, M::Iq>,
    g: Formula<M::Real, M::Iq>,
    a: bool,
    b: bool,
)
    requires
        is_determined(math),
        is_below(math, f, g, a),
        is_below(math, f, g, b),
    ensures
        a == b,
{
    let (x1, y1) = choose|x: M::Real, y: M::Real| #[trigger]
        call_ensures(M::below, (math, x, y), a) && evaluates(math, f, x) && evaluates(math, g, y);
    let (x2, y2) = choose|x: M::Real, y: M::Real| #[trigger]
        call_ensures(M::below, (math, x, y), b) && evaluates(math, f, x) && evaluates(math, g, y);
    law_one_result(math, f, x1, x2);
    law_one_result(math, g, y1, y2);
}

/// After `k` samples two mixers that started alike are alike.
proof fn lemma_one_mixing<M: SampleMath>(
    math: &M,
    buf: Seq<u8>,
    increment: M::Real,
    m1: Seq<Mixer<M::Real>>,
    t1: Seq<M::Iq>,
    m2: Seq<Mixer<M::Real>>,
    t2: Seq<M::Iq>,
    k: int,
)
    requires
        is_determined(math),
        mixes(math, buf, increment, m1, t1),
        mixes(math, buf, increment, m2, t2),
        t1.len() == t2.len(),
        m1[0] == m2[0],
        0 <= k <= t1.len(),
    ensures
        m1[k] == m2[k],
        k > 0 ==> t1[k - 1] == t2[k - 1],
    decreases k,
{
    if k > 0 {
        let i = k - 1;
        lemma_one_mixing(math, buf, increment, m1, t1, m2, t2, i);
        let before = m1[i];
        let x = m1[i + 1];
        let y = m2[i + 1];
        assert(mixes_one(math, before, buf[2 * i], buf[2 * i + 1], increment, x, t1[i]));
        assert(mixes_one(math, before, buf[2 * i], buf[2 * i + 1], increment, y, t2[i]));
        law_one_result(math, blocker_offset(before.dc_i, buf[2 * i]), x.dc_i, y.dc_i);
        law_one_result(math, blocker_offset(before.dc_q, buf[2 * i + 1]), x.dc_q, y.dc_q);
        law_one_result(math, next_phase(before.phase, increment), x.phase, y.phase);
        law_one_iq_result(
            math,
            turned_sample(buf[2 * i], buf[2 * i + 1], x.dc_i, x.dc_q, before.phase),
            t1[i],
            t2[i],
        );
    }
}

proof fn lemma_one_iq_sum<M: SampleMath>(
    math: &M,
    samples: Seq<M::Iq>,
    s1: Seq<M::Iq>,
    s2: Seq<M::Iq>,
    k: int,
)
    requires
        is_determined(math),
        iq_sums(math, samples, s1),
        iq_sums(math, samples, s2),
        0 <= k <= samples.len(),
    ensures
        s1[k] == s2[k],
    decreases k,
{
    if k == 0 {
        law_one_iq_result(math, iq_zero(), s1[0], s2[0]);
    } else {
        lemma_one_iq_sum(math, samples, s1, s2, k - 1);
        let sample = samples[k - 1];
        assert(call_ensures(M::iq_plus, (math, s1[k - 1], sample), s1[k - 1 + 1]));
        assert(call_ensures(M::iq_plus, (math, s2[k - 1], sample), s2[k - 1 + 1]));
    }
}

proof fn lemma_one_iq_mean<M: SampleMath>(math: &M, samples: Seq<M::Iq>, a: M::Iq, b: M::Iq)
    requires
        is_determined(math),
        is_iq_mean(math, samples, a),
        is_iq_mean(math, samples, b),
    ensures
        a == b,
{
    let s1 = choose|sums: Seq<M::Iq>| #[trigger] is_iq_mean_by(math, samples, a, sums);
    let s2 = choose|sums: Seq<M::Iq>| #[trigger] is_iq_mean_by(math, samples, b, sums);
    lemma_one_iq_sum(math, samples, s1, s2, samples.len() as int);
    law_one_iq_result(math, iq_part(s1.last(), samples.len()), a, b);
}

/// Mixing a buffer down has one outcome.
pub proof fn law_one_mixing<M: SampleMath>(
    math: &M,
    buf: Seq<u8>,
    offset: M::Real,
    rate: u32,
    factor: int,
    before: Mixer<M::Real>,
    after1: Mixer<M::Real>,
    out1: Seq<M::Iq>,
    after2: Mixer<M::Real>,
    out2: Seq<M::Iq>,
)
    requires
        is_determined(math),
        factor > 0,
        mixes_channel(math, buf, offset, rate, factor, before, after1, out1),
        mixes_channel(math, buf, offset, rate, factor, before, after2, out2),
    ensures
        after1 == after2,
        out1 == out2,
{
    let x1 = choose|increment: M::Real| #[trigger]
        mixes_channel_by(math, buf, offset, rate, factor, before, after1, out1, increment);
    let x2 = choose|increment: M::Real| #[trigger]
        mixes_channel_by(math, buf, offset, rate, factor, before, after2, out2, increment);
    law_one_result(math, phase_increment(offset, rate), x1, x2);
    let (m1, t1) = choose|mixers: Seq<Mixer<M::Real>>, turned: Seq<M::Iq>| #[trigger]
        mixes_through(math, buf, x1, factor, before, after1, out1, mixers, turned);
    let (m2, t2) = choose|mixers: Seq<Mixer<M::Real>>, turned: Seq<M::Iq>| #[trigger]
        mixes_through(math, buf, x1, factor, before, after2, out2, mixers, turned);
    assert(t1.len() == t2.len());
    lemma_one_mixing(math, buf, x1, m1, t1, m2, t2, t1.len() as int);
    assert forall|i: int| 0 <= i < t1.len() implies t1[i] == t2[i] by {
        lemma_one_mixing(math, buf, x1, m1, t1, m2, t2, i + 1);
    }
    assert(t1 =~= t2);
    assert forall|c: int| 0 <= c < out1.len() implies out1[c] == out2[c] by {
        lemma_one_iq_mean(
            math,
            t1.subrange(c * factor, c * factor + factor),
            out1[c],
            out2[c],
        );
    }
    assert(out1 =~= out2);
}

proof fn lemma_one_weighted_sum<M: SampleMath>(
    math: &M,
    taps: Seq<M::Real>,
    window: Seq<M::Iq>,
    s1: Seq<M::Iq>,
    s2: Seq<M::Iq>,
    k: int,
)
    requires
        is_determined(math),
        weighted_sums(math, taps, window, s1),
        weighted_sums(math, taps, window, s2),
        0 <= k <= taps.len(),
    ensures
        s1[k] == s2[k],
    decreases k,
{
    if k == 0 {
        law_one_iq_result(math, iq_zero(), s1[0], s2[0]);
    } else {
        let j = k - 1;
        lemma_one_weighted_sum(math, taps, window, s1, s2, j);
        let f = plus_weighted(s1[j], window[taps.len() - 1 - j], taps[j]);
        assert(iq_evaluates(math, f, s1[j + 1]));
        assert(iq_evaluates(math, f, s2[j + 1]));
        law_one_iq_result(math, f, s1[k], s2[k]);
    }
}

/// The ring holds what its history tells, from its place on.
proof fn lemma_same_ring<T>(a: DelayLine<T>, b: DelayLine<T>)
    requires
        a.history() == b.history(),
        a.slots@.len() == b.slots@.len(),
        a.pos == b.pos,
        a.slots@.len() > 0 ==> a.pos < a.slots@.len(),
    ensures
        a.slots@ == b.slots@,
{
    let n = a.slots@.len() as int;
    assert forall|i: int| 0 <= i < n implies a.slots@[i] == b.slots@[i] by {
        let j = if i >= a.pos { i - a.pos } else { i - a.pos + n };
        assert(a.history()[j] == a.slots@[i]);
        assert(b.history()[j] == b.slots@[i]);
    }
    assert(a.slots@ =~= b.slots@);
}

/// Two lines with the same samples in the same places.
pub open spec fn same_line<T>(a: DelayLine<T>, b: DelayLine<T>) -> bool {
    a.slots@ == b.slots@ && a.pos == b.pos
}

/// Filtering a block has one outcome.
pub proof fn law_one_filtering<M: SampleMath>(
    math: &M,
    taps: Seq<M::Real>,
    before1: DelayLine<M::Iq>,
    after1: DelayLine<M::Iq>,
    before2: DelayLine<M::Iq>,
    after2: DelayLine<M::Iq>,
    samples: Seq<M::Iq>,
    out1: Seq<M::Iq>,
    out2: Seq<M::Iq>,
)
    requires
        is_determined(math),
        same_line(before1, before2),
        filters_block(math, taps, before1, after1, samples, out1),
        filters_block(math, taps, before2, after2, samples, out2),
    ensures
        same_line(after1, after2),
        out1 == out2,
{
    let n = taps.len() as int;
    let h1 = choose|history: Seq<M::Iq>| #[trigger]
        filters_block_by(math, taps, before1, after1, samples, out1, history);
    let h2 = choose|history: Seq<M::Iq>| #[trigger]
        filters_block_by(math, taps, before2, after2, samples, out2, history);
    if before1.slots@.len() == n {
        assert(before1.history() =~= before2.history());
    } else {
        assert forall|j: int| 0 <= j < n implies h1[j] == h2[j] by {
            law_one_iq_result(math, iq_zero(), h1[j], h2[j]);
        }
        assert(h1 =~= h2);
    }
    assert forall|i: int| 0 <= i < samples.len() implies out1[i] == out2[i] by {
        let window = (h1 + samples).subrange(i + 1, i + 1 + taps.len());
        assert(weighs(math, taps, window, out1[i]));
        assert(weighs(math, taps, window, out2[i]));
        let s1 = choose|sums: Seq<M::Iq>| #[trigger]
            weighted_sums(math, taps, window, sums) && sums.last() == out1[i];
        let s2 = choose|sums: Seq<M::Iq>| #[trigger]
            weighted_sums(math, taps, window, sums) && sums.last() == out2[i];
        lemma_one_weighted_sum(math, taps, window, s1, s2, n);
    }
    assert(out1 =~= out2);
    lemma_same_ring(after1, after2);
}

proof fn lemma_one_sum<M: SampleMath>(
    math: &M,
    values: Seq<M::Real>,
    s1: Seq<M::Real>,
    s2: Seq<M::Real>,
    k: int,
)
    requires
        is_determined(math),
        sums_of(math, values, s1),
        sums_of(math, values, s2),
        0 <= k <= values.len(),
    ensures
        s1[k] == s2[k],
    decreases k,
{
    if k == 0 {
        law_one_result(math, Formula::Single(ZERO), s1[0], s2[0]);
    } else {
        lemma_one_sum(math, values, s1, s2, k - 1);
        let value = values[k - 1];
        assert(call_ensures(M::plus, (math, s1[k - 1], value), s1[k - 1 + 1]));
        assert(call_ensures(M::plus, (math, s2[k - 1], value), s2[k - 1 + 1]));
    }
}

proof fn lemma_one_tap<M: SampleMath>(
    math: &M,
    i: int,
    n: int,
    cutoff_hz: u32,
    rate: u32,
    a: M::Real,
    b: M::Real,
)
    requires
        is_determined(math),
        is_tap(math, i, n, cutoff_hz, rate, a),
        is_tap(math, i, n, cutoff_hz, rate, b),
    ensures
        a == b,
{
    let x = from_middle(i, n).absolute();
    let m1 = choose|middle: bool| #[trigger]
        is_tap_by(math, i, n, cutoff_hz, rate, a, middle);
    let m2 = choose|middle: bool| #[trigger]
        is_tap_by(math, i, n, cutoff_hz, rate, b, middle);
    lemma_one_comparison(math, x, Formula::Single(TINY), m1, m2);
    law_one_result(math, sinc(i, n, cutoff_hz, rate, m1).times(blackman(i, n)), a, b);
}

/// A low-pass filter of a given size has one set of taps.
pub proof fn law_one_lowpass<M: SampleMath>(
    math: &M,
    cutoff_hz: u32,
    rate: u32,
    taps1: Seq<M::Real>,
    taps2: Seq<M::Real>,
)
    requires
        is_determined(math),
        taps1.len() == taps2.len(),
        is_lowpass(math, cutoff_hz, rate, taps1),
        is_lowpass(math, cutoff_hz, rate, taps2),
    ensures
        taps1 == taps2,
{
    let n = taps1.len() as int;
    let (r1, s1) = choose|raw: Seq<M::Real>, sums: Seq<M::Real>| #[trigger]
        lowpass_by(math, cutoff_hz, rate, taps1, raw, sums);
    let (r2, s2) = choose|raw: Seq<M::Real>, sums: Seq<M::Real>| #[trigger]
        lowpass_by(math, cutoff_hz, rate, taps2, raw, sums);
    assert forall|i: int| 0 <= i < n implies r1[i] == r2[i] by {
        lemma_one_tap(math, i, n, cutoff_hz, rate, r1[i], r2[i]);
    }
    assert(r1 =~= r2);
    lemma_one_sum(math, r1, s1, s2, n);
    assert forall|i: int| 0 <= i < n implies taps1[i] == taps2[i] by {
        assert(call_ensures(M::over, (math, r1[i], s1.last()), taps1[i]));
        assert(call_ensures(M::over, (math, r1[i], s1.last()), taps2[i]));
    }
    assert(taps1 =~= taps2);
}

proof fn lemma_one_average<M: SampleMath>(
    math: &M,
    values: Seq<M::Real>,
    factor: int,
    out1: Seq<M::Real>,
    out2: Seq<M::Real>,
)
    requires
        is_determined(math),
        averages(math, values, factor, out1),
        averages(math, values, factor, out2),
    ensures
        out1 == out2,
{
    assert forall|c: int| 0 <= c < out1.len() implies out1[c] == out2[c] by {
        let group = values.subrange(c * factor, c * factor + factor);
        assert(is_mean(math, group, out1[c]));
        assert(is_mean(math, group, out2[c]));
        let s1 = choose|sums: Seq<M::Real>| #[trigger] is_mean_by(math, group, out1[c], sums);
        let s2 = choose|sums: Seq<M::Real>| #[trigger] is_mean_by(math, group, out2[c], sums);
        lemma_one_sum(math, group, s1, s2, group.len() as int);
        law_one_result(math, part(s1.last(), group.len()), out1[c], out2[c]);
    }
    assert(out1 =~= out2);
}

/// FM demodulation has one outcome.
pub proof fn law_one_fm<M: SampleMath>(
    math: &M,
    before: M::Iq,
    samples: Seq<M::Iq>,
    out1: Seq<M::Real>,
    out2: Seq<M::Real>,
)
    requires
        is_determined(math),
        fm_demodulates(math, before, samples, out1),
        fm_demodulates(math, before, samples, out2),
    ensures
        out1 == out2,
{
    assert forall|i: int| 0 <= i < out1.len() implies out1[i] == out2[i] by {
        law_one_result(
            math,
            phase_step(previous(before, samples, i), samples[i]),
            out1[i],
            out2[i],
        );
    }
    assert(out1 =~= out2);
}

proof fn lemma_one_quotient<M: SampleMath>(
    math: &M,
    values: Seq<M::Real>,
    divisor: M::Real,
    out1: Seq<M::Real>,
    out2: Seq<M::Real>,
)
    requires
        is_determined(math),
        divides(math, values, divisor, out1),
        divides(math, values, divisor, out2),
    ensures
        out1 == out2,
{
    assert forall|i: int| 0 <= i < out1.len() implies out1[i] == out2[i] by {
        assert(call_ensures(M::over, (math, values[i], divisor), out1[i]));
        assert(call_ensures(M::over, (math, values[i], divisor), out2[i]));
    }
    assert(out1 =~= out2);
}

proof fn lemma_one_smoothing<M: SampleMath>(
    math: &M,
    alpha: M::Real,
    before: M::Real,
    values: Seq<M::Real>,
    out1: Seq<M::Real>,
    out2: Seq<M::Real>,
    i: int,
)
    requires
        is_determined(math),
        deemphasizes(math, alpha, before, values, out1),
        deemphasizes(math, alpha, before, values, out2),
        0 <= i < values.len(),
    ensures
        out1[i] == out2[i],
    decreases i,
{
    if i > 0 {
        lemma_one_smoothing(math, alpha, before, values, out1, out2, i - 1);
    }
    law_one_result(
        math,
        smoothed(previous(before, out1, i), values[i], alpha),
        out1[i],
        out2[i],
    );
}

/// De-emphasis has one outcome.
pub proof fn law_one_deemphasis<M: SampleMath>(
    math: &M,
    rate: u32,
    before: M::Real,
    values: Seq<M::Real>,
    out1: Seq<M::Real>,
    out2: Seq<M::Real>,
)
    requires
        is_determined(math),
        deemphasizes_at(math, rate, before, values, out1),
        deemphasizes_at(math, rate, before, values, out2),
    ensures
        out1 == out2,
{
    let x = choose|alpha: M::Real| #[trigger]
        deemphasizes_by(math, rate, before, values, out1, alpha);
    let y = choose|alpha: M::Real| #[trigger]
        deemphasizes_by(math, rate, before, values, out2, alpha);
    law_one_result(math, deemphasis_alpha(rate), x, y);
    assert forall|i: int| 0 <= i < out1.len() implies out1[i] == out2[i] by {
        lemma_one_smoothing(math, x, before, values, out1, out2, i);
    }
    assert(out1 =~= out2);
}

proof fn lemma_one_detection<M: SampleMath>(
    math: &M,
    last_in: M::Real,
    last_out: M::Real,
    samples: Seq<M::Iq>,
    e1: Seq<M::Real>,
    out1: Seq<M::Real>,
    e2: Seq<M::Real>,
    out2: Seq<M::Real>,
    i: int,
)
    requires
        is_determined(math),
        am_demodulates(math, last_in, last_out, samples, e1, out1),
        am_demodulates(math, last_in, last_out, samples, e2, out2),
        0 <= i < samples.len(),
    ensures
        e1[i] == e2[i],
        out1[i] == out2[i],
    decreases i,
{
    if i > 0 {
        lemma_one_detection(math, last_in, last_out, samples, e1, out1, e2, out2, i - 1);
    }
    let x = out1[i];
    let y = out2[i];
    law_one_result(math, IqFormula::Known(samples[i]).norm(), e1[i], e2[i]);
    law_one_result(
        math,
        unbiased(e1[i], previous(last_in, e1, i), previous(last_out, out1, i)),
        x,
        y,
    );
}

/// AM demodulation has one outcome.
pub proof fn law_one_am<M: SampleMath>(
    math: &M,
    last_in: M::Real,
    last_out: M::Real,
    samples: Seq<M::Iq>,
    e1: Seq<M::Real>,
    out1: Seq<M::Real>,
    e2: Seq<M::Real>,
    out2: Seq<M::Real>,
)
    requires
        is_determined(math),
        am_demodulates(math, last_in, last_out, samples, e1, out1),
        am_demodulates(math, last_in, last_out, samples, e2, out2),
    ensures
        e1 == e2,
        out1 == out2,
{
    assert forall|i: int| 0 <= i < out1.len() implies e1[i] == e2[i] && out1[i] == out2[i] by {
        lemma_one_detection(math, last_in, last_out, samples, e1, out1, e2, out2, i);
    }
    assert(e1 =~= e2);
    assert(out1 =~= out2);
}

proof fn lemma_one_peak<M: SampleMath>(
    math: &M,
    values: Seq<M::Real>,
    p1: Seq<M::Real>,
    out1: Seq<M::Real>,
    p2: Seq<M::Real>,
    out2: Seq<M::Real>,
    k: int,
)
    requires
        is_determined(math),
        levels_out(math, p1, values, out1),
        levels_out(math, p2, values, out2),
        p1[0] == p2[0],
        0 <= k <= values.len(),
    ensures
        p1[k] == p2[k],
        k > 0 ==> out1[k - 1] == out2[k - 1],
    decreases k,
{
    if k > 0 {
        let i = k - 1;
        lemma_one_peak(math, values, p1, out1, p2, out2, i);
        let value = values[i];
        let x = out1[i];
        let y = out2[i];
        let size = Formula::Known(value).absolute();
        let l1 = choose|louder: bool| #[trigger]
            is_below(math, Formula::Known(p1[i]), Formula::Known(value).absolute(), louder)
                && evaluates(math, next_peak(p1[i], value, louder), p1[i + 1]);
        let l2 = choose|louder: bool| #[trigger]
            is_below(math, Formula::Known(p2[i]), Formula::Known(value).absolute(), louder)
                && evaluates(math, next_peak(p2[i], value, louder), p2[i + 1]);
        lemma_one_comparison(math, Formula::Known(p1[i]), size, l1, l2);
        law_one_result(math, next_peak(p1[i], value, l1), p1[i + 1], p2[i + 1]);
        law_one_result(math, brought_to_level(value, p1[i + 1]), x, y);
    }
}

/// The gain control has one outcome.
pub proof fn law_one_levelling<M: SampleMath>(
    math: &M,
    before: M::Real,
    values: Seq<M::Real>,
    after1: M::Real,
    out1: Seq<M::Real>,
    after2: M::Real,
    out2: Seq<M::Real>,
)
    requires
        is_determined(math),
        is_levelled(math, before, after1, values, out1),
        is_levelled(math, before, after2, values, out2),
    ensures
        after1 == after2,
        out1 == out2,
{
    let p1 = choose|peaks: Seq<M::Real>| #[trigger]
        levels_out(math, peaks, values, out1) && peaks[0] == before && peaks.last() == after1;
    let p2 = choose|peaks: Seq<M::Real>| #[trigger]
        levels_out(math, peaks, values, out2) && peaks[0] == before && peaks.last() == after2;
    lemma_one_peak(math, values, p1, out1, p2, out2, values.len() as int);
    assert forall|i: int| 0 <= i < out1.len() implies out1[i] == out2[i] by {
        lemma_one_peak(math, values, p1, out1, p2, out2, i + 1);
    }
    assert(out1 =~= out2);
}

proof fn lemma_one_gain<M: SampleMath>(
    math: &M,
    open: bool,
    step: M::Real,
    values: Seq<M::Real>,
    g1: Seq<M::Real>,
    out1: Seq<M::Real>,
    g2: Seq<M::Real>,
    out2: Seq<M::Real>,
    k: int,
)
    requires
        is_determined(math),
        fades(math, g1, open, step, values, out1),
        fades(math, g2, open, step, values, out2),
        g1[0] == g2[0],
        0 <= k <= values.len(),
    ensures
        g1[k] == g2[k],
        k > 0 ==> out1[k - 1] == out2[k - 1],
    decreases k,
{
    if k > 0 {
        let i = k - 1;
        lemma_one_gain(math, open, step, values, g1, out1, g2, out2, i);
        let x = out1[i];
        let y = out2[i];
        law_one_result(math, next_gain(g1[i], open, step), g1[i + 1], g2[i + 1]);
        assert(call_ensures(M::times, (math, values[i], g1[i + 1]), x));
        assert(call_ensures(M::times, (math, values[i], g1[i + 1]), y));
    }
}

/// The fade has one outcome.
pub proof fn law_one_fade<M: SampleMath>(
    math: &M,
    before: M::Real,
    open: bool,
    step: M::Real,
    values: Seq<M::Real>,
    after1: M::Real,
    r1: Option<Seq<M::Real>>,
    after2: M::Real,
    r2: Option<Seq<M::Real>>,
)
    requires
        is_determined(math),
        is_faded(math, before, after1, open, step, values, r1),
        is_faded(math, before, after2, open, step, values, r2),
    ensures
        after1 == after2,
        r1 == r2,
{
    let (g1, o1) = choose|gains: Seq<M::Real>, out: Seq<M::Real>| #[trigger]
        fades_by(math, before, after1, open, step, values, r1, gains, out);
    let (g2, o2) = choose|gains: Seq<M::Real>, out: Seq<M::Real>| #[trigger]
        fades_by(math, before, after2, open, step, values, r2, gains, out);
    let n = values.len() as int;
    assert forall|i: int| 0 <= i <= n implies g1[i] == g2[i] by {
        lemma_one_gain(math, open, step, values, g1, o1, g2, o2, i);
    }
    assert forall|i: int| 0 <= i < n implies o1[i] == o2[i] by {
        lemma_one_gain(math, open, step, values, g1, o1, g2, o2, i + 1);
    }
    assert(g1 =~= g2);
    assert(o1 =~= o2);
    if !open {
        let heard = heard_gains(g1);
        let f1 = choose|flags: Seq<bool>| #[trigger] mutes(math, g1, o1, r1, flags);
        let f2 = choose|flags: Seq<bool>| #[trigger] mutes(math, g1, o1, r2, flags);
        assert forall|i: int| 0 <= i < heard.len() implies f1[i] == f2[i] by {
            lemma_one_comparison(
                math,
                Formula::Known(heard[i]),
                Formula::Single(INAUDIBLE),
                f1[i],
                f2[i],
            );
        }
        assert(f1 =~= f2);
    }
}

proof fn lemma_one_audio_frame<M: SampleMath>(
    math: &M,
    samples: Seq<M::Real>,
    rate: u32,
    frame1: Seq<u8>,
    frame2: Seq<u8>,
)
    requires
        is_determined(math),
        encodes_audio(math, samples, rate, frame1),
        encodes_audio(math, samples, rate, frame2),
    ensures
        frame1 == frame2,
{
    let v1 = choose|values: Seq<i16>| #[trigger]
        in_pcm(math, samples, values) && frame1 == audio_frame(rate, values);
    let v2 = choose|values: Seq<i16>| #[trigger]
        in_pcm(math, samples, values) && frame2 == audio_frame(rate, values);
    assert forall|i: int| 0 <= i < samples.len() implies v1[i] == v2[i] by {
        lemma_one_i16(math, pcm_of(samples[i]), v1[i], v2[i]);
    }
    assert(v1 =~= v2);
}

/// Two states of the demodulator with the same contents but, maybe, for the fade's gain.
pub open spec fn alike_but_fade<R, C>(x: DemodRun<R, C>, y: DemodRun<R, C>) -> bool {
    &&& x.mixer == y.mixer
    &&& x.prev_iq == y.prev_iq
    &&& x.agc_peak == y.agc_peak
    &&& x.deemph == y.deemph
    &&& x.am_prev_x == y.am_prev_x
    &&& x.am_prev_y == y.am_prev_y
    &&& x.prev_mode == y.prev_mode
    &&& x.prev_sr == y.prev_sr
    &&& x.fir_taps@ == y.fir_taps@
    &&& same_line(x.fir, y.fir)
}

/// Two states of the demodulator with the same contents.
pub open spec fn alike<R, C>(x: DemodRun<R, C>, y: DemodRun<R, C>) -> bool {
    alike_but_fade(x, y) && x.fade_gain == y.fade_gain
}

/// The front end has one outcome.
proof fn lemma_one_front<M: SampleMath>(
    math: &M,
    buf: Seq<u8>,
    cfg: DemodConfig,
    mode: DemodMode,
    input_sr: u32,
    rates: AudioRates,
    b1: DemodRun<M::Real, M::Iq>,
    a1: DemodRun<M::Real, M::Iq>,
    out1: Seq<M::Iq>,
    b2: DemodRun<M::Real, M::Iq>,
    a2: DemodRun<M::Real, M::Iq>,
    out2: Seq<M::Iq>,
)
    requires
        is_determined(math),
        rates.factor1 > 0,
        alike_but_fade(b1, b2),
        fronts(math, buf, cfg, mode, input_sr, rates, b1, a1, out1),
        fronts(math, buf, cfg, mode, input_sr, rates, b2, a2, out2),
    ensures
        a1.mixer == a2.mixer,
        a1.fir_taps@ == a2.fir_taps@,
        same_line(a1.fir, a2.fir),
        out1 == out2,
{
    let (o1, m1) = choose|offset: M::Real, mid: Seq<M::Iq>| #[trigger]
        fronts_by(math, buf, cfg, input_sr, rates, b1, a1, out1, offset, mid);
    let (o2, m2) = choose|offset: M::Real, mid: Seq<M::Iq>| #[trigger]
        fronts_by(math, buf, cfg, input_sr, rates, b2, a2, out2, offset, mid);
    assert(o1 == o2);
    law_one_mixing(
        math,
        buf,
        o1,
        input_sr,
        rates.factor1 as int,
        b1.mixer,
        a1.mixer,
        m1,
        a2.mixer,
        m2,
    );
    if b1.fir_taps@.len() == 0 {
        law_one_lowpass(math, channel_cutoff(mode), rates.sr_mid, a1.fir_taps@, a2.fir_taps@);
    }
    law_one_filtering(math, a1.fir_taps@, b1.fir, a1.fir, b2.fir, a2.fir, m1, out1, out2);
}

/// The last two stages have one outcome, and the peak does not depend on the squelch.
proof fn lemma_one_ending<M: SampleMath>(
    math: &M,
    signal: Seq<M::Real>,
    rate: u32,
    open1: bool,
    b1: DemodRun<M::Real, M::Iq>,
    a1: DemodRun<M::Real, M::Iq>,
    r1: Option<Seq<u8>>,
    open2: bool,
    b2: DemodRun<M::Real, M::Iq>,
    a2: DemodRun<M::Real, M::Iq>,
    r2: Option<Seq<u8>>,
)
    requires
        is_determined(math),
        b1.agc_peak == b2.agc_peak,
        levels_and_fades(math, signal, rate, open1, b1, a1, r1),
        levels_and_fades(math, signal, rate, open2, b2, a2, r2),
    ensures
        a1.agc_peak == a2.agc_peak,
        open1 == open2 && b1.fade_gain == b2.fade_gain ==> a1.fade_gain == a2.fade_gain && r1 == r2,
{
    let (x1, s1, f1) = choose|
        audio: Seq<M::Real>,
        step: M::Real,
        faded: Option<Seq<M::Real>>,
    | #[trigger]
        levels_and_fades_by(math, signal, rate, open1, b1, a1, r1, audio, step, faded);
    let (x2, s2, f2) = choose|
        audio: Seq<M::Real>,
        step: M::Real,
        faded: Option<Seq<M::Real>>,
    | #[trigger]
        levels_and_fades_by(math, signal, rate, open2, b2, a2, r2, audio, step, faded);
    law_one_levelling(math, b1.agc_peak, signal, a1.agc_peak, x1, a2.agc_peak, x2);
    law_one_result(math, fade_step(rate), s1, s2);
    if open1 == open2 && b1.fade_gain == b2.fade_gain {
        law_one_fade(math, b1.fade_gain, open1, s1, x1, a1.fade_gain, f1, a2.fade_gain, f2);
        if f1 is Some {
            lemma_one_audio_frame(math, f1->0, rate, r1->0, r2->0);
        }
    }
}

/// Demodulation has one outcome but for the squelch.
proof fn lemma_one_demodulation<M: SampleMath>(
    math: &M,
    mode: DemodMode,
    filtered: Seq<M::Iq>,
    rates: AudioRates,
    open1: bool,
    b1: DemodRun<M::Real, M::Iq>,
    a1: DemodRun<M::Real, M::Iq>,
    r1: Option<Seq<u8>>,
    open2: bool,
    b2: DemodRun<M::Real, M::Iq>,
    a2: DemodRun<M::Real, M::Iq>,
    r2: Option<Seq<u8>>,
)
    requires
        is_determined(math),
        alike_but_fade(b1, b2),
        demodulates(math, mode, filtered, rates, open1, b1, a1, r1),
        demodulates(math, mode, filtered, rates, open2, b2, a2, r2),
    ensures
        a1.prev_iq == a2.prev_iq,
        a1.agc_peak == a2.agc_peak,
        a1.deemph == a2.deemph,
        a1.am_prev_x == a2.am_prev_x,
        a1.am_prev_y == a2.am_prev_y,
        open1 == open2 && b1.fade_gain == b2.fade_gain ==> a1.fade_gain == a2.fade_gain && r1 == r2,
        mode == DemodMode::WBFM ==> r1 is Some && r1 == r2 && a1.fade_gain == b1.fade_gain
            && a2.fade_gain == b2.fade_gain,
{
    match mode {
        DemodMode::NBFM => {
            let (p1, c1, s1) = choose|
                phases: Seq<M::Real>,
                scale: M::Real,
                signal: Seq<M::Real>,
            | #[trigger]
                nbfm_by(math, filtered, rates, open1, b1, a1, r1, phases, scale, signal);
            let (p2, c2, s2) = choose|
                phases: Seq<M::Real>,
                scale: M::Real,
                signal: Seq<M::Real>,
            | #[trigger]
                nbfm_by(math, filtered, rates, open2, b2, a2, r2, phases, scale, signal);
            law_one_fm(math, b1.prev_iq, thinned(filtered, rates.factor2 as int), p1, p2);
            law_one_result(math, deviation_phase(2_500, rates.out_sr), c1, c2);
            lemma_one_quotient(math, p1, c1, s1, s2);
            lemma_one_ending(math, s1, rates.out_sr, open1, b1, a1, r1, open2, b2, a2, r2);
        },
        DemodMode::WBFM => {
            let (p1, c1, q1, s1) = choose|
                phases: Seq<M::Real>,
                scale: M::Real,
                scaled: Seq<M::Real>,
                signal: Seq<M::Real>,
            | #[trigger]
                wbfm_demodulates(math, filtered, rates, b1, a1, phases, scale, scaled, signal)
                    && wbfm_packs(math, signal, rates, b1, a1, r1->0);
            let (p2, c2, q2, s2) = choose|
                phases: Seq<M::Real>,
                scale: M::Real,
                scaled: Seq<M::Real>,
                signal: Seq<M::Real>,
            | #[trigger]
                wbfm_demodulates(math, filtered, rates, b2, a2, phases, scale, scaled, signal)
                    && wbfm_packs(math, signal, rates, b2, a2, r2->0);
            law_one_fm(math, b1.prev_iq, filtered, p1, p2);
            law_one_result(math, deviation_phase(75_000, rates.sr_mid), c1, c2);
            lemma_one_quotient(math, p1, c1, q1, q2);
            law_one_deemphasis(math, rates.sr_mid, b1.deemph, q1, s1, s2);
            let (d1, x1) = choose|decimated: Seq<M::Real>, audio: Seq<M::Real>| #[trigger]
                wbfm_packs_by(math, s1, rates, b1, a1, r1->0, decimated, audio);
            let (d2, x2) = choose|decimated: Seq<M::Real>, audio: Seq<M::Real>| #[trigger]
                wbfm_packs_by(math, s1, rates, b2, a2, r2->0, decimated, audio);
            lemma_one_average(math, s1, rates.factor2 as int, d1, d2);
            law_one_levelling(math, b1.agc_peak, d1, a1.agc_peak, x1, a2.agc_peak, x2);
            lemma_one_audio_frame(math, x1, rates.out_sr, r1->0, r2->0);
        },
        DemodMode::AM => {
            let (e1, s1) = choose|envelope: Seq<M::Real>, signal: Seq<M::Real>| #[trigger]
                am_by(math, filtered, rates, open1, b1, a1, r1, envelope, signal);
            let (e2, s2) = choose|envelope: Seq<M::Real>, signal: Seq<M::Real>| #[trigger]
                am_by(math, filtered, rates, open2, b2, a2, r2, envelope, signal);
            law_one_am(
                math,
                b1.am_prev_x,
                b1.am_prev_y,
                thinned(filtered, rates.factor2 as int),
                e1,
                s1,
                e2,
                s2,
            );
            lemma_one_ending(math, s1, rates.out_sr, open1, b1, a1, r1, open2, b2, a2, r2);
        },
    }
}

/// The audio path has one outcome but for the squelch.
proof fn lemma_one_path<M: SampleMath>(
    math: &M,
    buf: Seq<u8>,
    cfg: DemodConfig,
    input_sr: u32,
    open1: bool,
    b1: DemodRun<M::Real, M::Iq>,
    a1: DemodRun<M::Real, M::Iq>,
    r1: Option<Seq<u8>>,
    open2: bool,
    b2: DemodRun<M::Real, M::Iq>,
    a2: DemodRun<M::Real, M::Iq>,
    r2: Option<Seq<u8>>,
)
    requires
        is_determined(math),
        alike_but_fade(b1, b2),
        is_audio(math, buf, cfg, input_sr, open1, b1, a1, r1),
        is_audio(math, buf, cfg, input_sr, open2, b2, a2, r2),
    ensures
        alike_but_fade(a1, a2),
        open1 == open2 && b1.fade_gain == b2.fade_gain ==> a1.fade_gain == a2.fade_gain && r1 == r2,
        cfg.mode == Some(DemodMode::WBFM) ==> r1 is Some && r1 == r2 && a1.fade_gain == b1.fade_gain
            && a2.fade_gain == b2.fade_gain,
{
    if let Some(mode) = cfg.mode {
        let (rates, f1) = choose|rates: AudioRates, filtered: Seq<M::Iq>| #[trigger]
            is_audio_by(math, buf, cfg, mode, input_sr, open1, b1, a1, r1, rates, filtered);
        let (other, f2) = choose|rates: AudioRates, filtered: Seq<M::Iq>| #[trigger]
            is_audio_by(math, buf, cfg, mode, input_sr, open2, b2, a2, r2, rates, filtered);
        assert(rates == other);
        law_intermediate_rate(mode, input_sr, rates);
        lemma_one_front(math, buf, cfg, mode, input_sr, rates, b1, a1, f1, b2, a2, f2);
        lemma_one_demodulation(math, mode, f1, rates, open1, b1, a1, r1, open2, b2, a2, r2);
    }
}

/// Where every operation gives one result, the audio path does: from the same buffer and the
/// same state come the same frame, or none, and the same next state.
pub proof fn law_one_audio<M: SampleMath>(
    math: &M,
    buf: Seq<u8>,
    cfg: DemodConfig,
    input_sr: u32,
    open: bool,
    b1: DemodRun<M::Real, M::Iq>,
    a1: DemodRun<M::Real, M::Iq>,
    r1: Option<Seq<u8>>,
    b2: DemodRun<M::Real, M::Iq>,
    a2: DemodRun<M::Real, M::Iq>,
    r2: Option<Seq<u8>>,
)
    requires
        is_determined(math),
        alike(b1, b2),
        is_audio(math, buf, cfg, input_sr, open, b1, a1, r1),
        is_audio(math, buf, cfg, input_sr, open, b2, a2, r2),
    ensures
        r1 == r2,
        alike(a1, a2),
{
    lemma_one_path(math, buf, cfg, input_sr, open, b1, a1, r1, open, b2, a2, r2);
}

/// WBFM gives the same frame and the same next state with an open squelch and with a closed
/// one, and leaves the fade's gain as it is.
pub proof fn law_wbfm_ignores_squelch<M: SampleMath>(
    math: &M,
    buf: Seq<u8>,
    cfg: DemodConfig,
    input_sr: u32,
    b: DemodRun<M::Real, M::Iq>,
    a_open: DemodRun<M::Real, M::Iq>,
    r_open: Option<Seq<u8>>,
    a_closed: DemodRun<M::Real, M::Iq>,
    r_closed: Option<Seq<u8>>,
)
    requires
        is_determined(math),
        cfg.mode == Some(DemodMode::WBFM),
        is_audio(math, buf, cfg, input_sr, true, b, a_open, r_open),
        is_audio(math, buf, cfg, input_sr, false, b, a_closed, r_closed),
    ensures
        r_open is Some,
        r_open == r_closed,
        alike(a_open, a_closed),
        a_open.fade_gain == b.fade_gain,
{
    lemma_one_path(
        math,
        buf,
        cfg,
        input_sr,
        true,
        b,
        a_open,
        r_open,
        false,
        b,
        a_closed,
        r_closed,
    );
}

/// Demodulation goes on while it is muted: from states that differ in the fade's gain at most,
/// an open squelch and a closed one lead to states that differ in the fade's gain at most.
pub proof fn law_demodulation_goes_on<M: SampleMath>(
    math: &M,
    buf: Seq<u8>,
    cfg: DemodConfig,
    input_sr: u32,
    b_open: DemodRun<M::Real, M::Iq>,
    a_open: DemodRun<M::Real, M::Iq>,
    r_open: Option<Seq<u8>>,
    b_closed: DemodRun<M::Real, M::Iq>,
    a_closed: DemodRun<M::Real, M::Iq>,
    r_closed: Option<Seq<u8>>,
)
    requires
        is_determined(math),
        alike_but_fade(b_open, b_closed),
        is_audio(math, buf, cfg, input_sr, true, b_open, a_open, r_open),
        is_audio(math, buf, cfg, input_sr, false, b_closed, a_closed, r_closed),
    ensures
        alike_but_fade(a_open, a_closed),
{
    lemma_one_path(
        math,
        buf,
        cfg,
        input_sr,
        true,
        b_open,
        a_open,
        r_open,
        false,
        b_closed,
        a_closed,
        r_closed,
    );
}

/// Filtering two blocks in one call gives what filtering one after the other gives, and leaves
/// the same samples in the same places.
pub proof fn law_filtering_in_blocks<M: SampleMath>(
    math: &M,
    taps: Seq<M::Real>,
    before: DelayLine<M::Iq>,
    between: DelayLine<M::Iq>,
    after: DelayLine<M::Iq>,
    first: Seq<M::Iq>,
    first_out: Seq<M::Iq>,
    second: Seq<M::Iq>,
    second_out: Seq<M::Iq>,
    after_both: DelayLine<M::Iq>,
    both_out: Seq<M::Iq>,
)
    requires
        is_determined(math),
        filters_block(math, taps, before, between, first, first_out),
        filters_block(math, taps, between, after, second, second_out),
        filters_block(math, taps, before, after_both, first + second, both_out),
    ensures
        both_out == first_out + second_out,
        same_line(after_both, after),
{
    law_filter_blocks(
        math,
        taps,
        before,
        between,
        after,
        first,
        first_out,
        second,
        second_out,
    );
    law_one_filtering(
        math,
        taps,
        before,
        after_both,
        before,
        after,
        first + second,
        both_out,
        first_out + second_out,
    );
}

/// Mixing two buffers down in one call gives what mixing down one after the other gives, and
/// leaves the mixer in the same state, where the first is made of whole groups.
pub proof fn law_mixing_in_blocks<M: SampleMath>(
    math: &M,
    offset: M::Real,
    rate: u32,
    factor: int,
    before: Mixer<M::Real>,
    between: Mixer<M::Real>,
    after: Mixer<M::Real>,
    first: Seq<u8>,
    first_out: Seq<M::Iq>,
    second: Seq<u8>,
    second_out: Seq<M::Iq>,
    after_both: Mixer<M::Real>,
    both_out: Seq<M::Iq>,
)
    requires
        is_determined(math),
        factor > 0,
        first.len() as int % (2 * factor) == 0,
        mixes_channel(math, first, offset, rate, factor, before, between, first_out),
        mixes_channel(math, second, offset, rate, factor, between, after, second_out),
        mixes_channel(math, first + second, offset, rate, factor, before, after_both, both_out),
    ensures
        both_out == first_out + second_out,
        after_both == after,
{
    law_mix_blocks(
        math,
        offset,
        rate,
        factor,
        before,
        between,
        after,
        first,
        first_out,
        second,
        second_out,
    );
    law_one_mixing(
        math,
        first + second,
        offset,
        rate,
        factor,
        before,
        after_both,
        both_out,
        after,
        first_out + second_out,
    );
}

/// Two calls of FM demodulation, one for either block, give what one call for both gives.
pub proof fn law_fm_in_blocks<M: SampleMath>(
    math: &M,
    before: M::Iq,
    first: Seq<M::Iq>,
    first_out: Seq<M::Real>,
    second: Seq<M::Iq>,
    second_out: Seq<M::Real>,
    both_out: Seq<M::Real>,
)
    requires
        is_determined(math),
        fm_demodulates(math, before, first, first_out),
        fm_demodulates(math, newest(before, first), second, second_out),
        fm_demodulates(math, before, first + second, both_out),
    ensures
        both_out == first_out + second_out,
{
    law_fm_blocks(math, before, first, first_out, second, second_out);
    law_one_fm(math, before, first + second, both_out, first_out + second_out);
}

/// Two calls of the gain control, one for either block, give what one call for both gives, and
/// leave the same peak.
pub proof fn law_levelling_in_blocks<M: SampleMath>(
    math: &M,
    before: M::Real,
    between: M::Real,
    after: M::Real,
    first: Seq<M::Real>,
    first_out: Seq<M::Real>,
    second: Seq<M::Real>,
    second_out: Seq<M::Real>,
    after_both: M::Real,
    both_out: Seq<M::Real>,
)
    requires
        is_determined(math),
        is_levelled(math, before, between, first, first_out),
        is_levelled(math, between, after, second, second_out),
        is_levelled(math, before, after_both, first + second, both_out),
    ensures
        both_out == first_out + second_out,
        after_both == after,
{
    law_agc_blocks(math, before, between, after, first, first_out, second, second_out);
    law_one_levelling(
        math,
        before,
        first + second,
        after_both,
        both_out,
        after,
        first_out + second_out,
    );
}

/// Two arrays with the same elements are the same.
proof fn lemma_same_array<T>(a: [T; FFT_SIZE], b: [T; FFT_SIZE])
    requires
        forall|i: int| 0 <= i < FFT_SIZE ==> a@[i] == #[trigger] b@[i],
    ensures
        a == b,
{
    assert(a =~= b);
}

/// After `k` stretches the power sums are the same.
proof fn lemma_one_accumulation<M: SampleMath>(
    math: &M,
    buf: Seq<u8>,
    window: Seq<M::Real>,
    s1: Seq<Seq<M::Real>>,
    s2: Seq<Seq<M::Real>>,
    k: int,
)
    requires
        is_determined(math),
        accumulates(math, buf, window, s1),
        accumulates(math, buf, window, s2),
        s1.len() == s2.len(),
        0 <= k < s1.len(),
    ensures
        s1[k] == s2[k],
        s1[k].len() == FFT_SIZE,
    decreases k,
{
    if k == 0 {
        assert forall|i: int| 0 <= i < FFT_SIZE implies s1[0][i] == s2[0][i] by {
            law_one_result(math, Formula::Single(ZERO), s1[0][i], s2[0][i]);
        }
        assert(s1[0].len() == FFT_SIZE && s2[0].len() == FFT_SIZE);
        assert(s1[0] =~= s2[0]);
    } else {
        let a = k - 1;
        lemma_one_accumulation(math, buf, window, s1, s2, a);
        assert(adds_stretch(math, buf, window, a, s1[a], s1[a + 1]));
        assert(adds_stretch(math, buf, window, a, s2[a], s2[a + 1]));
        let (f1, t1) = choose|frame: [M::Iq; FFT_SIZE], transform: [M::Iq; FFT_SIZE]| #[trigger]
            adds_stretch_by(math, buf, window, a, s1[a], s1[a + 1], frame, transform);
        let (f2, t2) = choose|frame: [M::Iq; FFT_SIZE], transform: [M::Iq; FFT_SIZE]| #[trigger]
            adds_stretch_by(math, buf, window, a, s2[a], s2[a + 1], frame, transform);
        assert forall|i: int| 0 <= i < FFT_SIZE implies f1@[i] == #[trigger] f2@[i] by {
            law_one_iq_result(
                math,
                windowed(
                    buf[2 * (a * FFT_SIZE + i)],
                    buf[2 * (a * FFT_SIZE + i) + 1],
                    window[i],
                ),
                f1@[i],
                f2@[i],
            );
        }
        lemma_same_array(f1, f2);
        assert(t1 == t2);
        let before = s1[a];
        let x = s1[a + 1];
        let y = s2[a + 1];
        assert forall|p: int| 0 <= p < FFT_SIZE implies x[p] == y[p] by {
            law_every_place_is_fed(math, before, t1, x, p);
            law_every_place_is_fed(math, before, t1, y, p);
            law_one_result(math, plus_power(before[p], t1@[shifted(p)]), x[p], y[p]);
        }
        assert(x =~= y);
    }
}

/// A buffer has one spectrum.
pub proof fn law_one_spectrum<M: SampleMath>(
    math: &M,
    buf: Seq<u8>,
    window: Seq<M::Real>,
    spectrum1: Seq<M::Real>,
    spectrum2: Seq<M::Real>,
)
    requires
        is_determined(math),
        is_spectrum(math, buf, window, spectrum1),
        is_spectrum(math, buf, window, spectrum2),
    ensures
        spectrum1 == spectrum2,
{
    let s1 = choose|sums: Seq<Seq<M::Real>>| #[trigger]
        is_spectrum_by(math, buf, window, spectrum1, sums);
    let s2 = choose|sums: Seq<Seq<M::Real>>| #[trigger]
        is_spectrum_by(math, buf, window, spectrum2, sums);
    lemma_one_accumulation(math, buf, window, s1, s2, FFT_AVERAGES as int);
    let last = s1.last();
    assert forall|i: int| 0 <= i < FFT_SIZE implies spectrum1[i] == spectrum2[i] by {
        law_one_result(math, mean_db(last[i]), spectrum1[i], spectrum2[i]);
    }
    assert(spectrum1 =~= spectrum2);
}

proof fn lemma_one_display<M: SampleMath>(
    math: &M,
    spectrum: Seq<M::Real>,
    bins1: Seq<M::Real>,
    bins2: Seq<M::Real>,
)
    requires
        is_determined(math),
        is_downsampled(math, spectrum, bins1),
        is_downsampled(math, spectrum, bins2),
    ensures
        bins1 == bins2,
{
    let middle = OUTPUT_BINS as int / 2;
    assert forall|i: int| 0 <= i < OUTPUT_BINS && i != middle implies bins1[i] == bins2[i] by {
        law_one_result(
            math,
            midpoint(spectrum[2 * i], spectrum[2 * i + 1]),
            bins1[i],
            bins2[i],
        );
    }
    assert(bins1[middle - 1] == bins2[middle - 1]);
    assert(bins1[middle + 1] == bins2[middle + 1]);
    law_one_result(
        math,
        midpoint(bins1[middle - 1], bins1[middle + 1]),
        bins1[middle],
        bins2[middle],
    );
    assert(bins1 =~= bins2);
}

proof fn lemma_one_in_tenths<M: SampleMath>(
    math: &M,
    levels: Seq<M::Real>,
    v1: Seq<i16>,
    v2: Seq<i16>,
)
    requires
        is_determined(math),
        in_tenths(math, levels, v1),
        in_tenths(math, levels, v2),
    ensures
        v1 == v2,
{
    assert forall|i: int| 0 <= i < levels.len() implies v1[i] == v2[i] by {
        lemma_one_i16(math, tenths_of(levels[i]), v1[i], v2[i]);
    }
    assert(v1 =~= v2);
}

proof fn lemma_one_spectrum_frame<M: SampleMath>(
    math: &M,
    bins: Seq<M::Real>,
    s: Settings,
    frame1: Seq<u8>,
    frame2: Seq<u8>,
)
    requires
        is_determined(math),
        encodes_spectrum(math, bins, s, frame1),
        encodes_spectrum(math, bins, s, frame2),
    ensures
        frame1 == frame2,
{
    let (l1, r1, v1) = choose|levels: Seq<M::Real>, ranges: Seq<i16>, values: Seq<i16>| #[trigger]
        encodes_spectrum_by(math, bins, s, frame1, levels, ranges, values);
    let (l2, r2, v2) = choose|levels: Seq<M::Real>, ranges: Seq<i16>, values: Seq<i16>| #[trigger]
        encodes_spectrum_by(math, bins, s, frame2, levels, ranges, values);
    assert(l1 =~= l2);
    lemma_one_in_tenths(math, l1, r1, r2);
    lemma_one_in_tenths(math, bins, v1, v2);
}

proof fn lemma_one_maximum<M: SampleMath>(
    math: &M,
    levels: Seq<M::Real>,
    m1: Seq<M::Real>,
    m2: Seq<M::Real>,
    k: int,
)
    requires
        is_determined(math),
        maxima_of(math, levels, m1),
        maxima_of(math, levels, m2),
        0 <= k <= levels.len(),
    ensures
        m1[k] == m2[k],
    decreases k,
{
    if k == 0 {
        law_one_result(math, Formula::Single(LOWEST), m1[0], m2[0]);
    } else {
        lemma_one_maximum(math, levels, m1, m2, k - 1);
        let level = levels[k - 1];
        assert(call_ensures(M::greater, (math, m1[k - 1], level), m1[k - 1 + 1]));
        assert(call_ensures(M::greater, (math, m2[k - 1], level), m2[k - 1 + 1]));
    }
}

/// The squelch is open or closed, not both.
pub proof fn law_one_squelch<M: SampleMath>(
    math: &M,
    bins: Seq<M::Real>,
    cfg: DemodConfig,
    rate: u32,
    open1: bool,
    open2: bool,
)
    requires
        is_determined(math),
        opens(math, bins, cfg, rate, open1),
        opens(math, bins, cfg, rate, open2),
    ensures
        open1 == open2,
{
    if let Some(width) = channel_width(cfg.mode) {
        if !is_minus_100(cfg.squelch_db) {
            assert(reaches_threshold(math, bins, cfg, width, rate, open1));
            assert(reaches_threshold(math, bins, cfg, width, rate, open2));
            let (o1, q1, p1, t1) = choose|
                offset: M::Real,
                position: i64,
                peak: M::Real,
                threshold: M::Real,
            | #[trigger]
                reaches_by(math, bins, cfg, width, rate, open1, offset, position, peak, threshold);
            let (o2, q2, p2, t2) = choose|
                offset: M::Real,
                position: i64,
                peak: M::Real,
                threshold: M::Real,
            | #[trigger]
                reaches_by(math, bins, cfg, width, rate, open2, offset, position, peak, threshold);
            assert(o1 == o2 && t1 == t2);
            let place = bin_position(o1, rate);
            let x1 = choose|x: M::Real| #[trigger]
                call_ensures(M::to_i64, (math, x), q1) && evaluates(math, place, x);
            let x2 = choose|x: M::Real| #[trigger]
                call_ensures(M::to_i64, (math, x), q2) && evaluates(math, place, x);
            law_one_result(math, place, x1, x2);
            assert(q1 == q2);
            let channel = channel_bins(bins, q1 as int, width, rate);
            let m1 = choose|maxima: Seq<M::Real>| #[trigger]
                maxima_of(math, channel, maxima) && maxima.last() == p1;
            let m2 = choose|maxima: Seq<M::Real>| #[trigger]
                maxima_of(math, channel, maxima) && maxima.last() == p2;
            lemma_one_maximum(math, channel, m1, m2, channel.len() as int);
        }
    }
}

/// What a spectrum shows, and the squelch it finds, are one.
proof fn lemma_one_show<M: SampleMath>(
    math: &M,
    buf: Seq<u8>,
    window: Seq<M::Real>,
    s: Settings,
    cfg: DemodConfig,
    frame1: Seq<u8>,
    open1: bool,
    frame2: Seq<u8>,
    open2: bool,
)
    requires
        is_determined(math),
        shows(math, buf, window, s, cfg, frame1, open1),
        shows(math, buf, window, s, cfg, frame2, open2),
    ensures
        frame1 == frame2,
        open1 == open2,
{
    let (s1, b1) = choose|spectrum: Seq<M::Real>, bins: Seq<M::Real>| #[trigger]
        shows_by(math, buf, window, s, cfg, frame1, open1, spectrum, bins);
    let (s2, b2) = choose|spectrum: Seq<M::Real>, bins: Seq<M::Real>| #[trigger]
        shows_by(math, buf, window, s, cfg, frame2, open2, spectrum, bins);
    law_one_spectrum(math, buf, window, s1, s2);
    lemma_one_display(math, s1, b1, b2);
    lemma_one_spectrum_frame(math, b1, s, frame1, frame2);
    law_one_squelch(math, b1, cfg, s.sample_rate, open1, open2);
}

/// Two states of the receiver with the same contents.
pub open spec fn receivers_alike<R, C>(x: Receiver<R, C>, y: Receiver<R, C>) -> bool {
    &&& x.tuned == y.tuned
    &&& x.last_send == y.last_send
    &&& x.squelch_open == y.squelch_open
    &&& x.window@ == y.window@
    &&& alike(x.run, y.run)
}

/// The state that the demodulator goes on from is one.
proof fn lemma_one_preparation<M: SampleMath>(
    math: &M,
    b1: DemodRun<M::Real, M::Iq>,
    a1: DemodRun<M::Real, M::Iq>,
    b2: DemodRun<M::Real, M::Iq>,
    a2: DemodRun<M::Real, M::Iq>,
    mode: Option<DemodMode>,
    rate: u32,
)
    requires
        is_determined(math),
        alike(b1, b2),
        prepares(math, b1, mode, rate, a1),
        prepares(math, b2, mode, rate, a2),
    ensures
        alike(a1, a2),
{
    if b1.prev_mode != mode || b1.prev_sr != rate {
        let zero = Formula::<M::Real, M::Iq>::Single(ZERO);
        law_one_result(math, zero, a1.mixer.phase, a2.mixer.phase);
        law_one_result(math, zero, a1.mixer.dc_i, a2.mixer.dc_i);
        law_one_result(math, zero, a1.mixer.dc_q, a2.mixer.dc_q);
        law_one_iq_result(math, iq_zero(), a1.prev_iq, a2.prev_iq);
        law_one_result(math, zero, a1.deemph, a2.deemph);
        law_one_result(math, zero, a1.am_prev_x, a2.am_prev_x);
        law_one_result(math, zero, a1.am_prev_y, a2.am_prev_y);
        law_one_result(math, Formula::Single(ONE), a1.fade_gain, a2.fade_gain);
        assert(a1.fir_taps@ =~= a2.fir_taps@);
        assert(a1.fir.slots@ =~= a2.fir.slots@);
    }
}

/// Where every operation gives one result, a turn of the receiver does: from the same buffer,
/// the same settings, the same time and the same state come the same changes to make, the same
/// frames and the same next state.
pub proof fn law_one_turn<M: SampleMath>(
    math: &M,
    buf: Seq<u8>,
    s: Settings,
    cfg: DemodConfig,
    now: u64,
    b1: Receiver<M::Real, M::Iq>,
    a1: Receiver<M::Real, M::Iq>,
    tuning1: Seq<Tuning>,
    frames1: Seq<Seq<u8>>,
    b2: Receiver<M::Real, M::Iq>,
    a2: Receiver<M::Real, M::Iq>,
    tuning2: Seq<Tuning>,
    frames2: Seq<Seq<u8>>,
)
    requires
        is_determined(math),
        receivers_alike(b1, b2),
        turns(math, b1, a1, buf, s, cfg, now, tuning1, frames1),
        turns(math, b2, a2, buf, s, cfg, now, tuning2, frames2),
    ensures
        tuning1 == tuning2,
        frames1 == frames2,
        receivers_alike(a1, a2),
{
    let (f1, r1, x1) = choose|
        spectrum: Option<Seq<u8>>,
        run: DemodRun<M::Real, M::Iq>,
        audio: Option<Seq<u8>>,
    | #[trigger]
        turns_by(math, b1, a1, buf, s, cfg, now, frames1, spectrum, run, audio);
    let (f2, r2, x2) = choose|
        spectrum: Option<Seq<u8>>,
        run: DemodRun<M::Real, M::Iq>,
        audio: Option<Seq<u8>>,
    | #[trigger]
        turns_by(math, b2, a2, buf, s, cfg, now, frames2, spectrum, run, audio);
    if spectrum_due(b1.last_send, now) {
        lemma_one_show(
            math,
            buf,
            b1.window@,
            s,
            cfg,
            f1->0,
            a1.squelch_open,
            f2->0,
            a2.squelch_open,
        );
    }
    lemma_one_preparation(math, b1.run, r1, b2.run, r2, cfg.mode, s.sample_rate);
    law_one_audio(
        math,
        buf,
        cfg,
        s.sample_rate,
        a1.squelch_open,
        r1,
        a1.run,
        x1,
        r2,
        a2.run,
        x2,
    );
}

/// What a spectrum shows, and the squelch it finds, are up to the buffer, the settings and the
/// channel chosen: two receivers that have the same window but else differ, in their squelch,
/// their radio, their demodulator or their clock, send the same spectrum of the same buffer, and
/// are left with the same squelch.
pub proof fn law_spectrum_forgets<M: SampleMath>(
    math: &M,
    buf: Seq<u8>,
    s: Settings,
    cfg: DemodConfig,
    now1: u64,
    b1: Receiver<M::Real, M::Iq>,
    a1: Receiver<M::Real, M::Iq>,
    tuning1: Seq<Tuning>,
    frames1: Seq<Seq<u8>>,
    now2: u64,
    b2: Receiver<M::Real, M::Iq>,
    a2: Receiver<M::Real, M::Iq>,
    tuning2: Seq<Tuning>,
    frames2: Seq<Seq<u8>>,
)
    requires
        is_determined(math),
        b1.window@ == b2.window@,
        now1 >= b1.last_send + 40_000_000,
        now2 >= b2.last_send + 40_000_000,
        turns(math, b1, a1, buf, s, cfg, now1, tuning1, frames1),
        turns(math, b2, a2, buf, s, cfg, now2, tuning2, frames2),
    ensures
        a1.squelch_open == a2.squelch_open,
        frames1[0] == frames2[0],
{
    let (f1, r1, x1) = choose|
        spectrum: Option<Seq<u8>>,
        run: DemodRun<M::Real, M::Iq>,
        audio: Option<Seq<u8>>,
    | #[trigger]
        turns_by(math, b1, a1, buf, s, cfg, now1, frames1, spectrum, run, audio);
    let (f2, r2, x2) = choose|
        spectrum: Option<Seq<u8>>,
        run: DemodRun<M::Real, M::Iq>,
        audio: Option<Seq<u8>>,
    | #[trigger]
        turns_by(math, b2, a2, buf, s, cfg, now2, frames2, spectrum, run, audio);
    lemma_one_show(
        math,
        buf,
        b1.window@,
        s,
        cfg,
        f1->0,
        a1.squelch_open,
        f2->0,
        a2.squelch_open,
    );
    assert(frames1[0] == f1->0 && frames2[0] == f2->0);
}

} // verus!
