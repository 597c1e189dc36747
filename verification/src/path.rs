//! The stages of the audio path, one after the other: what goes from each to the next.

use crate::audio::{
    am_by, are_rates, deviation_phase, fade_step, fronts_by, is_audio, is_audio_by,
    levels_and_fades_by, nbfm_by, wbfm_demodulates, wbfm_packs, wbfm_packs_by,
    AudioRates, DemodRun,
};
use crate::config::{DemodConfig, DemodMode};
use crate::demod::{
    am_demodulates, deemphasizes_at, divides, fm_demodulates, is_faded, is_levelled,
};
use crate::display::{law_audio_frame_tells, packs_exactly};
use crate::filter::{averages, filters_block, is_lowpass, mixes_channel, thinned, Mixer};
use crate::formula::evaluates;
use crate::frame::encodes_audio;
use crate::hearing::{
    finds_angles, law_deviation, law_fade, law_fade_time, law_fm_finds_the_turn, law_levelling,
    law_rates,
};
use crate::ideal::{is_circular, is_ideal, on_circle, reads_constants, whole_turn, Ideal};
use crate::math::SampleMath;
use crate::measure::{larger, leaves_remainders};
use crate::reals::{lemma_commute, lemma_nonzero, lemma_one, lemma_zero, total};
use crate::response::{law_filtering, law_steady_signal_passes, law_thinning};
use crate::tuning::{is_tone, law_oscillator, law_tone_comes_to_rest};
use vstd::arithmetic::mul::lemma_mul_is_distributive_sub_other_way;
use vstd::prelude::*;

verus! {

/// What goes from stage to stage.
pub struct Stages<R, C> {
    /// The offset of the channel.
    pub offset: R,
    /// The channel at the intermediate rate.
    pub mid: Seq<C>,
    /// The same, filtered.
    pub filtered: Seq<C>,
    /// The phases or the envelope that is detected.
    pub detected: Seq<R>,
    /// The phase of the full deviation.
    pub scale: R,
    /// What is detected, brought to scale or freed of its DC.
    pub signal: Seq<R>,
    /// The signal at the audio rate, once smoothed where it is to be.
    pub smoothed: Seq<R>,
    /// The signal at the audio rate.
    pub decimated: Seq<R>,
    /// The signal brought to level.
    pub audio: Seq<R>,
    /// The step of the fade.
    pub step: R,
}

/// The stages of NBFM: the channel at the chosen offset is mixed to frequency 0 and decimated by
/// the first factor; filtered by 64 taps with a cutoff of 6.25 kHz, which are designed for the
/// intermediate rate where there are none yet; thinned out by the second factor; its phase is
/// detected, with 2.5 kHz as the full deviation; and the signal is brought to level, faded with
/// the squelch and packed. Each stage takes what the one before gives and goes on from its own
/// state, and the states that NBFM has no use for stay as they are.
pub proof fn law_stages_of_nbfm<M: SampleMath>(
    math: &M,
    buf: Seq<u8>,
    cfg: DemodConfig,
    input_sr: u32,
    open: bool,
    rates: AudioRates,
    b: DemodRun<M::Real, M::Iq>,
    a: DemodRun<M::Real, M::Iq>,
    r: Option<Seq<u8>>,
)
    requires
        cfg.mode == Some(DemodMode::NBFM),
        are_rates(DemodMode::NBFM, input_sr, rates),
        is_audio(math, buf, cfg, input_sr, open, b, a, r),
    ensures
        a.deemph == b.deemph,
        a.am_prev_x == b.am_prev_x,
        a.am_prev_y == b.am_prev_y,
        a.prev_mode == b.prev_mode,
        a.prev_sr == b.prev_sr,
        exists|st: Stages<M::Real, M::Iq>, faded: Option<Seq<M::Real>>| #[trigger]
            is_faded(math, b.fade_gain, a.fade_gain, open, st.step, st.audio, faded)
                && call_ensures(M::double, (math, cfg.offset_hz), st.offset)
                && mixes_channel(
                math,
                buf,
                st.offset,
                input_sr,
                rates.factor1 as int,
                b.mixer,
                a.mixer,
                st.mid,
            ) && a.fir_taps@.len() == 64 && (b.fir_taps@.len() == 0 ==> is_lowpass(
                math,
                6_250,
                rates.sr_mid,
                a.fir_taps@,
            )) && (b.fir_taps@.len() != 0 ==> a.fir_taps@ == b.fir_taps@) && filters_block(
                math,
                a.fir_taps@,
                b.fir,
                a.fir,
                st.mid,
                st.filtered,
            ) && fm_demodulates(
                math,
                b.prev_iq,
                thinned(st.filtered, rates.factor2 as int),
                st.detected,
            ) && (a.prev_iq == if thinned(st.filtered, rates.factor2 as int).len() == 0 {
                b.prev_iq
            } else {
                thinned(st.filtered, rates.factor2 as int).last()
            })
                && evaluates(math, deviation_phase(2_500, rates.out_sr), st.scale) && divides(
                math,
                st.detected,
                st.scale,
                st.signal,
            ) && is_levelled(math, b.agc_peak, a.agc_peak, st.signal, st.audio) && evaluates(
                math,
                fade_step(rates.out_sr),
                st.step,
            ) && (faded is Some == r is Some) && (faded is Some ==> encodes_audio(
                math,
                faded->0,
                rates.out_sr,
                r->0,
            )),
{
    let (own, filtered) = choose|own: AudioRates, filtered: Seq<M::Iq>| #[trigger]
        is_audio_by(math, buf, cfg, DemodMode::NBFM, input_sr, open, b, a, r, own, filtered);
    assert(own == rates);
    let (offset, mid) = choose|offset: M::Real, mid: Seq<M::Iq>| #[trigger]
        fronts_by(math, buf, cfg, input_sr, rates, b, a, filtered, offset, mid);
    let (phases, scale, signal) = choose|
        phases: Seq<M::Real>,
        scale: M::Real,
        signal: Seq<M::Real>,
    | #[trigger]
        nbfm_by(math, filtered, rates, open, b, a, r, phases, scale, signal);
    let (audio, step, faded) = choose|
        audio: Seq<M::Real>,
        step: M::Real,
        faded: Option<Seq<M::Real>>,
    | #[trigger]
        levels_and_fades_by(math, signal, rates.out_sr, open, b, a, r, audio, step, faded);
    let st = Stages {
        offset,
        mid,
        filtered,
        detected: phases,
        scale,
        signal,
        smoothed: signal,
        decimated: signal,
        audio,
        step,
    };
    assert(is_faded(math, b.fade_gain, a.fade_gain, open, st.step, st.audio, faded));
}

/// The stages of AM: the channel is mixed, decimated, filtered, with a cutoff of 5 kHz, and
/// thinned out as for NBFM; its envelope is detected and freed of its DC; and the signal is
/// brought to level, faded with the squelch and packed.
pub proof fn law_stages_of_am<M: SampleMath>(
    math: &M,
    buf: Seq<u8>,
    cfg: DemodConfig,
    input_sr: u32,
    open: bool,
    rates: AudioRates,
    b: DemodRun<M::Real, M::Iq>,
    a: DemodRun<M::Real, M::Iq>,
    r: Option<Seq<u8>>,
)
    requires
        cfg.mode == Some(DemodMode::AM),
        are_rates(DemodMode::AM, input_sr, rates),
        is_audio(math, buf, cfg, input_sr, open, b, a, r),
    ensures
        a.deemph == b.deemph,
        a.prev_iq == b.prev_iq,
        a.prev_mode == b.prev_mode,
        a.prev_sr == b.prev_sr,
        exists|st: Stages<M::Real, M::Iq>, faded: Option<Seq<M::Real>>| #[trigger]
            is_faded(math, b.fade_gain, a.fade_gain, open, st.step, st.audio, faded)
                && call_ensures(M::double, (math, cfg.offset_hz), st.offset)
                && mixes_channel(
                math,
                buf,
                st.offset,
                input_sr,
                rates.factor1 as int,
                b.mixer,
                a.mixer,
                st.mid,
            ) && a.fir_taps@.len() == 64 && (b.fir_taps@.len() == 0 ==> is_lowpass(
                math,
                5_000,
                rates.sr_mid,
                a.fir_taps@,
            )) && (b.fir_taps@.len() != 0 ==> a.fir_taps@ == b.fir_taps@) && filters_block(
                math,
                a.fir_taps@,
                b.fir,
                a.fir,
                st.mid,
                st.filtered,
            ) && am_demodulates(
                math,
                b.am_prev_x,
                b.am_prev_y,
                thinned(st.filtered, rates.factor2 as int),
                st.detected,
                st.signal,
            ) && (a.am_prev_x == if st.detected.len() == 0 {
                b.am_prev_x
            } else {
                st.detected.last()
            }) && (a.am_prev_y == if st.signal.len() == 0 {
                b.am_prev_y
            } else {
                st.signal.last()
            }) && is_levelled(math, b.agc_peak, a.agc_peak, st.signal, st.audio) && evaluates(
                math,
                fade_step(rates.out_sr),
                st.step,
            ) && (faded is Some == r is Some) && (faded is Some ==> encodes_audio(
                math,
                faded->0,
                rates.out_sr,
                r->0,
            )),
{
    let (own, filtered) = choose|own: AudioRates, filtered: Seq<M::Iq>| #[trigger]
        is_audio_by(math, buf, cfg, DemodMode::AM, input_sr, open, b, a, r, own, filtered);
    assert(own == rates);
    let (offset, mid) = choose|offset: M::Real, mid: Seq<M::Iq>| #[trigger]
        fronts_by(math, buf, cfg, input_sr, rates, b, a, filtered, offset, mid);
    let (envelope, signal) = choose|envelope: Seq<M::Real>, signal: Seq<M::Real>| #[trigger]
        am_by(math, filtered, rates, open, b, a, r, envelope, signal);
    let (audio, step, faded) = choose|
        audio: Seq<M::Real>,
        step: M::Real,
        faded: Option<Seq<M::Real>>,
    | #[trigger]
        levels_and_fades_by(math, signal, rates.out_sr, open, b, a, r, audio, step, faded);
    let st = Stages {
        offset,
        mid,
        filtered,
        detected: envelope,
        scale: offset,
        signal,
        smoothed: signal,
        decimated: signal,
        audio,
        step,
    };
    assert(is_faded(math, b.fade_gain, a.fade_gain, open, st.step, st.audio, faded));
}

/// The stages of WBFM: the channel is mixed, decimated and filtered, with a cutoff of 90 kHz; its
/// phase is detected at the intermediate rate, with 75 kHz as the full deviation; and the signal
/// is smoothed, averaged by the second factor, brought to level and packed.
pub proof fn law_stages_of_wbfm<M: SampleMath>(
    math: &M,
    buf: Seq<u8>,
    cfg: DemodConfig,
    input_sr: u32,
    open: bool,
    rates: AudioRates,
    b: DemodRun<M::Real, M::Iq>,
    a: DemodRun<M::Real, M::Iq>,
    r: Option<Seq<u8>>,
)
    requires
        cfg.mode == Some(DemodMode::WBFM),
        are_rates(DemodMode::WBFM, input_sr, rates),
        is_audio(math, buf, cfg, input_sr, open, b, a, r),
    ensures
        a.fade_gain == b.fade_gain,
        a.am_prev_x == b.am_prev_x,
        a.am_prev_y == b.am_prev_y,
        a.prev_mode == b.prev_mode,
        a.prev_sr == b.prev_sr,
        exists|st: Stages<M::Real, M::Iq>| #[trigger]
            is_levelled(math, b.agc_peak, a.agc_peak, st.decimated, st.audio)
                && call_ensures(M::double, (math, cfg.offset_hz), st.offset)
                && mixes_channel(
                math,
                buf,
                st.offset,
                input_sr,
                rates.factor1 as int,
                b.mixer,
                a.mixer,
                st.mid,
            ) && a.fir_taps@.len() == 64 && (b.fir_taps@.len() == 0 ==> is_lowpass(
                math,
                90_000,
                rates.sr_mid,
                a.fir_taps@,
            )) && (b.fir_taps@.len() != 0 ==> a.fir_taps@ == b.fir_taps@) && filters_block(
                math,
                a.fir_taps@,
                b.fir,
                a.fir,
                st.mid,
                st.filtered,
            ) && fm_demodulates(
                math,
                b.prev_iq,
                st.filtered,
                st.detected,
            ) && (a.prev_iq == if st.filtered.len() == 0 {
                b.prev_iq
            } else {
                st.filtered.last()
            }) && evaluates(
                math,
                deviation_phase(75_000, rates.sr_mid),
                st.scale,
            ) && divides(math, st.detected, st.scale, st.signal) && deemphasizes_at(
                math,
                rates.sr_mid,
                b.deemph,
                st.signal,
                st.smoothed,
            ) && (a.deemph == if st.smoothed.len() == 0 {
                b.deemph
            } else {
                st.smoothed.last()
            }) && averages(
                math,
                st.smoothed,
                rates.factor2 as int,
                st.decimated,
            ) && r is Some && encodes_audio(math, st.audio, rates.out_sr, r->0),
{
    let (own, filtered) = choose|own: AudioRates, filtered: Seq<M::Iq>| #[trigger]
        is_audio_by(math, buf, cfg, DemodMode::WBFM, input_sr, open, b, a, r, own, filtered);
    assert(own == rates);
    let (offset, mid) = choose|offset: M::Real, mid: Seq<M::Iq>| #[trigger]
        fronts_by(math, buf, cfg, input_sr, rates, b, a, filtered, offset, mid);
    let (phases, scale, scaled, signal) = choose|
        phases: Seq<M::Real>,
        scale: M::Real,
        scaled: Seq<M::Real>,
        signal: Seq<M::Real>,
    | #[trigger]
        wbfm_demodulates(math, filtered, rates, b, a, phases, scale, scaled, signal) && wbfm_packs(
            math,
            signal,
            rates,
            b,
            a,
            r->0,
        );
    let (decimated, audio) = choose|decimated: Seq<M::Real>, audio: Seq<M::Real>| #[trigger]
        wbfm_packs_by(math, signal, rates, b, a, r->0, decimated, audio);
    let st = Stages {
        offset,
        mid,
        filtered,
        detected: phases,
        scale,
        signal: scaled,
        smoothed: signal,
        decimated,
        audio,
        step: scale,
    };
    assert(is_levelled(math, b.agc_peak, a.agc_peak, st.decimated, st.audio));
}

/// A steady channel detected as FM: nothing turns.
proof fn lemma_steady_phase<M: SampleMath>(
    math: &M,
    ideal: Ideal<M::Real, M::Iq>,
    before: M::Iq,
    samples: Seq<M::Iq>,
    out: Seq<M::Real>,
    j: int,
)
    requires
        is_ideal(math, ideal),
        is_circular(ideal),
        finds_angles(math, ideal),
        fm_demodulates(math, before, samples, out),
        1 <= j < samples.len(),
        (ideal.measure.re)(samples[j]) == (ideal.measure.re)(samples[j - 1]),
        (ideal.measure.im)(samples[j]) == (ideal.measure.im)(samples[j - 1]),
        (ideal.measure.re)(samples[j]) != 0real || (ideal.measure.im)(samples[j]) != 0real,
    ensures
        (ideal.measure.value)(out[j]) == 0real,
{
    let re = (ideal.measure.re)(samples[j]);
    let im = (ideal.measure.im)(samples[j]);
    let x = 1real * (ideal.cosine)(0real);
    let y = 1real * (ideal.sine)(0real);
    lemma_one(1real, re);
    lemma_commute(1real, re);
    lemma_one(1real, im);
    lemma_commute(1real, im);
    lemma_zero(0real, re);
    lemma_commute(0real, re);
    lemma_zero(0real, im);
    lemma_commute(0real, im);
    assert(x == 1real && y == 0real);
    law_fm_finds_the_turn(math, ideal, before, samples, out, j, 1real, 0real);
}

/// A carrier without modulation at the chosen offset, above the centre or below it, is silence:
/// where the signal in a buffer, as a mixer tuned to the centre passes it on, is a tone at that
/// offset, NBFM makes 0 of it from where the filter's memory is full of it. Audio sample `j`
/// stands for the samples from `j` - 1 times the second factor on, at the intermediate rate.
pub proof fn law_carrier_is_silent<M: SampleMath>(
    math: &M,
    ideal: Ideal<M::Real, M::Iq>,
    buf: Seq<u8>,
    cfg: DemodConfig,
    input_sr: u32,
    open: bool,
    rates: AudioRates,
    b: DemodRun<M::Real, M::Iq>,
    a: DemodRun<M::Real, M::Iq>,
    frame: Seq<u8>,
    offset: real,
    amplitude: real,
    start: real,
    zero: M::Real,
    centre: Mixer<M::Real>,
    centre_after: Mixer<M::Real>,
    signal: Seq<M::Iq>,
    j: int,
)
    requires
        is_ideal(math, ideal),
        is_circular(ideal),
        reads_constants(ideal),
        leaves_remainders(math, ideal.measure),
        finds_angles(math, ideal),
        packs_exactly(math, ideal.measure),
        (ideal.measure.constant)(0x3586_37BD) > 0real,
        (ideal.measure.constant)(0x3727_C5AC) > 0real,
        (ideal.measure.constant)(0x3F59_999A) > 0real,
        (ideal.measure.constant)(0x3C23_D70A) > 0real,
        cfg.mode == Some(DemodMode::NBFM),
        are_rates(DemodMode::NBFM, input_sr, rates),
        rates.out_sr > 0,
        b.wf(),
        is_audio(math, buf, cfg, input_sr, open, b, a, Some(frame)),
        total(|k: int| (ideal.measure.value)(a.fir_taps@[k]), a.fir_taps@.len()) == 1real,
        forall|r: M::Real| #[trigger]
            call_ensures(M::double, (math, cfg.offset_hz), r) ==> (ideal.measure.value)(r) == offset,
        (ideal.measure.value)(zero) == 0real,
        (ideal.measure.value)(centre.phase) == 0real,
        (ideal.measure.value)(b.mixer.dc_i) == (ideal.measure.value)(centre.dc_i),
        (ideal.measure.value)(b.mixer.dc_q) == (ideal.measure.value)(centre.dc_q),
        input_sr > 0,
        mixes_channel(math, buf, zero, input_sr, 1, centre, centre_after, signal),
        is_tone(ideal, signal, amplitude, start, whole_turn(ideal) * offset / input_sr as real),
        amplitude != 0real,
        j >= 1,
        (j - 1) * rates.factor2 >= 63,
        j * rates.factor2 < buf.len() as int / 2 / rates.factor1 as int,
    ensures
        frame.len() > 4 + 2 * j,
        frame[3 + 2 * j] == 0,
        frame[4 + 2 * j] == 0,
{
    let (v, re, im) = (ideal.measure.value, ideal.measure.re, ideal.measure.im);
    law_rates(DemodMode::NBFM, input_sr, rates);
    law_stages_of_nbfm(math, buf, cfg, input_sr, open, rates, b, a, Some(frame));
    let r = Some(frame);
    let (st, faded) = choose|st: Stages<M::Real, M::Iq>, faded: Option<Seq<M::Real>>| #[trigger]
        is_faded(math, b.fade_gain, a.fade_gain, open, st.step, st.audio, faded) && call_ensures(
            M::double,
            (math, cfg.offset_hz),
            st.offset,
        ) && mixes_channel(
            math,
            buf,
            st.offset,
            input_sr,
            rates.factor1 as int,
            b.mixer,
            a.mixer,
            st.mid,
        ) && a.fir_taps@.len() == 64 && filters_block(
            math,
            a.fir_taps@,
            b.fir,
            a.fir,
            st.mid,
            st.filtered,
        ) && fm_demodulates(
            math,
            b.prev_iq,
            thinned(st.filtered, rates.factor2 as int),
            st.detected,
        ) && evaluates(math, deviation_phase(2_500, rates.out_sr), st.scale) && divides(
            math,
            st.detected,
            st.scale,
            st.signal,
        ) && is_levelled(math, b.agc_peak, a.agc_peak, st.signal, st.audio) && evaluates(
            math,
            fade_step(rates.out_sr),
            st.step,
        ) && (faded is Some == r is Some) && (faded is Some ==> encodes_audio(
            math,
            faded->0,
            rates.out_sr,
            r->0,
        ));
    let angle = start + v(b.mixer.phase);
    let x = amplitude * (ideal.cosine)(angle);
    let y = amplitude * (ideal.sine)(angle);
    assert forall|c: int| 0 <= c < st.mid.len() implies re(#[trigger] st.mid[c]) == x && im(
        st.mid[c],
    ) == y by {
        law_tone_comes_to_rest(
            math,
            ideal,
            buf,
            input_sr,
            amplitude,
            start,
            zero,
            centre,
            centre_after,
            signal,
            st.offset,
            rates.factor1 as int,
            b.mixer,
            a.mixer,
            st.mid,
            c,
        );
    }
    law_oscillator(
        math,
        ideal,
        buf,
        st.offset,
        input_sr,
        rates.factor1 as int,
        b.mixer,
        a.mixer,
        st.mid,
    );
    let f = rates.factor2 as int;
    let channel = thinned(st.filtered, f);
    lemma_mul_is_distributive_sub_other_way(f, j, 1);
    law_steady_signal_passes(
        math,
        ideal,
        a.fir_taps@,
        b.fir,
        a.fir,
        st.mid,
        st.filtered,
        x,
        y,
        j * f,
    );
    law_steady_signal_passes(
        math,
        ideal,
        a.fir_taps@,
        b.fir,
        a.fir,
        st.mid,
        st.filtered,
        x,
        y,
        (j - 1) * f,
    );
    law_filtering(math, ideal, a.fir_taps@, b.fir, a.fir, st.mid, st.filtered, j * f);
    law_thinning(st.filtered, f, j);
    law_thinning(st.filtered, f, j - 1);
    assert(x != 0real || y != 0real) by {
        assert(on_circle(ideal, angle));
        let (c, s) = ((ideal.cosine)(angle), (ideal.sine)(angle));
        if c == 0real && s == 0real {
            lemma_zero(c, c);
            lemma_zero(s, s);
        }
        if c != 0real {
            lemma_nonzero(amplitude, c);
        }
        if s != 0real {
            lemma_nonzero(amplitude, s);
        }
    }
    lemma_steady_phase(math, ideal, b.prev_iq, channel, st.detected, j);
    law_deviation(
        math,
        ideal,
        2_500,
        rates.out_sr,
        st.detected,
        st.scale,
        st.signal,
        j,
    );
    assert(v(st.signal[j]) == 0real) by {
        let full = 2_500u32 as real / rates.out_sr as real * 2real * (ideal.measure.constant)(
            0x4049_0FDB,
        );
        let scale = larger(full, (ideal.measure.constant)(0x3586_37BD));
        if v(st.signal[j]) != 0real {
            lemma_nonzero(scale, v(st.signal[j]));
        }
    }
    law_levelling(math, ideal, b.agc_peak, a.agc_peak, st.signal, st.audio, j);
    law_fade_time(math, ideal, rates.out_sr, st.step);
    law_fade(math, ideal, b.fade_gain, a.fade_gain, open, st.step, st.audio, faded);
    let out = faded->0;
    assert(v(out[j]) == 0real) by {
        let g = v(b.fade_gain);
        let d = v(st.step);
        let n = j + 1;
        let gain = if open {
            if g + n as real * d <= 1real {
                g + n as real * d
            } else {
                1real
            }
        } else {
            if g - n as real * d >= 0real {
                g - n as real * d
            } else {
                0real
            }
        };
        assert(v(out[j]) == v(st.audio[j]) * gain);
        lemma_zero(v(st.audio[j]), gain);
    }
    law_audio_frame_tells(math, ideal, out, rates.out_sr, frame, j);
    let w = frame[3 + 2 * j] + 256 * frame[4 + 2 * j];
    assert(32767real * v(out[j]) == 0real);
    assert(w == 0);
}

} // verus!
