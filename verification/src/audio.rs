//! The audio path: from a buffer of raw IQ bytes to an audio frame.
//!
//! All modes share the front end, which mixes the channel to frequency 0, decimates it to an
//! intermediate rate and filters it. NBFM and AM then thin it out to the audio rate,
//! demodulate it, bring it to level and fade it with the squelch. WBFM demodulates it at the
//! intermediate rate, de-emphasizes and decimates it, and brings it to level.

use crate::config::{DemodConfig, DemodMode};
use crate::demod::{
    agc, am_demod, am_demodulates, apply_fade, deemphasis, deemphasizes_at,
    divide_all, divides, fm_demod, fm_demodulates, is_faded, is_inaudible, is_levelled,
    law_silence_lasts, newest, next_gain, signal_view,
};
use crate::filter::{
    apply_fir_c, averages, decimate_r, filters_block, iq_zero, is_lowpass, make_lpf_fir,
    mix_decimate, mixes_channel, thin, thinned, zero_sample, DelayLine, Mixer, TINY,
};
use crate::formula::{evaluates, iq_evaluates, Formula, ONE, PI, TWO, ZERO};
use crate::frame::{audio_frame, encode_audio_frame, encodes_audio, in_pcm};
use crate::math::SampleMath;
use vstd::arithmetic::div_mod::{
    lemma_div_pos_is_pos, lemma_fundamental_div_mod, lemma_mod_bound,
};
use vstd::prelude::*;

verus! {

/// Number of taps of the channel filter.
pub const FIR_TAPS: usize = 64;

/// The bit pattern of 0.01: the peak that the gain control starts from.
pub const FIRST_PEAK: u32 = 0x3C23_D70A;

/// The bit pattern of 0.01: the time of a fade, in seconds.
pub const FADE_TIME: u32 = 0x3C23_D70A;

/// The phase per sample of an FM deviation of `deviation_hz`: 2 pi deviation / rate, kept off
/// zero.
pub open spec fn deviation_phase<R, C>(deviation_hz: u32, rate: u32) -> Formula<R, C> {
    Formula::Whole(deviation_hz as u64).over(Formula::Whole(rate as u64)).times(
        Formula::Single(TWO),
    ).times(Formula::Single(PI)).greater(Formula::Single(TINY))
}

/// By how much a fade moves per sample.
pub open spec fn fade_step<R, C>(rate: u32) -> Formula<R, C> {
    Formula::Single(ONE).over(Formula::Whole(rate as u64).times(Formula::Single(FADE_TIME)))
}

/// Computes the phase per sample of an FM deviation.
fn deviation_scale<M: SampleMath>(math: &M, deviation_hz: u32, rate: u32) -> (r: M::Real)
    ensures
        evaluates(math, deviation_phase(deviation_hz, rate), r),
{
    let part = math.over(math.whole(deviation_hz as u64), math.whole(rate as u64));
    let phase = math.times(math.times(part, math.single(TWO)), math.single(PI));
    let r = math.greater(phase, math.single(TINY));
    proof {
        reveal_with_fuel(evaluates, 6);
    }
    r
}

/// Computes by how much a fade moves per sample.
fn step_of_fade<M: SampleMath>(math: &M, rate: u32) -> (r: M::Real)
    ensures
        evaluates(math, fade_step(rate), r),
{
    let samples = math.times(math.whole(rate as u64), math.single(FADE_TIME));
    let r = math.over(math.single(ONE), samples);
    proof {
        reveal_with_fuel(evaluates, 4);
    }
    r
}

/// The rates and factors of the two decimations.
#[derive(Debug, Clone, Copy)]
pub struct AudioRates {
    /// Factor of the first decimation.
    pub factor1: usize,
    /// Rate after the first decimation.
    pub sr_mid: u32,
    /// Factor of the second decimation.
    pub factor2: usize,
    /// Rate after the second decimation: that of the audio.
    pub out_sr: u32,
}

/// The intermediate rate that the first decimation aims at.
pub open spec fn coarse_target(mode: DemodMode) -> int {
    match mode {
        DemodMode::WBFM => 400_000,
        _ => 250_000,
    }
}

/// The audio rate that the second decimation aims at.
pub open spec fn fine_target(mode: DemodMode) -> int {
    match mode {
        DemodMode::AM => 24_000,
        _ => 50_000,
    }
}

/// The cutoff of the channel filter in Hz.
pub open spec fn channel_cutoff(mode: DemodMode) -> u32 {
    match mode {
        DemodMode::NBFM => 6_250,
        DemodMode::WBFM => 90_000,
        DemodMode::AM => 5_000,
    }
}

/// How often `target` goes into `rate`, but at least once.
pub open spec fn factor_to(rate: int, target: int) -> int {
    if rate < target {
        1
    } else {
        rate / target
    }
}

/// `rates` are those of `mode` at the input rate `input_sr`.
pub open spec fn are_rates(mode: DemodMode, input_sr: u32, rates: AudioRates) -> bool {
    &&& rates.factor1 == factor_to(input_sr as int, coarse_target(mode))
    &&& rates.sr_mid == input_sr as int / rates.factor1 as int
    &&& rates.factor2 == factor_to(rates.sr_mid as int, fine_target(mode))
    &&& rates.out_sr == rates.sr_mid as int / rates.factor2 as int
}

/// The rates and factors of `mode` at the input rate `input_sr`.
pub fn audio_rates(mode: DemodMode, input_sr: u32) -> (r: AudioRates)
    ensures
        are_rates(mode, input_sr, r),
{
    let coarse: u32 = match mode {
        DemodMode::WBFM => 400_000,
        _ => 250_000,
    };
    let fine: u32 = match mode {
        DemodMode::AM => 24_000,
        _ => 50_000,
    };
    let factor1: u32 = if input_sr < coarse {
        1
    } else {
        input_sr / coarse
    };
    let sr_mid: u32 = input_sr / factor1;
    let factor2: u32 = if sr_mid < fine {
        1
    } else {
        sr_mid / fine
    };
    AudioRates { factor1: factor1 as usize, sr_mid, factor2: factor2 as usize, out_sr: sr_mid
        / factor2 }
}

/// The state of the demodulator, kept from buffer to buffer.
#[derive(Debug)]
pub struct DemodRun<R, C> {
    pub mixer: Mixer<R>,
    /// The sample last demodulated.
    pub prev_iq: C,
    /// The gain control's peak.
    pub agc_peak: R,
    /// The de-emphasis filter's state.
    pub deemph: R,
    /// The last input of the AM detector's DC-blocking filter.
    pub am_prev_x: R,
    /// The last output of the AM detector's DC-blocking filter.
    pub am_prev_y: R,
    /// The mode that this state belongs to.
    pub prev_mode: Option<DemodMode>,
    /// The sample rate that this state belongs to.
    pub prev_sr: u32,
    /// The channel filter's taps, or none when it is yet to be designed.
    pub fir_taps: Vec<R>,
    /// The channel filter's memory.
    pub fir: DelayLine<C>,
    /// The squelch fade's gain.
    pub fade_gain: R,
}

impl<R, C> DemodRun<R, C> {
    /// The channel filter's memory is well formed, and there are all of its taps or none.
    pub open spec fn wf(&self) -> bool {
        &&& self.fir.wf()
        &&& self.fir_taps@.len() == 0 || self.fir_taps@.len() == FIR_TAPS
    }
}

/// `run` is a state to start from, but for its peak.
pub open spec fn is_fresh<M: SampleMath>(math: &M, run: DemodRun<M::Real, M::Iq>) -> bool {
    &&& evaluates(math, Formula::Single(ZERO), run.mixer.phase)
    &&& evaluates(math, Formula::Single(ZERO), run.mixer.dc_i)
    &&& evaluates(math, Formula::Single(ZERO), run.mixer.dc_q)
    &&& iq_evaluates(math, iq_zero(), run.prev_iq)
    &&& evaluates(math, Formula::Single(ZERO), run.deemph)
    &&& evaluates(math, Formula::Single(ZERO), run.am_prev_x)
    &&& evaluates(math, Formula::Single(ZERO), run.am_prev_y)
    &&& run.fir_taps@.len() == 0
    &&& run.fir.slots@.len() == 0
    &&& run.fir.pos == 0
    &&& evaluates(math, Formula::Single(ONE), run.fade_gain)
}

impl<R: Copy, C: Copy> DemodRun<R, C> {
    /// The state that `math` starts from.
    pub fn start<M: SampleMath<Real = R, Iq = C>>(math: &M) -> (r: Self)
        ensures
            r.wf(),
            is_fresh(math, r),
            evaluates(math, Formula::Single(FIRST_PEAK), r.agc_peak),
            r.prev_mode is None,
            r.prev_sr == 0,
    {
        DemodRun {
            mixer: Mixer { phase: math.single(ZERO), dc_i: math.single(ZERO), dc_q: math.single(ZERO) },
            prev_iq: zero_sample(math),
            agc_peak: math.single(FIRST_PEAK),
            deemph: math.single(ZERO),
            am_prev_x: math.single(ZERO),
            am_prev_y: math.single(ZERO),
            prev_mode: None,
            prev_sr: 0,
            fir_taps: Vec::new(),
            fir: DelayLine::new(),
            fade_gain: math.single(ONE),
        }
    }

}

/// The front end makes `out` of `buf`, with the mixer and the channel filter going from their
/// states in `b` to those in `a`.
pub open spec fn fronts<M: SampleMath>(
    math: &M,
    buf: Seq<u8>,
    cfg: DemodConfig,
    mode: DemodMode,
    input_sr: u32,
    rates: AudioRates,
    b: DemodRun<M::Real, M::Iq>,
    a: DemodRun<M::Real, M::Iq>,
    out: Seq<M::Iq>,
) -> bool {
    &&& a.fir_taps@.len() == FIR_TAPS
    &&& if b.fir_taps@.len() == 0 {
        is_lowpass(math, channel_cutoff(mode), rates.sr_mid, a.fir_taps@)
    } else {
        a.fir_taps@ == b.fir_taps@
    }
    &&& exists|offset: M::Real, mid: Seq<M::Iq>| #[trigger]
        fronts_by(math, buf, cfg, input_sr, rates, b, a, out, offset, mid)
}

/// The front end goes by the offset `offset` and, at the intermediate rate, the samples `mid`.
pub open spec fn fronts_by<M: SampleMath>(
    math: &M,
    buf: Seq<u8>,
    cfg: DemodConfig,
    input_sr: u32,
    rates: AudioRates,
    b: DemodRun<M::Real, M::Iq>,
    a: DemodRun<M::Real, M::Iq>,
    out: Seq<M::Iq>,
    offset: M::Real,
    mid: Seq<M::Iq>,
) -> bool {
    &&& call_ensures(M::double, (math, cfg.offset_hz), offset)
    &&& mixes_channel(
        math,
        buf,
        offset,
        input_sr,
        rates.factor1 as int,
        b.mixer,
        a.mixer,
        mid,
    )
    &&& filters_block(math, a.fir_taps@, b.fir, a.fir, mid, out)
}

/// The part of the state that the front end leaves alone is the same in `a` as in `b`.
pub open spec fn same_back<R, C>(b: DemodRun<R, C>, a: DemodRun<R, C>) -> bool {
    &&& a.prev_iq == b.prev_iq
    &&& a.agc_peak == b.agc_peak
    &&& a.deemph == b.deemph
    &&& a.am_prev_x == b.am_prev_x
    &&& a.am_prev_y == b.am_prev_y
    &&& a.prev_mode == b.prev_mode
    &&& a.prev_sr == b.prev_sr
    &&& a.fade_gain == b.fade_gain
}

/// `signal` is brought to level, faded and packed into `r`, with the peak and
/// the fade's gain going from their values in `b` to those in `a`.
pub open spec fn levels_and_fades<M: SampleMath>(
    math: &M,
    signal: Seq<M::Real>,
    rate: u32,
    open: bool,
    b: DemodRun<M::Real, M::Iq>,
    a: DemodRun<M::Real, M::Iq>,
    r: Option<Seq<u8>>,
) -> bool {
    exists|audio: Seq<M::Real>, step: M::Real, faded: Option<Seq<M::Real>>| #[trigger]
        levels_and_fades_by(math, signal, rate, open, b, a, r, audio, step, faded)
}

/// The last two stages make `audio` and then `faded` of `signal`, where the fade moves by
/// `step` per sample.
pub open spec fn levels_and_fades_by<M: SampleMath>(
    math: &M,
    signal: Seq<M::Real>,
    rate: u32,
    open: bool,
    b: DemodRun<M::Real, M::Iq>,
    a: DemodRun<M::Real, M::Iq>,
    r: Option<Seq<u8>>,
    audio: Seq<M::Real>,
    step: M::Real,
    faded: Option<Seq<M::Real>>,
) -> bool {
    &&& is_levelled(math, b.agc_peak, a.agc_peak, signal, audio)
    &&& evaluates(math, fade_step(rate), step)
    &&& is_faded(math, b.fade_gain, a.fade_gain, open, step, audio, faded)
    &&& match (faded, r) {
        (Some(samples), Some(frame)) => encodes_audio(math, samples, rate, frame),
        (None, None) => true,
        _ => false,
    }
}

/// What NBFM makes of the channel `filtered`.
pub open spec fn nbfm<M: SampleMath>(
    math: &M,
    filtered: Seq<M::Iq>,
    rates: AudioRates,
    open: bool,
    b: DemodRun<M::Real, M::Iq>,
    a: DemodRun<M::Real, M::Iq>,
    r: Option<Seq<u8>>,
) -> bool {
    &&& a.prev_iq == newest(b.prev_iq, thinned(filtered, rates.factor2 as int))
    &&& a.deemph == b.deemph
    &&& a.am_prev_x == b.am_prev_x
    &&& a.am_prev_y == b.am_prev_y
    &&& exists|phases: Seq<M::Real>, scale: M::Real, signal: Seq<M::Real>| #[trigger]
        nbfm_by(math, filtered, rates, open, b, a, r, phases, scale, signal)
}

/// NBFM demodulates to `phases`, which divided by `scale` are `signal`.
pub open spec fn nbfm_by<M: SampleMath>(
    math: &M,
    filtered: Seq<M::Iq>,
    rates: AudioRates,
    open: bool,
    b: DemodRun<M::Real, M::Iq>,
    a: DemodRun<M::Real, M::Iq>,
    r: Option<Seq<u8>>,
    phases: Seq<M::Real>,
    scale: M::Real,
    signal: Seq<M::Real>,
) -> bool {
    &&& fm_demodulates(math, b.prev_iq, thinned(filtered, rates.factor2 as int), phases)
    &&& evaluates(math, deviation_phase(2_500, rates.out_sr), scale)
    &&& divides(math, phases, scale, signal)
    &&& levels_and_fades(math, signal, rates.out_sr, open, b, a, r)
}

/// What WBFM makes of the channel `filtered`.
pub open spec fn wbfm<M: SampleMath>(
    math: &M,
    filtered: Seq<M::Iq>,
    rates: AudioRates,
    b: DemodRun<M::Real, M::Iq>,
    a: DemodRun<M::Real, M::Iq>,
    r: Option<Seq<u8>>,
) -> bool {
    &&& a.prev_iq == newest(b.prev_iq, filtered)
    &&& a.am_prev_x == b.am_prev_x
    &&& a.am_prev_y == b.am_prev_y
    &&& a.fade_gain == b.fade_gain
    &&& r is Some
    &&& exists|phases: Seq<M::Real>, scale: M::Real, scaled: Seq<M::Real>, signal: Seq<M::Real>|
        #[trigger]
        wbfm_demodulates(math, filtered, rates, b, a, phases, scale, scaled, signal)
            && wbfm_packs(math, signal, rates, b, a, r->0)
}

/// WBFM demodulates to `phases`, which divided by `scale` are `scaled` and de-emphasized are
/// `signal`.
pub open spec fn wbfm_demodulates<M: SampleMath>(
    math: &M,
    filtered: Seq<M::Iq>,
    rates: AudioRates,
    b: DemodRun<M::Real, M::Iq>,
    a: DemodRun<M::Real, M::Iq>,
    phases: Seq<M::Real>,
    scale: M::Real,
    scaled: Seq<M::Real>,
    signal: Seq<M::Real>,
) -> bool {
    &&& fm_demodulates(math, b.prev_iq, filtered, phases)
    &&& evaluates(math, deviation_phase(75_000, rates.sr_mid), scale)
    &&& divides(math, phases, scale, scaled)
    &&& deemphasizes_at(math, rates.sr_mid, b.deemph, scaled, signal)
    &&& a.deemph == newest(b.deemph, signal)
}

/// WBFM decimates `signal`, brings it to level and packs it into `frame`.
pub open spec fn wbfm_packs<M: SampleMath>(
    math: &M,
    signal: Seq<M::Real>,
    rates: AudioRates,
    b: DemodRun<M::Real, M::Iq>,
    a: DemodRun<M::Real, M::Iq>,
    frame: Seq<u8>,
) -> bool {
    exists|decimated: Seq<M::Real>, audio: Seq<M::Real>| #[trigger]
        wbfm_packs_by(math, signal, rates, b, a, frame, decimated, audio)
}

/// The decimated signal is `decimated`, and `audio` once brought to level.
pub open spec fn wbfm_packs_by<M: SampleMath>(
    math: &M,
    signal: Seq<M::Real>,
    rates: AudioRates,
    b: DemodRun<M::Real, M::Iq>,
    a: DemodRun<M::Real, M::Iq>,
    frame: Seq<u8>,
    decimated: Seq<M::Real>,
    audio: Seq<M::Real>,
) -> bool {
    &&& averages(math, signal, rates.factor2 as int, decimated)
    &&& is_levelled(math, b.agc_peak, a.agc_peak, decimated, audio)
    &&& encodes_audio(math, audio, rates.out_sr, frame)
}

/// What AM makes of the channel `filtered`.
pub open spec fn am<M: SampleMath>(
    math: &M,
    filtered: Seq<M::Iq>,
    rates: AudioRates,
    open: bool,
    b: DemodRun<M::Real, M::Iq>,
    a: DemodRun<M::Real, M::Iq>,
    r: Option<Seq<u8>>,
) -> bool {
    &&& a.prev_iq == b.prev_iq
    &&& a.deemph == b.deemph
    &&& exists|envelope: Seq<M::Real>, signal: Seq<M::Real>| #[trigger]
        am_by(math, filtered, rates, open, b, a, r, envelope, signal)
}

/// AM takes the envelope `envelope`, which without its DC offset is `signal`.
pub open spec fn am_by<M: SampleMath>(
    math: &M,
    filtered: Seq<M::Iq>,
    rates: AudioRates,
    open: bool,
    b: DemodRun<M::Real, M::Iq>,
    a: DemodRun<M::Real, M::Iq>,
    r: Option<Seq<u8>>,
    envelope: Seq<M::Real>,
    signal: Seq<M::Real>,
) -> bool {
    let channel = thinned(filtered, rates.factor2 as int);
    &&& am_demodulates(math, b.am_prev_x, b.am_prev_y, channel, envelope, signal)
    &&& a.am_prev_x == newest(b.am_prev_x, envelope)
    &&& a.am_prev_y == newest(b.am_prev_y, signal)
    &&& levels_and_fades(math, signal, rates.out_sr, open, b, a, r)
}

/// The audio path makes the frame `r`, or none, of `buf`, and its state goes from `b` to `a`.
pub open spec fn is_audio<M: SampleMath>(
    math: &M,
    buf: Seq<u8>,
    cfg: DemodConfig,
    input_sr: u32,
    open: bool,
    b: DemodRun<M::Real, M::Iq>,
    a: DemodRun<M::Real, M::Iq>,
    r: Option<Seq<u8>>,
) -> bool {
    match cfg.mode {
        None => a == b && r is None,
        Some(mode) => {
            &&& a.prev_mode == b.prev_mode
            &&& a.prev_sr == b.prev_sr
            &&& exists|rates: AudioRates, filtered: Seq<M::Iq>| #[trigger]
                is_audio_by(math, buf, cfg, mode, input_sr, open, b, a, r, rates, filtered)
        },
    }
}

/// The audio path goes by the rates `rates`, and its front end makes `filtered`.
pub open spec fn is_audio_by<M: SampleMath>(
    math: &M,
    buf: Seq<u8>,
    cfg: DemodConfig,
    mode: DemodMode,
    input_sr: u32,
    open: bool,
    b: DemodRun<M::Real, M::Iq>,
    a: DemodRun<M::Real, M::Iq>,
    r: Option<Seq<u8>>,
    rates: AudioRates,
    filtered: Seq<M::Iq>,
) -> bool {
    &&& are_rates(mode, input_sr, rates)
    &&& fronts(math, buf, cfg, mode, input_sr, rates, b, a, filtered)
    &&& demodulates(math, mode, filtered, rates, open, b, a, r)
}

/// What demodulation by `mode` makes of the channel `filtered`.
pub open spec fn demodulates<M: SampleMath>(
    math: &M,
    mode: DemodMode,
    filtered: Seq<M::Iq>,
    rates: AudioRates,
    open: bool,
    b: DemodRun<M::Real, M::Iq>,
    a: DemodRun<M::Real, M::Iq>,
    r: Option<Seq<u8>>,
) -> bool {
    match mode {
        DemodMode::NBFM => nbfm(math, filtered, rates, open, b, a, r),
        DemodMode::WBFM => wbfm(math, filtered, rates, b, a, r),
        DemodMode::AM => am(math, filtered, rates, open, b, a, r),
    }
}

/// What an optional frame holds.
pub open spec fn frame_view(frame: Option<Vec<u8>>) -> Option<Seq<u8>> {
    match frame {
        Some(v) => Some(v@),
        None => None,
    }
}

/// Mixes, decimates and filters the channel out of `buf`.
fn front_end<M: SampleMath>(
    math: &M,
    buf: &[u8],
    cfg: &DemodConfig,
    mode: DemodMode,
    input_sr: u32,
    rates: &AudioRates,
    run: &mut DemodRun<M::Real, M::Iq>,
) -> (r: Vec<M::Iq>)
    requires
        old(run).wf(),
        are_rates(mode, input_sr, *rates),
    ensures
        final(run).wf(),
        same_back(*old(run), *final(run)),
        fronts(math, buf@, *cfg, mode, input_sr, *rates, *old(run), *final(run), r@),
{
    if run.fir_taps.len() == 0 {
        let cutoff: u32 = match mode {
            DemodMode::NBFM => 6_250,
            DemodMode::WBFM => 90_000,
            DemodMode::AM => 5_000,
        };
        run.fir_taps = make_lpf_fir(math, cutoff, rates.sr_mid, FIR_TAPS);
    }
    let offset = math.double(cfg.offset_hz);
    let mid = mix_decimate(math, buf, offset, input_sr, rates.factor1, &mut run.mixer);
    let out = apply_fir_c(math, mid.as_slice(), run.fir_taps.as_slice(), &mut run.fir);
    assert(fronts_by(math, buf@, *cfg, input_sr, *rates, *old(run), *run, out@, offset, mid@));
    out
}

/// Brings `signal` to level, fades it and packs it.
fn level_and_fade<M: SampleMath>(
    math: &M,
    signal: &[M::Real],
    rate: u32,
    open: bool,
    run: &mut DemodRun<M::Real, M::Iq>,
) -> (r: Option<Vec<u8>>)
    requires
        old(run).wf(),
    ensures
        final(run).wf(),
        *final(run) == (DemodRun {
            agc_peak: final(run).agc_peak,
            fade_gain: final(run).fade_gain,
            ..*old(run)
        }),
        levels_and_fades(math, signal@, rate, open, *old(run), *final(run), frame_view(r)),
{
    let audio = agc(math, signal, &mut run.agc_peak);
    let step = step_of_fade(math, rate);
    let faded = apply_fade(math, audio.as_slice(), &mut run.fade_gain, open, step);
    let ghost heard = signal_view(faded);
    let r = match faded {
        Some(samples) => Some(encode_audio_frame(math, samples.as_slice(), rate)),
        None => None,
    };
    assert(levels_and_fades_by(
        math,
        signal@,
        rate,
        open,
        *old(run),
        *run,
        frame_view(r),
        audio@,
        step,
        heard,
    ));
    r
}

/// NBFM: thins the channel out to the audio rate and demodulates it.
fn demodulate_nbfm<M: SampleMath>(
    math: &M,
    filtered: &[M::Iq],
    rates: &AudioRates,
    open: bool,
    run: &mut DemodRun<M::Real, M::Iq>,
) -> (r: Option<Vec<u8>>)
    requires
        old(run).wf(),
        rates.factor2 > 0,
    ensures
        final(run).wf(),
        same_front(*old(run), *final(run)),
        nbfm(math, filtered@, *rates, open, *old(run), *final(run), frame_view(r)),
{
    let channel = thin(filtered, rates.factor2);
    let phases = fm_demod(math, channel.as_slice(), &mut run.prev_iq);
    let scale = deviation_scale(math, 2_500, rates.out_sr);
    let signal = divide_all(math, phases.as_slice(), scale);
    let ghost between = *run;
    let r = level_and_fade(math, signal.as_slice(), rates.out_sr, open, run);
    proof {
        let b = *old(run);
        lemma_levels_and_fades_from(math, signal@, rates.out_sr, open, between, b, *run, frame_view(r));
        assert(nbfm_by(
            math,
            filtered@,
            *rates,
            open,
            b,
            *run,
            frame_view(r),
            phases@,
            scale,
            signal@,
        ));
    }
    r
}

/// WBFM: demodulates the channel at the intermediate rate and brings it to the audio rate.
fn demodulate_wbfm<M: SampleMath>(
    math: &M,
    filtered: &[M::Iq],
    rates: &AudioRates,
    run: &mut DemodRun<M::Real, M::Iq>,
) -> (r: Option<Vec<u8>>)
    requires
        old(run).wf(),
        rates.factor2 > 0,
    ensures
        final(run).wf(),
        same_front(*old(run), *final(run)),
        wbfm(math, filtered@, *rates, *old(run), *final(run), frame_view(r)),
{
    let phases = fm_demod(math, filtered, &mut run.prev_iq);
    let scale = deviation_scale(math, 75_000, rates.sr_mid);
    let scaled = divide_all(math, phases.as_slice(), scale);
    let signal = deemphasis(math, scaled.as_slice(), &mut run.deemph, rates.sr_mid);
    let decimated = decimate_r(math, signal.as_slice(), rates.factor2);
    let audio = agc(math, decimated.as_slice(), &mut run.agc_peak);
    let frame = encode_audio_frame(math, audio.as_slice(), rates.out_sr);
    proof {
        let b = *old(run);
        assert(wbfm_packs_by(math, signal@, *rates, b, *run, frame@, decimated@, audio@));
        assert(wbfm_demodulates(
            math,
            filtered@,
            *rates,
            b,
            *run,
            phases@,
            scale,
            scaled@,
            signal@,
        ));
    }
    Some(frame)
}

/// AM: thins the channel out to the audio rate and takes its envelope.
fn demodulate_am<M: SampleMath>(
    math: &M,
    filtered: &[M::Iq],
    rates: &AudioRates,
    open: bool,
    run: &mut DemodRun<M::Real, M::Iq>,
) -> (r: Option<Vec<u8>>)
    requires
        old(run).wf(),
        rates.factor2 > 0,
    ensures
        final(run).wf(),
        same_front(*old(run), *final(run)),
        am(math, filtered@, *rates, open, *old(run), *final(run), frame_view(r)),
{
    let channel = thin(filtered, rates.factor2);
    let signal = am_demod(math, channel.as_slice(), &mut run.am_prev_x, &mut run.am_prev_y);
    let ghost between = *run;
    let r = level_and_fade(math, signal.as_slice(), rates.out_sr, open, run);
    proof {
        let b = *old(run);
        let envelope = choose|envelope: Seq<M::Real>| #[trigger]
            am_demodulates(math, b.am_prev_x, b.am_prev_y, channel@, envelope, signal@)
                && between.am_prev_x == newest(b.am_prev_x, envelope);
        lemma_levels_and_fades_from(math, signal@, rates.out_sr, open, between, b, *run, frame_view(r));
        assert(am_by(
            math,
            filtered@,
            *rates,
            open,
            b,
            *run,
            frame_view(r),
            envelope,
            signal@,
        ));
    }
    r
}

/// The part of the state that demodulation leaves alone is the same in `a` as in `b`.
pub open spec fn same_front<R, C>(b: DemodRun<R, C>, a: DemodRun<R, C>) -> bool {
    &&& a.mixer == b.mixer
    &&& a.prev_mode == b.prev_mode
    &&& a.prev_sr == b.prev_sr
    &&& a.fir_taps == b.fir_taps
    &&& a.fir == b.fir
}

/// The last two stages depend on no more of the state than the peak and the fade's gain.
proof fn lemma_levels_and_fades_from<M: SampleMath>(
    math: &M,
    signal: Seq<M::Real>,
    rate: u32,
    open: bool,
    b: DemodRun<M::Real, M::Iq>,
    c: DemodRun<M::Real, M::Iq>,
    a: DemodRun<M::Real, M::Iq>,
    r: Option<Seq<u8>>,
)
    requires
        levels_and_fades(math, signal, rate, open, b, a, r),
        b.agc_peak == c.agc_peak,
        b.fade_gain == c.fade_gain,
    ensures
        levels_and_fades(math, signal, rate, open, c, a, r),
{
    let (audio, step, faded) = choose|
        audio: Seq<M::Real>,
        step: M::Real,
        faded: Option<Seq<M::Real>>,
    | #[trigger]
        levels_and_fades_by(math, signal, rate, open, b, a, r, audio, step, faded);
    assert(levels_and_fades_by(math, signal, rate, open, c, a, r, audio, step, faded));
}

/// The two parts of the audio path make up the whole.
proof fn lemma_path<M: SampleMath>(
    math: &M,
    buf: Seq<u8>,
    cfg: DemodConfig,
    mode: DemodMode,
    input_sr: u32,
    open: bool,
    rates: AudioRates,
    b: DemodRun<M::Real, M::Iq>,
    c: DemodRun<M::Real, M::Iq>,
    a: DemodRun<M::Real, M::Iq>,
    filtered: Seq<M::Iq>,
    r: Option<Seq<u8>>,
)
    requires
        cfg.mode == Some(mode),
        are_rates(mode, input_sr, rates),
        fronts(math, buf, cfg, mode, input_sr, rates, b, c, filtered),
        same_back(b, c),
        same_front(c, a),
        demodulates(math, mode, filtered, rates, open, c, a, r),
    ensures
        is_audio(math, buf, cfg, input_sr, open, b, a, r),
{
    let (offset, mid) = choose|offset: M::Real, mid: Seq<M::Iq>| #[trigger]
        fronts_by(math, buf, cfg, input_sr, rates, b, c, filtered, offset, mid);
    assert(fronts_by(math, buf, cfg, input_sr, rates, b, a, filtered, offset, mid));
    match mode {
        DemodMode::NBFM => {
            let (phases, scale, signal) = choose|
                phases: Seq<M::Real>,
                scale: M::Real,
                signal: Seq<M::Real>,
            | #[trigger]
                nbfm_by(math, filtered, rates, open, c, a, r, phases, scale, signal);
            lemma_levels_and_fades_from(math, signal, rates.out_sr, open, c, b, a, r);
            assert(nbfm_by(math, filtered, rates, open, b, a, r, phases, scale, signal));
        },
        DemodMode::WBFM => {
            let (phases, scale, scaled, signal) = choose|
                phases: Seq<M::Real>,
                scale: M::Real,
                scaled: Seq<M::Real>,
                signal: Seq<M::Real>,
            | #[trigger]
                wbfm_demodulates(math, filtered, rates, c, a, phases, scale, scaled, signal)
                    && wbfm_packs(math, signal, rates, c, a, r->0);
            let (decimated, audio) = choose|decimated: Seq<M::Real>, audio: Seq<M::Real>| #[trigger]
                wbfm_packs_by(math, signal, rates, c, a, r->0, decimated, audio);
            assert(wbfm_packs_by(math, signal, rates, b, a, r->0, decimated, audio));
            assert(wbfm_demodulates(math, filtered, rates, b, a, phases, scale, scaled, signal));
        },
        DemodMode::AM => {
            let (envelope, signal) = choose|envelope: Seq<M::Real>, signal: Seq<M::Real>| #[trigger]
                am_by(math, filtered, rates, open, c, a, r, envelope, signal);
            lemma_levels_and_fades_from(math, signal, rates.out_sr, open, c, b, a, r);
            assert(am_by(math, filtered, rates, open, b, a, r, envelope, signal));
        },
    }
    assert(is_audio_by(math, buf, cfg, mode, input_sr, open, b, a, r, rates, filtered));
}

/// Demodulates the channel that `cfg` chooses out of `buf`, which holds samples at `input_sr`
/// samples a second, into an audio frame. There is none when no mode is chosen or when the
/// squelch, which WBFM does not heed, has silenced the whole block.
pub fn process_audio<M: SampleMath>(
    math: &M,
    buf: &[u8],
    cfg: &DemodConfig,
    run: &mut DemodRun<M::Real, M::Iq>,
    input_sr: u32,
    squelch_open: bool,
) -> (r: Option<Vec<u8>>)
    requires
        old(run).wf(),
    ensures
        final(run).wf(),
        is_audio(
            math,
            buf@,
            *cfg,
            input_sr,
            squelch_open,
            *old(run),
            *final(run),
            frame_view(r),
        ),
{
    let mode = match cfg.mode {
        Some(mode) => mode,
        None => {
            return None;
        },
    };
    let rates = audio_rates(mode, input_sr);
    let filtered = front_end(math, buf, cfg, mode, input_sr, &rates, run);
    let ghost between = *run;
    let r = match mode {
        DemodMode::NBFM => demodulate_nbfm(math, filtered.as_slice(), &rates, squelch_open, run),
        DemodMode::WBFM => demodulate_wbfm(math, filtered.as_slice(), &rates, run),
        DemodMode::AM => demodulate_am(math, filtered.as_slice(), &rates, squelch_open, run),
    };
    proof {
        lemma_path(
            math,
            buf@,
            *cfg,
            mode,
            input_sr,
            squelch_open,
            rates,
            *old(run),
            between,
            *run,
            filtered@,
            frame_view(r),
        );
    }
    r
}

/// A decimation toward `target` from at least that rate ends between `target` and twice
/// `target`; from a rate of at least `k` times `target` it ends within one `k`th above it.
proof fn lemma_decimated_rate(rate: int, target: int, k: int)
    requires
        0 < target,
        1 <= k,
        k * target <= rate,
    ensures
        factor_to(rate, target) >= k,
        target <= rate / factor_to(rate, target),
        k * (rate / factor_to(rate, target)) < (k + 1) * target,
{
    assert(target <= rate) by (nonlinear_arith)
        requires
            0 < target,
            1 <= k,
            k * target <= rate,
    ;
    let f = rate / target;
    let out = rate / f;
    lemma_fundamental_div_mod(rate, target);
    lemma_mod_bound(rate, target);
    assert(f >= k) by (nonlinear_arith)
        requires
            rate == target * f + rate % target,
            rate % target < target,
            k * target <= rate,
            0 < target,
    ;
    lemma_fundamental_div_mod(rate, f);
    lemma_mod_bound(rate, f);
    assert(target <= out) by (nonlinear_arith)
        requires
            rate == target * f + rate % target,
            0 <= rate % target,
            rate == f * out + rate % f,
            rate % f < f,
            f >= 1,
    ;
    assert(k * out < (k + 1) * target) by (nonlinear_arith)
        requires
            rate == target * f + rate % target,
            rate % target < target,
            rate == f * out + rate % f,
            0 <= rate % f,
            f >= k,
            k >= 1,
            0 < target,
    ;
}

/// At an input rate of at least the coarse target the intermediate rate lies between that
/// target (250 kHz, or 400 kHz for WBFM) and twice it; below it the input is not decimated.
pub proof fn law_intermediate_rate(mode: DemodMode, input_sr: u32, rates: AudioRates)
    requires
        are_rates(mode, input_sr, rates),
    ensures
        rates.factor1 >= 1,
        rates.factor2 >= 1,
        input_sr >= coarse_target(mode) ==> coarse_target(mode) <= rates.sr_mid < 2 * coarse_target(
            mode,
        ),
        input_sr < coarse_target(mode) ==> rates.sr_mid == input_sr,
{
    if input_sr >= coarse_target(mode) {
        lemma_decimated_rate(input_sr as int, coarse_target(mode), 1);
    }
    if rates.sr_mid >= fine_target(mode) {
        lemma_decimated_rate(rates.sr_mid as int, fine_target(mode), 1);
    }
}

/// At the sample rates that the receiver supports, 0.25 MSPS and above, the audio rate lies
/// between its target (50 kHz, or 24 kHz for AM) and a fifth, for AM a tenth, above it. So it
/// fits in the 16 bits that an audio frame has for it.
pub proof fn law_audio_rate(mode: DemodMode, input_sr: u32, rates: AudioRates)
    requires
        are_rates(mode, input_sr, rates),
        input_sr >= 250_000,
    ensures
        fine_target(mode) <= rates.out_sr,
        mode != DemodMode::AM ==> rates.out_sr < 60_000,
        mode == DemodMode::AM ==> rates.out_sr < 26_400,
        rates.out_sr as int % 0x1_0000 == rates.out_sr,
{
    law_intermediate_rate(mode, input_sr, rates);
    if mode == DemodMode::AM {
        lemma_decimated_rate(rates.sr_mid as int, fine_target(mode), 10);
    } else {
        lemma_decimated_rate(rates.sr_mid as int, fine_target(mode), 5);
    }
}

/// When no mode is chosen there is no audio, and the state stays as it is.
pub proof fn law_off<M: SampleMath>(
    math: &M,
    buf: Seq<u8>,
    cfg: DemodConfig,
    input_sr: u32,
    open: bool,
    b: DemodRun<M::Real, M::Iq>,
    a: DemodRun<M::Real, M::Iq>,
    r: Option<Seq<u8>>,
)
    requires
        cfg.mode is None,
        is_audio(math, buf, cfg, input_sr, open, b, a, r),
    ensures
        r is None,
        a == b,
{
}

/// WBFM does not heed the squelch, and always gives a frame.
pub proof fn law_wbfm_has_no_squelch<M: SampleMath>(
    math: &M,
    buf: Seq<u8>,
    cfg: DemodConfig,
    input_sr: u32,
    open: bool,
    b: DemodRun<M::Real, M::Iq>,
    a: DemodRun<M::Real, M::Iq>,
    r: Option<Seq<u8>>,
)
    requires
        cfg.mode == Some(DemodMode::WBFM),
        is_audio(math, buf, cfg, input_sr, open, b, a, r),
    ensures
        r is Some,
        is_audio(math, buf, cfg, input_sr, !open, b, a, r),
{
    let (rates, filtered) = choose|rates: AudioRates, filtered: Seq<M::Iq>| #[trigger]
        is_audio_by(math, buf, cfg, DemodMode::WBFM, input_sr, open, b, a, r, rates, filtered);
    assert(is_audio_by(
        math,
        buf,
        cfg,
        DemodMode::WBFM,
        input_sr,
        !open,
        b,
        a,
        r,
        rates,
        filtered,
    ));
}

/// An open squelch lets every block through.
pub proof fn law_open_squelch_is_heard<M: SampleMath>(
    math: &M,
    buf: Seq<u8>,
    cfg: DemodConfig,
    input_sr: u32,
    b: DemodRun<M::Real, M::Iq>,
    a: DemodRun<M::Real, M::Iq>,
    r: Option<Seq<u8>>,
)
    requires
        cfg.mode is Some,
        is_audio(math, buf, cfg, input_sr, true, b, a, r),
    ensures
        r is Some,
{
}

/// The audio path does not heed the squelch's threshold: that is for `squelch_open` to do.
pub proof fn law_threshold_is_not_heeded<M: SampleMath>(
    math: &M,
    buf: Seq<u8>,
    cfg: DemodConfig,
    squelch_db: u64,
    input_sr: u32,
    open: bool,
    b: DemodRun<M::Real, M::Iq>,
    a: DemodRun<M::Real, M::Iq>,
    r: Option<Seq<u8>>,
)
    requires
        is_audio(math, buf, cfg, input_sr, open, b, a, r),
    ensures
        is_audio(math, buf, DemodConfig { squelch_db, ..cfg }, input_sr, open, b, a, r),
{
    let other = DemodConfig { squelch_db, ..cfg };
    if let Some(mode) = cfg.mode {
        let (rates, filtered) = choose|rates: AudioRates, filtered: Seq<M::Iq>| #[trigger]
            is_audio_by(math, buf, cfg, mode, input_sr, open, b, a, r, rates, filtered);
        let (offset, mid) = choose|offset: M::Real, mid: Seq<M::Iq>| #[trigger]
            fronts_by(math, buf, cfg, input_sr, rates, b, a, filtered, offset, mid);
        assert(fronts_by(math, buf, other, input_sr, rates, b, a, filtered, offset, mid));
        assert(is_audio_by(math, buf, other, mode, input_sr, open, b, a, r, rates, filtered));
    }
}

/// The last two stages give nothing where a closed fade stands still unheard.
proof fn lemma_ends_in_silence<M: SampleMath>(
    math: &M,
    signal: Seq<M::Real>,
    rate: u32,
    b: DemodRun<M::Real, M::Iq>,
    a: DemodRun<M::Real, M::Iq>,
    r: Option<Seq<u8>>,
)
    requires
        levels_and_fades(math, signal, rate, false, b, a, r),
        stands_silent(math, b.fade_gain, rate),
    ensures
        r is None,
        a.fade_gain == b.fade_gain,
{
    let (audio, step, faded) = choose|
        audio: Seq<M::Real>,
        step: M::Real,
        faded: Option<Seq<M::Real>>,
    | #[trigger]
        levels_and_fades_by(math, signal, rate, false, b, a, r, audio, step, faded);
    law_silence_lasts(math, b.fade_gain, a.fade_gain, step, audio, faded);
}

/// At `gain` nothing is heard, and a closed fade at `rate` stays there. So it is with the gain
/// 0.
pub open spec fn stands_silent<M: SampleMath>(math: &M, gain: M::Real, rate: u32) -> bool {
    &&& forall|step: M::Real, x: M::Real|
        #![trigger evaluates(math, fade_step(rate), step), evaluates(math, next_gain(gain, false, step), x)]
        evaluates(math, fade_step(rate), step) && evaluates(
            math,
            next_gain(gain, false, step),
            x,
        ) ==> x == gain
    &&& forall|flag: bool| #[trigger] is_inaudible(math, gain, flag) ==> flag
}

/// Once the fade has run out, a closed squelch lets nothing through, and the fade stays as it
/// is.
pub proof fn law_closed_squelch_stays_silent<M: SampleMath>(
    math: &M,
    buf: Seq<u8>,
    cfg: DemodConfig,
    mode: DemodMode,
    input_sr: u32,
    b: DemodRun<M::Real, M::Iq>,
    a: DemodRun<M::Real, M::Iq>,
    r: Option<Seq<u8>>,
    rates: AudioRates,
)
    requires
        cfg.mode == Some(mode),
        mode != DemodMode::WBFM,
        are_rates(mode, input_sr, rates),
        stands_silent(math, b.fade_gain, rates.out_sr),
        is_audio(math, buf, cfg, input_sr, false, b, a, r),
    ensures
        r is None,
        a.fade_gain == b.fade_gain,
{
    let (own, filtered) = choose|own: AudioRates, filtered: Seq<M::Iq>| #[trigger]
        is_audio_by(math, buf, cfg, mode, input_sr, false, b, a, r, own, filtered);
    assert(own == rates);
    if mode == DemodMode::NBFM {
        let (phases, scale, signal) = choose|
            phases: Seq<M::Real>,
            scale: M::Real,
            signal: Seq<M::Real>,
        | #[trigger]
            nbfm_by(math, filtered, rates, false, b, a, r, phases, scale, signal);
        lemma_ends_in_silence(math, signal, rates.out_sr, b, a, r);
    } else {
        let (envelope, signal) = choose|envelope: Seq<M::Real>, signal: Seq<M::Real>| #[trigger]
            am_by(math, filtered, rates, false, b, a, r, envelope, signal);
        lemma_ends_in_silence(math, signal, rates.out_sr, b, a, r);
    }
}

/// The number of audio samples that a buffer of `bytes` bytes gives.
pub open spec fn audio_len(mode: DemodMode, rates: AudioRates, bytes: int) -> int {
    let mid = bytes / 2 / rates.factor1 as int;
    match mode {
        DemodMode::WBFM => mid / rates.factor2 as int,
        _ => (mid + rates.factor2 - 1) / rates.factor2 as int,
    }
}

/// `frame` is an audio frame of `count` samples at `rate`.
pub open spec fn is_audio_frame_of(frame: Seq<u8>, rate: u32, count: int) -> bool {
    exists|values: Seq<i16>| #[trigger]
        audio_frame(rate, values) == frame && values.len() == count
}

proof fn lemma_faded_frame<M: SampleMath>(
    math: &M,
    signal: Seq<M::Real>,
    rate: u32,
    open: bool,
    b: DemodRun<M::Real, M::Iq>,
    a: DemodRun<M::Real, M::Iq>,
    frame: Seq<u8>,
)
    requires
        levels_and_fades(math, signal, rate, open, b, a, Some(frame)),
    ensures
        is_audio_frame_of(frame, rate, signal.len() as int),
{
    let (audio, step, faded) = choose|
        audio: Seq<M::Real>,
        step: M::Real,
        faded: Option<Seq<M::Real>>,
    | #[trigger]
        levels_and_fades_by(math, signal, rate, open, b, a, Some(frame), audio, step, faded);
    let samples = faded->0;
    let values = choose|values: Seq<i16>| #[trigger]
        in_pcm(math, samples, values) && frame == audio_frame(rate, values);
    assert(audio_frame(rate, values) == frame);
}

/// What the audio path gives is an audio frame at the audio rate, with as many samples as the
/// two decimations leave of the buffer.
pub proof fn law_audio_frame<M: SampleMath>(
    math: &M,
    buf: Seq<u8>,
    cfg: DemodConfig,
    mode: DemodMode,
    input_sr: u32,
    open: bool,
    b: DemodRun<M::Real, M::Iq>,
    a: DemodRun<M::Real, M::Iq>,
    frame: Seq<u8>,
    rates: AudioRates,
)
    requires
        cfg.mode == Some(mode),
        are_rates(mode, input_sr, rates),
        is_audio(math, buf, cfg, input_sr, open, b, a, Some(frame)),
    ensures
        is_audio_frame_of(frame, rates.out_sr, audio_len(mode, rates, buf.len() as int)),
{
    let (own, filtered) = choose|own: AudioRates, filtered: Seq<M::Iq>| #[trigger]
        is_audio_by(math, buf, cfg, mode, input_sr, open, b, a, Some(frame), own, filtered);
    law_intermediate_rate(mode, input_sr, rates);
    let mid = filtered.len() as int;
    assert(0 <= (mid + rates.factor2 - 1) / rates.factor2 as int) by {
        lemma_div_pos_is_pos(mid + rates.factor2 - 1, rates.factor2 as int);
    }
    match mode {
        DemodMode::NBFM => {
            let (phases, scale, signal) = choose|
                phases: Seq<M::Real>,
                scale: M::Real,
                signal: Seq<M::Real>,
            | #[trigger]
                nbfm_by(math, filtered, rates, open, b, a, Some(frame), phases, scale, signal);
            lemma_faded_frame(math, signal, rates.out_sr, open, b, a, frame);
        },
        DemodMode::WBFM => {
            let (phases, scale, scaled, signal) = choose|
                phases: Seq<M::Real>,
                scale: M::Real,
                scaled: Seq<M::Real>,
                signal: Seq<M::Real>,
            | #[trigger]
                wbfm_demodulates(math, filtered, rates, b, a, phases, scale, scaled, signal)
                    && wbfm_packs(math, signal, rates, b, a, frame);
            let (decimated, audio) = choose|decimated: Seq<M::Real>, audio: Seq<M::Real>| #[trigger]
                wbfm_packs_by(math, signal, rates, b, a, frame, decimated, audio);
            let values = choose|values: Seq<i16>| #[trigger]
                in_pcm(math, audio, values) && frame == audio_frame(rates.out_sr, values);
            assert(audio_frame(rates.out_sr, values) == frame);
        },
        DemodMode::AM => {
            let (envelope, signal) = choose|envelope: Seq<M::Real>, signal: Seq<M::Real>| #[trigger]
                am_by(math, filtered, rates, open, b, a, Some(frame), envelope, signal);
            lemma_faded_frame(math, signal, rates.out_sr, open, b, a, frame);
        },
    }
}

/// A demodulator starts with the gain control's peak at 0.01.
pub proof fn law_first_peak<M: SampleMath>(math: &M, peak: M::Real)
    requires
        evaluates(math, Formula::Single(FIRST_PEAK), peak),
    ensures
        call_ensures(M::single, (math, 0x3C23_D70A), peak),
{
}

} // verus!
