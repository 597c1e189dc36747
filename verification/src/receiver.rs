//! One turn of the receiver: what is done with each buffer read from the radio.

use crate::audio::{
    audio_len, frame_view, is_audio, is_audio_by, is_fresh, law_audio_frame, process_audio,
    AudioRates, DemodRun, FIRST_PEAK,
};
use crate::config::{same_mode, DemodConfig, DemodMode};
use crate::formula::{evaluates, iq_evaluates, Formula};
use crate::frame::{
    audio_frame, encode_spectrum_frame, encodes_spectrum, encodes_spectrum_by,
    law_audio_frame_reads_back, law_spectrum_frame_reads_back, FRAME_AUDIO, FRAME_SPECTRUM,
};
use crate::math::{SampleMath, FFT_AVERAGES, FFT_SIZE};
use crate::measure::{is_exact, is_ordered, takes_whole_part, Measure};
use crate::settings::Settings;
use crate::spectrum::{
    compute_spectrum, downsample, is_downsampled, is_spectrum, is_window, make_hann_window,
};
use crate::squelch::{law_no_squelch, law_squelch_hears_the_channel, opens, squelch_open};
use vstd::prelude::*;

verus! {

/// The time between two spectrum frames, in nanoseconds: 40 ms.
pub const SEND_INTERVAL: u64 = 40_000_000;

/// A change to make at the radio.
#[derive(Debug, Clone, Copy, PartialEq, Eq, Structural)]
pub enum Tuning {
    /// Centre frequency in Hz.
    CentreFreq(u32),
    /// Gain in tenths of a dB.
    Gain(i32),
    /// Sample rate in Hz.
    SampleRate(u32),
}

/// What the radio is set to.
#[derive(Debug, Clone, Copy, PartialEq, Eq, Structural)]
pub struct Tuned {
    pub centre_freq: u32,
    pub sample_rate: u32,
    pub gain_tenths: i32,
}

/// What the radio is to be set to for `s`.
pub open spec fn tuned_to(s: Settings) -> Tuned {
    Tuned { centre_freq: s.centre_freq, sample_rate: s.sample_rate, gain_tenths: s.gain_tenths }
}

/// `change`, or nothing where it is not needed.
pub open spec fn only_if(needed: bool, change: Tuning) -> Seq<Tuning> {
    if needed {
        seq![change]
    } else {
        Seq::empty()
    }
}

/// The changes that take the radio from `from` to `to`: those that are needed, in this order.
pub open spec fn changes(from: Tuned, to: Tuned) -> Seq<Tuning> {
    only_if(from.centre_freq != to.centre_freq, Tuning::CentreFreq(to.centre_freq)) + only_if(
        from.gain_tenths != to.gain_tenths,
        Tuning::Gain(to.gain_tenths),
    ) + only_if(from.sample_rate != to.sample_rate, Tuning::SampleRate(to.sample_rate))
}

/// What the radio is set to after `change`.
pub open spec fn changed(tuned: Tuned, change: Tuning) -> Tuned {
    match change {
        Tuning::CentreFreq(centre_freq) => Tuned { centre_freq, ..tuned },
        Tuning::Gain(gain_tenths) => Tuned { gain_tenths, ..tuned },
        Tuning::SampleRate(sample_rate) => Tuned { sample_rate, ..tuned },
    }
}

/// The changes that a radio needs at first to be set to `s`.
pub fn first_tuning(s: &Settings) -> (r: Vec<Tuning>)
    ensures
        r@ == seq![
            Tuning::SampleRate(s.sample_rate),
            Tuning::CentreFreq(s.centre_freq),
            Tuning::Gain(s.gain_tenths),
        ],
{
    let mut r: Vec<Tuning> = Vec::new();
    r.push(Tuning::SampleRate(s.sample_rate));
    r.push(Tuning::CentreFreq(s.centre_freq));
    r.push(Tuning::Gain(s.gain_tenths));
    assert(r@ =~= seq![
        Tuning::SampleRate(s.sample_rate),
        Tuning::CentreFreq(s.centre_freq),
        Tuning::Gain(s.gain_tenths),
    ]);
    r
}

/// The changes that take a radio set to `from` to `s`.
fn retuning(from: &Tuned, s: &Settings) -> (r: Vec<Tuning>)
    ensures
        r@ == changes(*from, tuned_to(*s)),
{
    let mut r: Vec<Tuning> = Vec::new();
    if s.centre_freq != from.centre_freq {
        r.push(Tuning::CentreFreq(s.centre_freq));
    }
    if s.gain_tenths != from.gain_tenths {
        r.push(Tuning::Gain(s.gain_tenths));
    }
    if s.sample_rate != from.sample_rate {
        r.push(Tuning::SampleRate(s.sample_rate));
    }
    assert(r@ =~= changes(*from, tuned_to(*s)));
    r
}

/// The state of the receiver, kept from buffer to buffer.
#[derive(Debug)]
pub struct Receiver<R, C> {
    /// What the radio is set to.
    pub tuned: Tuned,
    /// When the last spectrum frame was made, in nanoseconds.
    pub last_send: u64,
    /// The state of the demodulator.
    pub run: DemodRun<R, C>,
    /// Whether the squelch was open at the last spectrum.
    pub squelch_open: bool,
    /// The window of the spectrum transform.
    pub window: Vec<R>,
}

impl<R, C> Receiver<R, C> {
    /// The demodulator's state is well formed and the window has the size of the transform.
    pub open spec fn wf(&self) -> bool {
        &&& self.run.wf()
        &&& self.window@.len() == FFT_SIZE
    }
}

/// What comes of one turn: changes to make at the radio, and frames to send.
#[derive(Debug)]
pub struct Turn {
    pub tuning: Vec<Tuning>,
    pub frames: Vec<Vec<u8>>,
}

/// What the frames of a turn hold.
pub open spec fn frame_views(frames: Seq<Vec<u8>>) -> Seq<Seq<u8>> {
    Seq::new(frames.len(), |i: int| frames[i]@)
}

/// A frame, where there is one.
pub open spec fn optional(frame: Option<Seq<u8>>) -> Seq<Seq<u8>> {
    match frame {
        Some(f) => seq![f],
        None => Seq::empty(),
    }
}

/// Whether a spectrum is due at `now`.
pub open spec fn spectrum_due(last_send: u64, now: u64) -> bool {
    now - last_send >= SEND_INTERVAL
}

/// The demodulator starts afresh where the mode or the sample rate is not that of its state,
/// but for the gain control's peak; else it goes on.
pub open spec fn prepares<M: SampleMath>(
    math: &M,
    b: DemodRun<M::Real, M::Iq>,
    mode: Option<DemodMode>,
    rate: u32,
    a: DemodRun<M::Real, M::Iq>,
) -> bool {
    if b.prev_mode == mode && b.prev_sr == rate {
        a == b
    } else {
        &&& is_fresh(math, a)
        &&& a.agc_peak == b.agc_peak
        &&& a.prev_mode == mode
        &&& a.prev_sr == rate
    }
}

/// The spectrum of `buf` is packed into `frame`, and by it the squelch is found to be `open`
/// or not.
pub open spec fn shows<M: SampleMath>(
    math: &M,
    buf: Seq<u8>,
    window: Seq<M::Real>,
    s: Settings,
    cfg: DemodConfig,
    frame: Seq<u8>,
    open: bool,
) -> bool {
    exists|spectrum: Seq<M::Real>, bins: Seq<M::Real>| #[trigger]
        shows_by(math, buf, window, s, cfg, frame, open, spectrum, bins)
}

/// The spectrum is `spectrum`, and `bins` as it is displayed.
pub open spec fn shows_by<M: SampleMath>(
    math: &M,
    buf: Seq<u8>,
    window: Seq<M::Real>,
    s: Settings,
    cfg: DemodConfig,
    frame: Seq<u8>,
    open: bool,
    spectrum: Seq<M::Real>,
    bins: Seq<M::Real>,
) -> bool {
    &&& is_spectrum(math, buf, window, spectrum)
    &&& is_downsampled(math, spectrum, bins)
    &&& encodes_spectrum(math, bins, s, frame)
    &&& opens(math, bins, cfg, s.sample_rate, open)
}

/// One turn with the buffer `buf` takes the receiver from `b` to `a`, with the given changes
/// to make and frames to send.
///
/// The spectrum frame, where one is due, goes before the audio frame, and the squelch that it
/// finds already holds for that audio.
pub open spec fn turns<M: SampleMath>(
    math: &M,
    b: Receiver<M::Real, M::Iq>,
    a: Receiver<M::Real, M::Iq>,
    buf: Seq<u8>,
    s: Settings,
    cfg: DemodConfig,
    now: u64,
    tuning: Seq<Tuning>,
    frames: Seq<Seq<u8>>,
) -> bool {
    &&& tuning == changes(b.tuned, tuned_to(s))
    &&& a.tuned == tuned_to(s)
    &&& a.window == b.window
    &&& a.last_send == (if spectrum_due(b.last_send, now) { now } else { b.last_send })
    &&& exists|
        spectrum: Option<Seq<u8>>,
        run: DemodRun<M::Real, M::Iq>,
        audio: Option<Seq<u8>>,
    | #[trigger]
        turns_by(math, b, a, buf, s, cfg, now, frames, spectrum, run, audio)
}

/// The turn makes the spectrum frame `spectrum`, where one is due, and the audio frame `audio`,
/// where there is one; the demodulator goes on from `run`.
pub open spec fn turns_by<M: SampleMath>(
    math: &M,
    b: Receiver<M::Real, M::Iq>,
    a: Receiver<M::Real, M::Iq>,
    buf: Seq<u8>,
    s: Settings,
    cfg: DemodConfig,
    now: u64,
    frames: Seq<Seq<u8>>,
    spectrum: Option<Seq<u8>>,
    run: DemodRun<M::Real, M::Iq>,
    audio: Option<Seq<u8>>,
) -> bool {
    &&& if spectrum_due(b.last_send, now) {
        spectrum is Some && shows(math, buf, b.window@, s, cfg, spectrum->0, a.squelch_open)
    } else {
        spectrum is None && a.squelch_open == b.squelch_open
    }
    &&& prepares(math, b.run, cfg.mode, s.sample_rate, run)
    &&& is_audio(math, buf, cfg, s.sample_rate, a.squelch_open, run, a.run, audio)
    &&& frames == optional(spectrum) + optional(audio)
}

impl<R: Copy, C: Copy> Receiver<R, C> {
    /// The receiver at `now`, with its radio set to `s`. The squelch is open until a spectrum
    /// tells otherwise.
    pub fn start<M: SampleMath<Real = R, Iq = C>>(math: &M, s: &Settings, now: u64) -> (r: Self)
        ensures
            r.wf(),
            r.tuned == tuned_to(*s),
            r.last_send == now,
            r.squelch_open,
            is_window(math, r.window@),
            is_fresh(math, r.run),
            evaluates(math, Formula::Single(FIRST_PEAK), r.run.agc_peak),
            r.run.prev_mode is None,
            r.run.prev_sr == 0,
    {
        Receiver {
            tuned: Tuned {
                centre_freq: s.centre_freq,
                sample_rate: s.sample_rate,
                gain_tenths: s.gain_tenths,
            },
            last_send: now,
            run: DemodRun::start(math),
            squelch_open: true,
            window: make_hann_window(math, FFT_SIZE),
        }
    }

    /// Starts the demodulator afresh if the mode or the sample rate has changed.
    fn prepare<M: SampleMath<Real = R, Iq = C>>(&mut self, math: &M, mode: Option<DemodMode>, rate: u32)
        requires
            old(self).wf(),
        ensures
            final(self).wf(),
            *final(self) == (Receiver { run: final(self).run, ..*old(self) }),
            prepares(math, old(self).run, mode, rate, final(self).run),
    {
        if !same_mode(mode, self.run.prev_mode) || rate != self.run.prev_sr {
            let peak = self.run.agc_peak;
            let mut run = DemodRun::start(math);
            run.agc_peak = peak;
            run.prev_mode = mode;
            run.prev_sr = rate;
            self.run = run;
        }
    }

    /// One turn with a buffer read from the radio, at `now`, under the live settings `s` and
    /// the demodulator chosen by `cfg`.
    pub fn turn<M: SampleMath<Real = R, Iq = C>>(
        &mut self,
        math: &M,
        buf: &[u8],
        s: &Settings,
        cfg: &DemodConfig,
        now: u64,
    ) -> (r: Turn)
        requires
            old(self).wf(),
            buf@.len() >= FFT_SIZE * FFT_AVERAGES * 2,
        ensures
            final(self).wf(),
            turns(
                math,
                *old(self),
                *final(self),
                buf@,
                *s,
                *cfg,
                now,
                r.tuning@,
                frame_views(r.frames@),
            ),
    {
        let tuning = retuning(&self.tuned, s);
        self.tuned = Tuned {
            centre_freq: s.centre_freq,
            sample_rate: s.sample_rate,
            gain_tenths: s.gain_tenths,
        };
        let mut frames: Vec<Vec<u8>> = Vec::new();
        let ghost mut spectrum_frame: Option<Seq<u8>> = None;
        if now >= self.last_send && now - self.last_send >= SEND_INTERVAL {
            self.last_send = now;
            let spectrum = compute_spectrum(math, buf, self.window.as_slice());
            let bins = downsample(math, spectrum.as_slice());
            let frame = encode_spectrum_frame(math, bins.as_slice(), s);
            self.squelch_open = squelch_open(math, bins.as_slice(), cfg, s.sample_rate);
            proof {
                spectrum_frame = Some(frame@);
                assert(shows_by(
                    math,
                    buf@,
                    self.window@,
                    *s,
                    *cfg,
                    frame@,
                    self.squelch_open,
                    spectrum@,
                    bins@,
                ));
            }
            frames.push(frame);
        }
        assert(frame_views(frames@) =~= optional(spectrum_frame));
        self.prepare(math, cfg.mode, s.sample_rate);
        let ghost run = self.run;
        let ghost before = frames@;
        let audio = process_audio(
            math,
            buf,
            cfg,
            &mut self.run,
            s.sample_rate,
            self.squelch_open,
        );
        let ghost audio_frame = frame_view(audio);
        if let Some(frame) = audio {
            frames.push(frame);
        }
        proof {
            assert(frame_views(frames@) =~= optional(spectrum_frame) + optional(audio_frame));
            assert(turns_by(
                math,
                *old(self),
                *self,
                buf@,
                *s,
                *cfg,
                now,
                frame_views(frames@),
                spectrum_frame,
                run,
                audio_frame,
            ));
        }
        Turn { tuning, frames }
    }
}

/// What the radio is set to after all of `list`, in order.
pub open spec fn after_changes(tuned: Tuned, list: Seq<Tuning>) -> Tuned
    decreases list.len(),
{
    if list.len() == 0 {
        tuned
    } else {
        changed(after_changes(tuned, list.drop_last()), list.last())
    }
}

proof fn lemma_after_only_if(tuned: Tuned, list: Seq<Tuning>, needed: bool, change: Tuning)
    ensures
        after_changes(tuned, list + only_if(needed, change)) == (if needed {
            changed(after_changes(tuned, list), change)
        } else {
            after_changes(tuned, list)
        }),
{
    if needed {
        let longer = list + only_if(needed, change);
        assert(longer.drop_last() =~= list);
        assert(longer.last() == change);
    } else {
        assert(list + only_if(needed, change) =~= list);
    }
}

/// The changes of a turn set the radio to the live settings, none is made where nothing
/// differs, and each is made at most once.
pub proof fn law_changes_retune(from: Tuned, to: Tuned)
    ensures
        after_changes(from, changes(from, to)) == to,
        changes(from, to).len() <= 3,
        changes(from, to).len() == 0 <==> from == to,
{
    let c1 = only_if(from.centre_freq != to.centre_freq, Tuning::CentreFreq(to.centre_freq));
    let c2 = only_if(from.gain_tenths != to.gain_tenths, Tuning::Gain(to.gain_tenths));
    assert(Seq::<Tuning>::empty() + c1 =~= c1);
    lemma_after_only_if(
        from,
        Seq::empty(),
        from.centre_freq != to.centre_freq,
        Tuning::CentreFreq(to.centre_freq),
    );
    lemma_after_only_if(
        from,
        c1,
        from.gain_tenths != to.gain_tenths,
        Tuning::Gain(to.gain_tenths),
    );
    lemma_after_only_if(
        from,
        c1 + c2,
        from.sample_rate != to.sample_rate,
        Tuning::SampleRate(to.sample_rate),
    );
}

/// Spectrum frames come at least 40 ms apart: `sent` holds the times of the last spectrum
/// before each of a run of turns at the times `nows`, and after the last of them.
pub proof fn law_spectra_are_spaced(sent: Seq<u64>, nows: Seq<u64>, i: int, j: int)
    requires
        sent.len() == nows.len() + 1,
        forall|k: int|
            0 <= k < nows.len() ==> sent[k + 1] == (if spectrum_due(
                sent[k],
                #[trigger] nows[k],
            ) {
                nows[k]
            } else {
                sent[k]
            }),
        0 <= i < j < nows.len(),
        spectrum_due(sent[i], nows[i]),
        spectrum_due(sent[j], nows[j]),
    ensures
        nows[j] - nows[i] >= SEND_INTERVAL,
{
    lemma_sent_grows(sent, nows, i + 1, j);
    assert(sent[i + 1] == nows[i]);
}

proof fn lemma_sent_grows(sent: Seq<u64>, nows: Seq<u64>, i: int, j: int)
    requires
        sent.len() == nows.len() + 1,
        forall|k: int|
            0 <= k < nows.len() ==> sent[k + 1] == (if spectrum_due(
                sent[k],
                #[trigger] nows[k],
            ) {
                nows[k]
            } else {
                sent[k]
            }),
        0 <= i <= j <= nows.len(),
    ensures
        sent[i] <= sent[j],
    decreases j - i,
{
    if i < j {
        lemma_sent_grows(sent, nows, i, j - 1);
        assert(sent[j - 1 + 1] == (if spectrum_due(sent[j - 1], nows[j - 1]) {
            nows[j - 1]
        } else {
            sent[j - 1]
        }));
    }
}

/// A turn sends a spectrum frame first, of 2057 bytes, when one is due, and then at most one
/// audio frame.
pub proof fn law_frames_of_a_turn<M: SampleMath>(
    math: &M,
    b: Receiver<M::Real, M::Iq>,
    a: Receiver<M::Real, M::Iq>,
    buf: Seq<u8>,
    s: Settings,
    cfg: DemodConfig,
    now: u64,
    tuning: Seq<Tuning>,
    frames: Seq<Seq<u8>>,
)
    requires
        turns(math, b, a, buf, s, cfg, now, tuning, frames),
    ensures
        ({
            let first: int = if spectrum_due(b.last_send, now) { 1 } else { 0 };
            &&& first <= frames.len() <= first + 1
            &&& first == 1 ==> frames[0][0] == FRAME_SPECTRUM && frames[0].len() == 2057
            &&& frames.len() == first + 1 ==> frames[first][0] == FRAME_AUDIO
            &&& cfg.mode is None ==> frames.len() == first
        }),
{
    let (spectrum, run, audio) = choose|
        spectrum: Option<Seq<u8>>,
        run: DemodRun<M::Real, M::Iq>,
        audio: Option<Seq<u8>>,
    | #[trigger]
        turns_by(math, b, a, buf, s, cfg, now, frames, spectrum, run, audio);
    if spectrum_due(b.last_send, now) {
        let (levels, bins) = choose|levels: Seq<M::Real>, bins: Seq<M::Real>| #[trigger]
            shows_by(math, buf, b.window@, s, cfg, spectrum->0, a.squelch_open, levels, bins);
        lemma_spectrum_frame(math, bins, s, spectrum->0);
        assert(frames[0] == spectrum->0);
    }
    if let Some(frame) = audio {
        if let Some(mode) = cfg.mode {
            let (rates, filtered) = choose|rates: AudioRates, filtered: Seq<M::Iq>| #[trigger]
                is_audio_by(
                    math,
                    buf,
                    cfg,
                    mode,
                    s.sample_rate,
                    a.squelch_open,
                    run,
                    a.run,
                    audio,
                    rates,
                    filtered,
                );
            law_audio_frame(
                math,
                buf,
                cfg,
                mode,
                s.sample_rate,
                a.squelch_open,
                run,
                a.run,
                frame,
                rates,
            );
            let values = choose|values: Seq<i16>| #[trigger]
                audio_frame(rates.out_sr, values) == frame && values.len() == audio_len(
                    mode,
                    rates,
                    buf.len() as int,
                );
            law_audio_frame_reads_back(rates.out_sr, values);
        }
    }
}

/// A spectrum frame has its type byte and its length.
proof fn lemma_spectrum_frame<M: SampleMath>(math: &M, bins: Seq<M::Real>, s: Settings, frame: Seq<u8>)
    requires
        encodes_spectrum(math, bins, s, frame),
    ensures
        frame.len() == 9 + 2 * bins.len(),
        frame[0] == FRAME_SPECTRUM,
{
    let (levels, ranges, values) = choose|
        levels: Seq<M::Real>,
        ranges: Seq<i16>,
        values: Seq<i16>,
    | #[trigger]
        encodes_spectrum_by(math, bins, s, frame, levels, ranges, values);
    law_spectrum_frame_reads_back(ranges, values);
}

/// A change of the mode or of the sample rate starts the demodulator afresh, and keeps the
/// gain control's peak; otherwise it goes on from where it was.
pub proof fn law_restart<M: SampleMath>(
    math: &M,
    b: DemodRun<M::Real, M::Iq>,
    mode: Option<DemodMode>,
    rate: u32,
    a: DemodRun<M::Real, M::Iq>,
)
    requires
        prepares(math, b, mode, rate, a),
    ensures
        a.agc_peak == b.agc_peak,
        a.prev_mode == mode,
        a.prev_sr == rate,
        b.prev_mode != mode || b.prev_sr != rate ==> a.fir_taps@.len() == 0,
        prepares(math, a, mode, rate, a),
{
}

/// Spectra do not fail to come: at whatever time, a turn at least 40 ms after the last spectrum
/// sends one, of 2057 bytes and of type 'S', before anything else, and counts the next 40 ms
/// from now. A turn before that sends none and goes on counting from the last.
pub proof fn law_spectra_come<M: SampleMath>(
    math: &M,
    b: Receiver<M::Real, M::Iq>,
    a: Receiver<M::Real, M::Iq>,
    buf: Seq<u8>,
    s: Settings,
    cfg: DemodConfig,
    now: u64,
    tuning: Seq<Tuning>,
    frames: Seq<Seq<u8>>,
)
    requires
        turns(math, b, a, buf, s, cfg, now, tuning, frames),
    ensures
        now >= b.last_send + 40_000_000 ==> a.last_send == now && frames.len() >= 1
            && frames[0].len() == 2057 && frames[0][0] == 0x53,
        now < b.last_send + 40_000_000 ==> a.last_send == b.last_send && forall|i: int|
            0 <= i < frames.len() ==> (#[trigger] frames[i])[0] == 0x41,
        forall|i: int| 1 <= i < frames.len() ==> (#[trigger] frames[i])[0] == 0x41,
        frames.len() <= 2,
{
    law_frames_of_a_turn(math, b, a, buf, s, cfg, now, tuning, frames);
}

/// In a run of turns a spectrum is sent at the first one that comes at least 40 ms after the
/// turn that sent the last: `receivers` are the states before each turn and after the last of
/// them, and the turn `i` sent a spectrum, but none from then on until the turn `j`.
pub proof fn law_spectra_keep_coming<M: SampleMath>(
    math: &M,
    receivers: Seq<Receiver<M::Real, M::Iq>>,
    bufs: Seq<Seq<u8>>,
    settings: Seq<Settings>,
    cfgs: Seq<DemodConfig>,
    nows: Seq<u64>,
    tunings: Seq<Seq<Tuning>>,
    frames: Seq<Seq<Seq<u8>>>,
    i: int,
    j: int,
)
    requires
        receivers.len() == nows.len() + 1,
        forall|k: int|
            0 <= k < nows.len() ==> turns(
                math,
                receivers[k],
                receivers[k + 1],
                bufs[k],
                settings[k],
                cfgs[k],
                #[trigger] nows[k],
                tunings[k],
                frames[k],
            ),
        0 <= i < j < nows.len(),
        nows[i] >= receivers[i].last_send + 40_000_000,
        forall|k: int|
            i < k < j ==> (#[trigger] frames[k]).len() == 0 || frames[k][0][0] != 0x53,
    ensures
        nows[j] >= nows[i] + 40_000_000 <==> frames[j].len() > 0 && frames[j][0][0] == 0x53,
{
    assert(nows[j] == nows[j]);
    lemma_last_spectrum(math, receivers, bufs, settings, cfgs, nows, tunings, frames, i, j);
    assert(turns(
        math,
        receivers[j],
        receivers[j + 1],
        bufs[j],
        settings[j],
        cfgs[j],
        nows[j],
        tunings[j],
        frames[j],
    ));
    law_spectra_come(
        math,
        receivers[j],
        receivers[j + 1],
        bufs[j],
        settings[j],
        cfgs[j],
        nows[j],
        tunings[j],
        frames[j],
    );
}

/// The receiver counts from the last spectrum that it sent.
proof fn lemma_last_spectrum<M: SampleMath>(
    math: &M,
    receivers: Seq<Receiver<M::Real, M::Iq>>,
    bufs: Seq<Seq<u8>>,
    settings: Seq<Settings>,
    cfgs: Seq<DemodConfig>,
    nows: Seq<u64>,
    tunings: Seq<Seq<Tuning>>,
    frames: Seq<Seq<Seq<u8>>>,
    i: int,
    j: int,
)
    requires
        receivers.len() == nows.len() + 1,
        forall|k: int|
            0 <= k < nows.len() ==> turns(
                math,
                receivers[k],
                receivers[k + 1],
                bufs[k],
                settings[k],
                cfgs[k],
                #[trigger] nows[k],
                tunings[k],
                frames[k],
            ),
        0 <= i < j < receivers.len(),
        nows[i] >= receivers[i].last_send + 40_000_000,
        forall|k: int|
            i < k < j ==> (#[trigger] frames[k]).len() == 0 || frames[k][0][0] != 0x53,
    ensures
        receivers[j].last_send == nows[i],
    decreases j - i,
{
    let k = j - 1;
    assert(turns(
        math,
        receivers[k],
        receivers[k + 1],
        bufs[k],
        settings[k],
        cfgs[k],
        nows[k],
        tunings[k],
        frames[k],
    ));
    law_spectra_come(
        math,
        receivers[k],
        receivers[k + 1],
        bufs[k],
        settings[k],
        cfgs[k],
        nows[k],
        tunings[k],
        frames[k],
    );
    if k > i {
        lemma_last_spectrum(math, receivers, bufs, settings, cfgs, nows, tunings, frames, i, k);
        assert(frames[k].len() == 0 || frames[k][0][0] != 0x53);
    }
}

/// At every turn that sends a spectrum the squelch becomes what the displayed bins of that
/// spectrum make it, for the channel chosen now and whatever it was before; at every other turn
/// it stays as it was.
pub proof fn law_squelch_of_a_turn<M: SampleMath>(
    math: &M,
    b: Receiver<M::Real, M::Iq>,
    a: Receiver<M::Real, M::Iq>,
    buf: Seq<u8>,
    s: Settings,
    cfg: DemodConfig,
    now: u64,
    tuning: Seq<Tuning>,
    frames: Seq<Seq<u8>>,
)
    requires
        turns(math, b, a, buf, s, cfg, now, tuning, frames),
    ensures
        now < b.last_send + 40_000_000 ==> a.squelch_open == b.squelch_open,
        now >= b.last_send + 40_000_000 ==> exists|spectrum: Seq<M::Real>, bins: Seq<M::Real>|
            is_spectrum(math, buf, b.window@, spectrum) && #[trigger] is_downsampled(
                math,
                spectrum,
                bins,
            ) && encodes_spectrum(math, bins, s, frames[0]) && opens(
                math,
                bins,
                cfg,
                s.sample_rate,
                a.squelch_open,
            ),
        a.window@ == b.window@,
{
    let (spectrum, run, audio) = choose|
        spectrum: Option<Seq<u8>>,
        run: DemodRun<M::Real, M::Iq>,
        audio: Option<Seq<u8>>,
    | #[trigger]
        turns_by(math, b, a, buf, s, cfg, now, frames, spectrum, run, audio);
    if spectrum_due(b.last_send, now) {
        let (levels, bins) = choose|levels: Seq<M::Real>, bins: Seq<M::Real>| #[trigger]
            shows_by(math, buf, b.window@, s, cfg, spectrum->0, a.squelch_open, levels, bins);
        assert(frames[0] == spectrum->0);
        assert(is_downsampled(math, levels, bins));
    }
}

/// At every turn the whole buffer is demodulated, by the choice and at the rate of now and with
/// the squelch as it is after the turn; what comes of it is sent last. The state that this
/// leaves is the one that the next turn goes on from.
pub proof fn law_audio_of_a_turn<M: SampleMath>(
    math: &M,
    b: Receiver<M::Real, M::Iq>,
    a: Receiver<M::Real, M::Iq>,
    buf: Seq<u8>,
    s: Settings,
    cfg: DemodConfig,
    now: u64,
    tuning: Seq<Tuning>,
    frames: Seq<Seq<u8>>,
)
    requires
        turns(math, b, a, buf, s, cfg, now, tuning, frames),
    ensures
        exists|run: DemodRun<M::Real, M::Iq>, audio: Option<Seq<u8>>| #[trigger]
            is_audio(math, buf, cfg, s.sample_rate, a.squelch_open, run, a.run, audio)
                && (b.run.prev_mode == cfg.mode && b.run.prev_sr == s.sample_rate ==> run == b.run)
                && (b.run.prev_mode != cfg.mode || b.run.prev_sr != s.sample_rate ==> run.agc_peak
                == b.run.agc_peak && run.prev_mode == cfg.mode && run.prev_sr == s.sample_rate
                && call_ensures(M::single, (math, 0), run.mixer.phase) && call_ensures(
                M::single,
                (math, 0),
                run.mixer.dc_i,
            ) && call_ensures(M::single, (math, 0), run.mixer.dc_q) && call_ensures(
                M::single,
                (math, 0),
                run.deemph,
            ) && call_ensures(M::single, (math, 0), run.am_prev_x) && call_ensures(
                M::single,
                (math, 0),
                run.am_prev_y,
            ) && call_ensures(M::single, (math, 0x3F80_0000), run.fade_gain)
                && run.fir_taps@.len() == 0 && run.fir.slots@.len() == 0 && run.fir.pos == 0
                && exists|x: M::Real, y: M::Real| #[trigger]
                call_ensures(M::iq, (math, x, y), run.prev_iq) && call_ensures(
                    M::single,
                    (math, 0),
                    x,
                ) && call_ensures(M::single, (math, 0), y)) && (audio matches Some(f)
                ==> frames.len() > 0 && frames.last() == f) && frames.len() == (if now
                >= b.last_send + 40_000_000 {
                1int
            } else {
                0int
            }) + (if audio is Some {
                1int
            } else {
                0int
            }),
        a.run.prev_mode == cfg.mode,
        a.run.prev_sr == s.sample_rate,
{
    let (spectrum, run, audio) = choose|
        spectrum: Option<Seq<u8>>,
        run: DemodRun<M::Real, M::Iq>,
        audio: Option<Seq<u8>>,
    | #[trigger]
        turns_by(math, b, a, buf, s, cfg, now, frames, spectrum, run, audio);
    assert(is_audio(math, buf, cfg, s.sample_rate, a.squelch_open, run, a.run, audio));
    if b.run.prev_mode != cfg.mode || b.run.prev_sr != s.sample_rate {
        let zero = Formula::<M::Real, M::Iq>::Single(0);
        assert(iq_evaluates(math, zero.with_imaginary(zero), run.prev_iq));
        let (x, y) = choose|x: M::Real, y: M::Real| #[trigger]
            call_ensures(M::iq, (math, x, y), run.prev_iq) && evaluates(math, zero, x)
                && evaluates(math, zero, y);
        assert(call_ensures(M::single, (math, 0), x) && call_ensures(M::single, (math, 0), y));
    }
}

/// A turn brings the radio to the live settings: each of the three is set exactly where it
/// differs from what the radio is set to, once, and is then what the radio is set to. The
/// frequency goes first and the sample rate last.
pub proof fn law_turn_retunes<M: SampleMath>(
    math: &M,
    b: Receiver<M::Real, M::Iq>,
    a: Receiver<M::Real, M::Iq>,
    buf: Seq<u8>,
    s: Settings,
    cfg: DemodConfig,
    now: u64,
    tuning: Seq<Tuning>,
    frames: Seq<Seq<u8>>,
    change: Tuning,
)
    requires
        turns(math, b, a, buf, s, cfg, now, tuning, frames),
    ensures
        a.tuned.centre_freq == s.centre_freq,
        a.tuned.sample_rate == s.sample_rate,
        a.tuned.gain_tenths == s.gain_tenths,
        tuning.contains(change) <==> match change {
            Tuning::CentreFreq(f) => f == s.centre_freq && f != b.tuned.centre_freq,
            Tuning::Gain(g) => g == s.gain_tenths && g != b.tuned.gain_tenths,
            Tuning::SampleRate(r) => r == s.sample_rate && r != b.tuned.sample_rate,
        },
        tuning.no_duplicates(),
        s.centre_freq != b.tuned.centre_freq ==> tuning[0] is CentreFreq,
        s.sample_rate != b.tuned.sample_rate ==> tuning.last() is SampleRate,
{
    let c1 = only_if(
        b.tuned.centre_freq != s.centre_freq,
        Tuning::CentreFreq(s.centre_freq),
    );
    let c2 = only_if(b.tuned.gain_tenths != s.gain_tenths, Tuning::Gain(s.gain_tenths));
    let c3 = only_if(b.tuned.sample_rate != s.sample_rate, Tuning::SampleRate(s.sample_rate));
    assert(tuning == c1 + c2 + c3);
    match change {
        Tuning::CentreFreq(f) => {
            if f == s.centre_freq && f != b.tuned.centre_freq {
                assert(tuning[0] == change);
            }
        },
        Tuning::Gain(g) => {
            if g == s.gain_tenths && g != b.tuned.gain_tenths {
                assert(tuning[c1.len() as int] == change);
            }
        },
        Tuning::SampleRate(r) => {
            if r == s.sample_rate && r != b.tuned.sample_rate {
                assert(tuning[(c1 + c2).len() as int] == change);
            }
        },
    }
}

/// At every turn that sends a spectrum the squelch of NBFM and AM is open after it exactly where
/// one of the channel's bins in that spectrum is at least at the threshold, unless that is -100,
/// whatever it was before: the channel's middle bin, `c`, is the one that its offset falls into,
/// and it reaches `h` bins to either side.
pub proof fn law_turn_judges_the_channel<M: SampleMath>(
    math: &M,
    m: Measure<M::Real, M::Iq>,
    b: Receiver<M::Real, M::Iq>,
    a: Receiver<M::Real, M::Iq>,
    buf: Seq<u8>,
    s: Settings,
    cfg: DemodConfig,
    now: u64,
    tuning: Seq<Tuning>,
    frames: Seq<Seq<u8>>,
    offset: real,
    threshold: real,
    c: int,
    h: int,
)
    requires
        is_exact(math, m),
        is_ordered(math, m),
        takes_whole_part(math, m),
        (m.constant)(0x3F00_0000) == 1real / 2real,
        turns(math, b, a, buf, s, cfg, now, tuning, frames),
        now >= b.last_send + 40_000_000,
        s.sample_rate > 0,
        forall|r: M::Real| #[trigger]
            call_ensures(M::double, (math, cfg.offset_hz), r) ==> (m.value)(r) == offset,
        forall|r: M::Real| #[trigger]
            call_ensures(M::double, (math, cfg.squelch_db), r) ==> (m.value)(r) == threshold,
        cfg.squelch_db < 0xC058_FFFF_F000_0000 || cfg.squelch_db > 0xC059_0000_1000_0000,
        cfg.mode == Some(DemodMode::NBFM) || cfg.mode == Some(DemodMode::AM),
        ({
            let position = (offset / (s.sample_rate as real) + 1real / 2real) * 1024real;
            &&& 0 <= c < 1024
            &&& c as real <= position || c == 0
            &&& position < c as real + 1real || c == 1023
        }),
        ({
            let width = if cfg.mode == Some(DemodMode::NBFM) { 12_500int } else { 10_000int };
            &&& h >= 1
            &&& h == 1 || h * s.sample_rate <= width * 512
            &&& width * 512 < (h + 1) * s.sample_rate
        }),
    ensures
        exists|spectrum: Seq<M::Real>, bins: Seq<M::Real>|
            is_spectrum(math, buf, b.window@, spectrum) && #[trigger] is_downsampled(
                math,
                spectrum,
                bins,
            ) && encodes_spectrum(math, bins, s, frames[0]) && ((forall|k: int|
                0 <= k < 1024 ==> (m.value)(#[trigger] bins[k]) >= (m.constant)(0xFF80_0000)) ==> (
            a.squelch_open <==> exists|k: int|
                0 <= k < 1024 && c - h <= k <= c + h && (m.value)(#[trigger] bins[k])
                    >= threshold)),
{
    law_squelch_of_a_turn(math, b, a, buf, s, cfg, now, tuning, frames);
    let (spectrum, bins) = choose|spectrum: Seq<M::Real>, bins: Seq<M::Real>|
        is_spectrum(math, buf, b.window@, spectrum) && #[trigger] is_downsampled(
            math,
            spectrum,
            bins,
        ) && encodes_spectrum(math, bins, s, frames[0]) && opens(
            math,
            bins,
            cfg,
            s.sample_rate,
            a.squelch_open,
        );
    if forall|k: int|
        0 <= k < 1024 ==> (m.value)(#[trigger] bins[k]) >= (m.constant)(0xFF80_0000) {
        law_squelch_hears_the_channel(
            math,
            m,
            bins,
            cfg,
            s.sample_rate,
            a.squelch_open,
            offset,
            threshold,
            c,
            h,
        );
    }
    assert(is_downsampled(math, spectrum, bins));
}

/// At every turn that sends a spectrum the squelch is open after it where there is none: for
/// WBFM, when nothing is demodulated, and at the threshold of -100.
pub proof fn law_turn_without_squelch<M: SampleMath>(
    math: &M,
    b: Receiver<M::Real, M::Iq>,
    a: Receiver<M::Real, M::Iq>,
    buf: Seq<u8>,
    s: Settings,
    cfg: DemodConfig,
    now: u64,
    tuning: Seq<Tuning>,
    frames: Seq<Seq<u8>>,
)
    requires
        turns(math, b, a, buf, s, cfg, now, tuning, frames),
        now >= b.last_send + 40_000_000,
        cfg.mode is None || cfg.mode == Some(DemodMode::WBFM) || 0xC058_FFFF_F000_0000
            <= cfg.squelch_db <= 0xC059_0000_1000_0000,
    ensures
        a.squelch_open,
{
    law_squelch_of_a_turn(math, b, a, buf, s, cfg, now, tuning, frames);
    let (spectrum, bins) = choose|spectrum: Seq<M::Real>, bins: Seq<M::Real>|
        is_spectrum(math, buf, b.window@, spectrum) && #[trigger] is_downsampled(
            math,
            spectrum,
            bins,
        ) && encodes_spectrum(math, bins, s, frames[0]) && opens(
            math,
            bins,
            cfg,
            s.sample_rate,
            a.squelch_open,
        );
    law_no_squelch(math, bins, cfg, s.sample_rate, a.squelch_open);
}

} // verus!
