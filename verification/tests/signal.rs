use std::f32::consts::PI;
use std::sync::Arc;

use ferrosdr::audio::{audio_rates, process_audio, DemodRun, FIR_TAPS};
use ferrosdr::config::{DemodConfig, DemodMode};
use ferrosdr::demod::{agc, am_demod, apply_fade, deemphasis, divide_all, fm_demod};
use ferrosdr::filter::{apply_fir_c, decimate_r, make_lpf_fir, mix_decimate, thin, DelayLine, Mixer};
use ferrosdr::frame::{encode_audio_frame, encode_spectrum_frame, FRAME_AUDIO, FRAME_SPECTRUM};
use ferrosdr::math::{SampleMath, FFT_AVERAGES, FFT_SIZE, OUTPUT_BINS};
use ferrosdr::receiver::{first_tuning, Receiver, Tuning, SEND_INTERVAL};
use ferrosdr::settings::Settings;
use ferrosdr::spectrum::{compute_spectrum, downsample, make_hann_window};
use ferrosdr::squelch::squelch_open;
use num_complex::Complex;
use rustfft::{Fft, FftPlanner};

/// Single precision.
struct Single {
    fft: Arc<dyn Fft<f32>>,
}

fn single() -> Single {
    Single { fft: FftPlanner::<f32>::new().plan_fft_forward(FFT_SIZE) }
}

fn channel(byte: u8) -> f32 {
    (byte as f32 - 127.5) / 32768.0
}

impl SampleMath for Single {
    type Real = f32;
    type Iq = Complex<f32>;
    fn single(&self, bits: u32) -> f32 {
        f32::from_bits(bits)
    }
    fn double(&self, bits: u64) -> f32 {
        f64::from_bits(bits) as f32
    }
    fn whole(&self, n: u64) -> f32 {
        n as f32
    }
    fn plus(&self, a: f32, b: f32) -> f32 {
        a + b
    }
    fn minus(&self, a: f32, b: f32) -> f32 {
        a - b
    }
    fn times(&self, a: f32, b: f32) -> f32 {
        a * b
    }
    fn over(&self, a: f32, b: f32) -> f32 {
        a / b
    }
    fn remainder(&self, a: f32, b: f32) -> f32 {
        a.rem_euclid(b)
    }
    fn greater(&self, a: f32, b: f32) -> f32 {
        a.max(b)
    }
    fn lesser(&self, a: f32, b: f32) -> f32 {
        a.min(b)
    }
    fn angle(&self, y: f32, x: f32) -> f32 {
        y.atan2(x)
    }
    fn absolute(&self, a: f32) -> f32 {
        a.abs()
    }
    fn rounded(&self, a: f32) -> f32 {
        a.round()
    }
    fn cosine(&self, a: f32) -> f32 {
        a.cos()
    }
    fn sine(&self, a: f32) -> f32 {
        a.sin()
    }
    fn logarithm(&self, a: f32) -> f32 {
        a.log10()
    }
    fn limited(&self, a: f32, low: f32, high: f32) -> f32 {
        a.clamp(low, high)
    }
    fn below(&self, a: f32, b: f32) -> bool {
        a < b
    }
    fn at_least(&self, a: f32, b: f32) -> bool {
        a >= b
    }
    fn to_i16(&self, a: f32) -> i16 {
        a as i16
    }
    fn to_i64(&self, a: f32) -> i64 {
        a as i64
    }
    fn iq(&self, re: f32, im: f32) -> Complex<f32> {
        Complex::new(re, im)
    }
    fn real_part(&self, z: Complex<f32>) -> f32 {
        z.re
    }
    fn imaginary_part(&self, z: Complex<f32>) -> f32 {
        z.im
    }
    fn norm(&self, z: Complex<f32>) -> f32 {
        z.norm()
    }
    fn norm_sqr(&self, z: Complex<f32>) -> f32 {
        z.norm_sqr()
    }
    fn conjugate(&self, z: Complex<f32>) -> Complex<f32> {
        z.conj()
    }
    fn iq_plus(&self, z: Complex<f32>, w: Complex<f32>) -> Complex<f32> {
        z + w
    }
    fn iq_times(&self, z: Complex<f32>, w: Complex<f32>) -> Complex<f32> {
        z * w
    }
    fn iq_scaled(&self, z: Complex<f32>, a: f32) -> Complex<f32> {
        z * a
    }
    fn iq_over(&self, z: Complex<f32>, a: f32) -> Complex<f32> {
        z / a
    }
    fn forward(&self, mut frame: [Complex<f32>; FFT_SIZE]) -> [Complex<f32>; FFT_SIZE] {
        self.fft.process(&mut frame);
        frame
    }
}

/// The mixer, sample by sample.
fn mixed(m: Mixer<f32>, i: u8, q: u8, increment: f32) -> (Mixer<f32>, Complex<f32>) {
    const DC_ALPHA: f32 = 0.9999;
    let mut re = channel(i);
    let mut im = channel(q);
    let dc_i = DC_ALPHA * m.dc_i + (1.0 - DC_ALPHA) * re;
    let dc_q = DC_ALPHA * m.dc_q + (1.0 - DC_ALPHA) * im;
    re -= dc_i;
    im -= dc_q;
    let turned = Complex::new(re, im) * Complex::new(m.phase.cos(), m.phase.sin());
    (Mixer { phase: (m.phase + increment).rem_euclid(2.0 * PI), dc_i, dc_q }, turned)
}

/// A tap of a Blackman-windowed low-pass filter.
fn tap(i: usize, n: usize, cutoff_hz: f32, rate: f32) -> f32 {
    let fc = cutoff_hz / rate;
    let x = i as f32 - (n - 1) as f32 / 2.0;
    let sinc = if x.abs() < 1e-6 { 2.0 * fc } else { (2.0 * PI * fc * x).sin() / (PI * x) };
    let w = 0.42 - 0.5 * (2.0 * PI * i as f32 / (n - 1) as f32).cos()
        + 0.08 * (4.0 * PI * i as f32 / (n - 1) as f32).cos();
    sinc * w
}

/// Bytes that look like noise.
fn noise(n: usize, seed: u64) -> Vec<u8> {
    let mut x = seed;
    (0..n)
        .map(|_| {
            x = x.wrapping_mul(6364136223846793005).wrapping_add(1442695040888963407);
            (x >> 56) as u8
        })
        .collect()
}

/// A buffer with a tone `offset` Hz from the centre of a band of 2 MHz.
fn tone(offset: f64) -> Vec<u8> {
    let mut v = Vec::new();
    for i in 0..FFT_SIZE * FFT_AVERAGES {
        let phi = 2.0 * std::f64::consts::PI * offset * i as f64 / 2e6;
        v.push((127.5 + 100.0 * phi.cos()).round() as u8);
        v.push((127.5 + 100.0 * phi.sin()).round() as u8);
    }
    v
}

fn quiet() -> Vec<u8> {
    vec![127; FFT_SIZE * FFT_AVERAGES * 2]
}

fn chosen(mode: Option<DemodMode>, offset: f64, squelch: f64) -> DemodConfig {
    DemodConfig { mode, offset_hz: offset.to_bits(), squelch_db: squelch.to_bits() }
}

fn word(frame: &[u8], k: usize) -> i16 {
    i16::from_le_bytes([frame[1 + 2 * k], frame[2 + 2 * k]])
}

fn bits(v: &[f32]) -> Vec<u32> {
    v.iter().map(|x| x.to_bits()).collect()
}

const MODES: [DemodMode; 3] = [DemodMode::NBFM, DemodMode::WBFM, DemodMode::AM];

#[test]
fn rates_at_two_msps() {
    let r = audio_rates(DemodMode::NBFM, 2_000_000);
    assert_eq!((r.factor1, r.sr_mid, r.factor2, r.out_sr), (8, 250_000, 5, 50_000));
    let r = audio_rates(DemodMode::WBFM, 2_000_000);
    assert_eq!((r.factor1, r.sr_mid, r.factor2, r.out_sr), (5, 400_000, 8, 50_000));
    let r = audio_rates(DemodMode::AM, 2_000_000);
    assert_eq!((r.factor1, r.sr_mid, r.factor2, r.out_sr), (8, 250_000, 10, 25_000));
}

#[test]
fn rates_over_the_whole_range() {
    for mode in MODES {
        let coarse = if mode == DemodMode::WBFM { 400_000 } else { 250_000 };
        let fine = if mode == DemodMode::AM { 24_000 } else { 50_000 };
        for rate in (0..3_300_000u32).step_by(997).chain([1, 249_999, 250_000, 400_000, 2_800_000, u32::MAX]) {
            let f1 = (rate / coarse).max(1);
            let mid = rate / f1;
            let f2 = (mid / fine).max(1);
            let r = audio_rates(mode, rate);
            assert_eq!((r.factor1, r.sr_mid, r.factor2, r.out_sr), (f1 as usize, mid, f2 as usize, mid / f2));
            if rate >= 250_000 {
                assert!(fine <= r.out_sr && r.out_sr < if mode == DemodMode::AM { 26_400 } else { 60_000 });
            }
            if rate >= coarse {
                assert!(coarse <= r.sr_mid && r.sr_mid < 2 * coarse);
            }
        }
    }
}

#[test]
fn hann_window() {
    let m = single();
    assert!(make_hann_window(&m, 0).is_empty());
    let w = make_hann_window(&m, 5);
    assert_eq!(w.len(), 5);
    assert_eq!(w[0], 0.0);
    assert!((w[1] - 0.5).abs() < 1e-6 && (w[2] - 1.0).abs() < 1e-6 && w[4].abs() < 1e-6);
    let n = FFT_SIZE;
    let expected: Vec<f32> =
        (0..n).map(|i| 0.5 * (1.0 - (2.0 * PI * i as f32 / (n - 1) as f32).cos())).collect();
    assert_eq!(bits(&make_hann_window(&m, n)), bits(&expected));
}

#[test]
fn spectrum_of_noise() {
    let m = single();
    let buf = noise(FFT_SIZE * FFT_AVERAGES * 2, 7);
    let window = make_hann_window(&m, FFT_SIZE);
    let mut power = vec![0f32; FFT_SIZE];
    let mut input = vec![Complex::new(0f32, 0f32); FFT_SIZE];
    for a in 0..FFT_AVERAGES {
        for i in 0..FFT_SIZE {
            let at = (a * FFT_SIZE + i) * 2;
            input[i] = Complex::new(channel(buf[at]) * window[i], channel(buf[at + 1]) * window[i]);
        }
        m.fft.process(&mut input);
        for i in 0..FFT_SIZE {
            power[(i + FFT_SIZE / 2) % FFT_SIZE] += input[i].norm_sqr();
        }
    }
    let expected: Vec<f32> =
        power.iter().map(|&p| 10.0 * (p / FFT_AVERAGES as f32 + 1e-30_f32).log10()).collect();
    assert_eq!(bits(&compute_spectrum(&m, &buf, &window)), bits(&expected));
}

#[test]
fn a_tone_shows_where_it_is() {
    let m = single();
    let window = make_hann_window(&m, FFT_SIZE);
    for (offset, bin) in [(250_000.0, 640), (-500_000.0, 256), (999_000.0, 1023)] {
        let bins = downsample(&m, &compute_spectrum(&m, &tone(offset), &window));
        assert_eq!(bins.len(), OUTPUT_BINS);
        let best = (0..OUTPUT_BINS).max_by(|&a, &b| bins[a].partial_cmp(&bins[b]).unwrap()).unwrap();
        assert!(best.abs_diff(bin) <= 1, "{} {}", offset, best);
    }
}

#[test]
fn downsampling_pairs_bins_and_hides_the_centre() {
    let m = single();
    let spectrum: Vec<f32> = (0..FFT_SIZE).map(|i| if i == 1024 { 1e6 } else { i as f32 }).collect();
    let bins = downsample(&m, &spectrum);
    assert_eq!(bins.len(), 1024);
    assert_eq!(bins[0], 0.5);
    assert_eq!(bins[1023], 2046.5);
    assert_eq!(bins[511], 1022.5);
    assert_eq!(bins[513], 1026.5);
    assert_eq!(bins[512], 1024.5);
}

#[test]
fn spectrum_frame_layout() {
    let m = single();
    let mut bins = vec![-55.55f32; OUTPUT_BINS];
    bins[0] = -0.04;
    bins[1] = 1e9;
    bins[2] = -1e9;
    bins[3] = f32::NAN;
    let frame = encode_spectrum_frame(&m, &bins, &Settings::default());
    assert_eq!(frame.len(), 2057);
    assert_eq!(frame[0], FRAME_SPECTRUM);
    assert_eq!(&frame[1..3], &(-700i16).to_le_bytes());
    assert_eq!([word(&frame, 0), word(&frame, 1), word(&frame, 2), word(&frame, 3)], [-700, -400, -800, -500]);
    assert_eq!([word(&frame, 4), word(&frame, 5), word(&frame, 6), word(&frame, 7)], [0, 32767, -32768, 0]);
    assert_eq!(word(&frame, 1027), (-55.55f32 * 10.0).round() as i16);
}

#[test]
fn audio_frame_layout() {
    let m = single();
    let frame = encode_audio_frame(&m, &[0.0, 1.0, -1.0, 0.5, -2.0], 50_000);
    assert_eq!(frame.len(), 13);
    assert_eq!(frame[0], FRAME_AUDIO);
    assert_eq!(u16::from_le_bytes([frame[1], frame[2]]), 50_000);
    let samples: Vec<i16> = (1..6).map(|k| word(&frame, k)).collect();
    assert_eq!(samples, [0, 32767, -32767, 16383, -32768]);
    assert_eq!(encode_audio_frame(&m, &[], 70_000), [0x41, 0x70, 0x11]);
}

#[test]
fn mixing_down() {
    let m = single();
    let buf = noise(1001, 3);
    for factor in [1usize, 5, 8, 600] {
        let start = Mixer { phase: 1.0f32, dc_i: 0.001, dc_q: -0.002 };
        let mut mixer = start;
        let out = mix_decimate(&m, &buf, 12_500.0, 2_000_000, factor, &mut mixer);
        assert_eq!(out.len(), 500 / factor);
        let mut state = start;
        let inc = -2.0 * PI * 12_500.0 / 2_000_000f32;
        for (c, got) in out.iter().enumerate() {
            let mut acc = Complex::new(0.0f32, 0.0);
            for k in 0..factor {
                let i = c * factor + k;
                let (next, turned) = mixed(state, buf[2 * i], buf[2 * i + 1], inc);
                acc += turned;
                state = next;
            }
            assert_eq!(*got, acc / factor as f32);
        }
        assert_eq!((mixer.phase, mixer.dc_i, mixer.dc_q), (state.phase, state.dc_i, state.dc_q));
    }
}

#[test]
fn mixing_is_continuous_across_blocks() {
    let m = single();
    let buf = noise(160, 4);
    let start = Mixer { phase: 0.0f32, dc_i: 0.0, dc_q: 0.0 };
    let mut whole = start;
    let all = mix_decimate(&m, &buf, 1_000.0, 250_000, 8, &mut whole);
    let mut parts = start;
    let mut joined = mix_decimate(&m, &buf[..96], 1_000.0, 250_000, 8, &mut parts);
    joined.extend(mix_decimate(&m, &buf[96..], 1_000.0, 250_000, 8, &mut parts));
    assert_eq!(all, joined);
    assert_eq!(whole.phase, parts.phase);
}

#[test]
fn lowpass_taps() {
    let m = single();
    let taps = make_lpf_fir(&m, 6_250, 250_000, FIR_TAPS);
    assert_eq!(taps.len(), 64);
    let raw: Vec<f32> = (0..64).map(|i| tap(i, 64, 6_250.0, 250_000.0)).collect();
    let sum: f32 = raw.iter().sum();
    for i in 0..64 {
        assert_eq!(taps[i], raw[i] / sum);
        assert!((taps[i] - taps[63 - i]).abs() < 1e-6);
    }
    assert!((taps.iter().sum::<f32>() - 1.0).abs() < 1e-5);
    for (count, cutoff, rate) in [(65usize, 90_000u32, 400_000u32), (5, 5_000, 251_333)] {
        let taps = make_lpf_fir(&m, cutoff, rate, count);
        let raw: Vec<f32> = (0..count).map(|i| tap(i, count, cutoff as f32, rate as f32)).collect();
        let sum: f32 = raw.iter().sum();
        let expected: Vec<f32> = raw.iter().map(|t| t / sum).collect();
        assert_eq!(bits(&taps), bits(&expected));
    }
}

#[test]
fn filter_answers_an_impulse_with_its_taps() {
    let m = single();
    let taps = [1.0f32, 2.0, 3.0];
    let z = Complex::new(0.0f32, 0.0);
    let mut line = DelayLine::new();
    let out = apply_fir_c(&m, &[Complex::new(1.0, -1.0), z, z, z], &taps, &mut line);
    let re: Vec<f32> = out.iter().map(|c| c.re).collect();
    let im: Vec<f32> = out.iter().map(|c| c.im).collect();
    assert_eq!(re, [1.0, 2.0, 3.0, 0.0]);
    assert_eq!(im, [-1.0, -2.0, -3.0, 0.0]);
    assert_eq!(line.slots.len(), 3);
    assert_eq!(line.pos, 1);
}

#[test]
fn filter_is_continuous_across_blocks() {
    let m = single();
    let taps = [0.5f32, 0.25, 0.125, 1.0];
    let x: Vec<Complex<f32>> = (0..11).map(|i| Complex::new(i as f32, 1.0 - i as f32)).collect();
    let mut whole = DelayLine::new();
    let all = apply_fir_c(&m, &x, &taps, &mut whole);
    let mut parts = DelayLine::new();
    let mut joined = apply_fir_c(&m, &x[..5], &taps, &mut parts);
    joined.extend(apply_fir_c(&m, &x[5..], &taps, &mut parts));
    assert_eq!(all, joined);
    assert_eq!((&whole.slots, whole.pos), (&parts.slots, parts.pos));
    assert_eq!(all[10].re, 0.5 * 10.0 + 0.25 * 9.0 + 0.125 * 8.0 + 7.0);
    let shorter = apply_fir_c(&m, &x[..1], &[1.0], &mut parts);
    assert_eq!(shorter, [x[0]]);
    assert_eq!(parts.slots.len(), 1);
}

#[test]
fn ring_place_moves_by_one_per_sample() {
    let m = single();
    let x = vec![Complex::new(1.0f32, 0.0); 20];
    for n in 1..6usize {
        let taps = vec![1.0f32; n];
        for count in 0..20usize {
            let mut line = DelayLine { slots: vec![x[0]; n + 1], pos: n };
            apply_fir_c(&m, &x[..count], &taps, &mut line);
            assert_eq!((line.slots.len(), line.pos), (n, count % n));
            apply_fir_c(&m, &x[..7], &taps, &mut line);
            assert_eq!(line.pos, (count + 7) % n);
        }
    }
}

#[test]
fn filter_without_samples() {
    let m = single();
    let mut line = DelayLine::new();
    assert!(apply_fir_c(&m, &[], &[], &mut line).is_empty());
    assert!(apply_fir_c(&m, &[], &[1.0, 2.0], &mut line).is_empty());
    assert_eq!(line.slots.len(), 2);
}

#[test]
fn thinning() {
    let v: Vec<u32> = (0..11).collect();
    assert_eq!(thin(&v, 5), [0, 5, 10]);
    assert_eq!(thin(&v, 1), v);
    assert_eq!(thin(&v, 20), [0]);
    assert!(thin(&v[..0], 3).is_empty());
    for n in 0..11usize {
        for f in 1..13usize {
            let expected: Vec<u32> = v[..n].iter().copied().step_by(f).collect();
            assert_eq!(thin(&v[..n], f), expected);
        }
    }
}

#[test]
fn box_decimation() {
    let m = single();
    assert_eq!(decimate_r(&m, &[1.0, 2.0, 6.0, -3.0, 0.0, 3.0, 9.0], 3), [3.0, 0.0]);
    assert!(decimate_r(&m, &[1.0, 2.0], 3).is_empty());
}

#[test]
fn fm_discriminator() {
    let m = single();
    let mut prev = Complex::new(1.0f32, 0.0);
    let out = fm_demod(&m, &[Complex::new(0.0, 1.0), Complex::new(0.0, 1.0), Complex::new(1.0, 0.0)], &mut prev);
    assert!((out[0] - PI / 2.0).abs() < 1e-6);
    assert_eq!(out[1], 0.0);
    assert!((out[2] + PI / 2.0).abs() < 1e-6);
    assert_eq!(prev, Complex::new(1.0, 0.0));
    assert!(fm_demod(&m, &[], &mut prev).is_empty());
    assert_eq!(prev, Complex::new(1.0, 0.0));
    assert_eq!(divide_all(&m, &[1.0, -3.0], 2.0), [0.5, -1.5]);
}

#[test]
fn deemphasis_is_a_single_pole() {
    let m = single();
    let mut state = 0.0f32;
    let out = deemphasis(&m, &[1.0, 1.0], &mut state, 20_000);
    assert_eq!(out, [0.5, 0.75]);
    assert_eq!(state, 0.75);
    let mut state = 0.0f32;
    let mut joined = deemphasis(&m, &[1.0], &mut state, 20_000);
    joined.extend(deemphasis(&m, &[1.0], &mut state, 20_000));
    assert_eq!(joined, out);
}

#[test]
fn am_detector_blocks_dc() {
    let m = single();
    let (mut x, mut y) = (0.0f32, 0.0f32);
    let out = am_demod(&m, &[Complex::new(3.0, 4.0), Complex::new(0.0, 5.0)], &mut x, &mut y);
    assert_eq!(out[0], 5.0);
    assert_eq!(out[1], 0.9975 * 5.0);
    assert_eq!((x, y), (5.0, out[1]));
}

#[test]
fn gain_control_attacks_and_releases() {
    let m = single();
    let mut peak = 0.01f32;
    let out = agc(&m, &[1.0, 0.0], &mut peak);
    let p1 = 0.01f32 + 0.02 * 0.99;
    let x = 1.0 / p1 * 0.85;
    assert_eq!(out[0], x / (1.0 + x));
    assert_eq!(out[1], 0.0);
    assert_eq!(peak, p1 + 0.00008 * (0.0 - p1));
    assert!(out[0] < 1.0);
    let mut parts = 0.01f32;
    let mut joined = agc(&m, &[1.0], &mut parts);
    joined.extend(agc(&m, &[0.0], &mut parts));
    assert_eq!((joined, parts), (out, peak));
}

#[test]
fn gain_control_releases_over_a_quarter_of_a_second() {
    let m = single();
    let mut peak = 1.0f32;
    let out = agc(&m, &[0.0; 1000], &mut peak);
    assert!(out.iter().all(|&x| x == 0.0));
    assert!((peak - (-20.0f32 / 250.0).exp()).abs() < 0.001);
    let mut peak = 0.0f32;
    agc(&m, &[1.0; 50], &mut peak);
    assert!((peak - (1.0 - (-1.0f32).exp())).abs() < 0.01);
}

#[test]
fn fade_ramps_up_and_down() {
    let m = single();
    let mut gain = 0.0f32;
    assert_eq!(apply_fade(&m, &[1.0; 5], &mut gain, true, 0.25), Some(vec![0.25, 0.5, 0.75, 1.0, 1.0]));
    assert_eq!(gain, 1.0);
    assert_eq!(apply_fade(&m, &[2.0; 3], &mut gain, false, 0.25), Some(vec![1.5, 1.0, 0.5]));
    assert_eq!(gain, 0.25);
}

#[test]
fn closing_ramp_is_sent_and_silence_is_not() {
    let m = single();
    let mut gain = 1.0f32;
    assert_eq!(apply_fade(&m, &[1.0; 5], &mut gain, false, 0.5), Some(vec![0.5, 0.0, 0.0, 0.0, 0.0]));
    assert_eq!(gain, 0.0);
    assert_eq!(apply_fade(&m, &[1.0; 5], &mut gain, false, 0.5), None);
    assert_eq!(gain, 0.0);
    assert_eq!(apply_fade(&m, &[1.0; 2], &mut gain, true, 0.5), Some(vec![0.5, 1.0]));
}

#[test]
fn fade_of_an_empty_block() {
    let m = single();
    let mut gain = 0.0f32;
    assert_eq!(apply_fade(&m, &[], &mut gain, false, 0.5), None);
    assert_eq!(apply_fade(&m, &[], &mut gain, true, 0.5), Some(vec![]));
    gain = 1.0;
    assert_eq!(apply_fade(&m, &[], &mut gain, false, 0.5), Some(vec![]));
}

/// A demodulator written out in single precision.
struct Plain {
    mixer: Mixer<f32>,
    prev: Complex<f32>,
    peak: f32,
    deemph: f32,
    am_x: f32,
    am_y: f32,
    taps: Vec<f32>,
    past: Vec<Complex<f32>>,
    gain: f32,
}

fn plain() -> Plain {
    Plain {
        mixer: Mixer { phase: 0.0, dc_i: 0.0, dc_q: 0.0 },
        prev: Complex::new(0.0, 0.0),
        peak: 0.01,
        deemph: 0.0,
        am_x: 0.0,
        am_y: 0.0,
        taps: vec![],
        past: vec![Complex::new(0.0, 0.0); FIR_TAPS],
        gain: 1.0,
    }
}

fn levelled(samples: &[f32], peak: &mut f32) -> Vec<f32> {
    samples
        .iter()
        .map(|&s| {
            let a = s.abs();
            *peak += if a > *peak { 0.02 * (a - *peak) } else { 0.00008 * (a - *peak) };
            *peak = peak.max(1e-5);
            let x = s / *peak * 0.85;
            x / (1.0 + x.abs())
        })
        .collect()
}

fn audio_bytes(samples: &[f32], rate: u32) -> Vec<u8> {
    let mut frame = vec![0x41];
    frame.extend_from_slice(&(rate as u16).to_le_bytes());
    for s in samples {
        frame.extend_from_slice(&((s * 32767.0).clamp(-32768.0, 32767.0) as i16).to_le_bytes());
    }
    frame
}

fn straight(buf: &[u8], cfg: &DemodConfig, run: &mut Plain, rate: u32, open: bool) -> Option<Vec<u8>> {
    let mode = cfg.mode?;
    let (coarse, fine, cutoff) = match mode {
        DemodMode::NBFM => (250_000, 50_000, 6_250.0),
        DemodMode::WBFM => (400_000, 50_000, 90_000.0),
        DemodMode::AM => (250_000, 24_000, 5_000.0),
    };
    let f1 = (rate / coarse).max(1) as usize;
    let mid = rate / f1 as u32;
    let f2 = (mid / fine).max(1) as usize;
    let out_sr = mid / f2 as u32;
    if run.taps.is_empty() {
        let raw: Vec<f32> = (0..FIR_TAPS).map(|i| tap(i, FIR_TAPS, cutoff, mid as f32)).collect();
        let sum: f32 = raw.iter().sum();
        run.taps = raw.iter().map(|t| t / sum).collect();
    }
    let increment = -2.0 * PI * (f64::from_bits(cfg.offset_hz) as f32) / rate as f32;
    let mut iq = vec![];
    for group in buf.chunks_exact(2 * f1) {
        let mut acc = Complex::new(0.0f32, 0.0);
        for pair in group.chunks_exact(2) {
            let (next, turned) = mixed(run.mixer, pair[0], pair[1], increment);
            run.mixer = next;
            acc += turned;
        }
        run.past.remove(0);
        run.past.push(acc / f1 as f32);
        iq.push((0..FIR_TAPS).map(|k| run.past[FIR_TAPS - 1 - k] * run.taps[k]).sum::<Complex<f32>>());
    }
    if mode != DemodMode::WBFM {
        iq = iq.into_iter().step_by(f2).collect();
    }
    let mut fm = |rate: u32, deviation: f32| -> Vec<f32> {
        let scale = (deviation / rate as f32 * 2.0 * PI).max(1e-6);
        iq.iter()
            .map(|&z| {
                let p = run.prev.conj() * z;
                run.prev = z;
                p.im.atan2(p.re) / scale
            })
            .collect()
    };
    let signal: Vec<f32> = match mode {
        DemodMode::NBFM => fm(out_sr, 2_500.0),
        DemodMode::WBFM => {
            let mut v = fm(mid, 75_000.0);
            let alpha = (1.0 / mid as f32) / (50.0e-6 + 1.0 / mid as f32);
            for s in v.iter_mut() {
                run.deemph += alpha * (*s - run.deemph);
                *s = run.deemph;
            }
            let v: Vec<f32> = v.chunks_exact(f2).map(|c| c.iter().sum::<f32>() / f2 as f32).collect();
            return Some(audio_bytes(&levelled(&v, &mut run.peak), out_sr));
        }
        DemodMode::AM => iq
            .iter()
            .map(|z| {
                let x = z.norm();
                let y = x - run.am_x + 0.9975 * run.am_y;
                run.am_x = x;
                run.am_y = y;
                y
            })
            .collect(),
    };
    let audio = levelled(&signal, &mut run.peak);
    let step = 1.0 / (out_sr as f32 * 0.010);
    let mut heard = open;
    let mut faded = vec![];
    for s in audio {
        run.gain = if open { (run.gain + step).min(1.0) } else { (run.gain - step).max(0.0) };
        heard = heard || !(run.gain < 0.001);
        faded.push(s * run.gain);
    }
    if heard {
        Some(audio_bytes(&faded, out_sr))
    } else {
        None
    }
}

#[test]
fn audio_path_of_each_mode() {
    let m = single();
    for mode in MODES {
        for rate in [2_000_000u32, 250_000, 2_400_000] {
            let cfg = chosen(Some(mode), 12_500.0, -60.0);
            let mut a = DemodRun::start(&m);
            let mut b = plain();
            for (n, open) in [true, false, false, true].into_iter().enumerate() {
                let buf = noise(FFT_SIZE * FFT_AVERAGES * 2, n as u64);
                let got = process_audio(&m, &buf, &cfg, &mut a, rate, open);
                let expected = straight(&buf, &cfg, &mut b, rate, open);
                assert_eq!(got, expected);
                assert_eq!((a.agc_peak, a.fade_gain), (b.peak, b.gain));
                assert_eq!((a.prev_iq, a.deemph), (b.prev, b.deemph));
                assert_eq!((a.am_prev_x, a.am_prev_y), (b.am_x, b.am_y));
                if mode == DemodMode::WBFM || open {
                    assert!(got.is_some());
                }
            }
        }
    }
}

#[test]
fn audio_frames_at_two_msps() {
    let m = single();
    let buf = tone(0.0);
    for (mode, count, rate) in [(DemodMode::NBFM, 512, 50_000), (DemodMode::WBFM, 512, 50_000), (DemodMode::AM, 256, 25_000)] {
        let mut run = DemodRun::start(&m);
        let frame = process_audio(&m, &buf, &chosen(Some(mode), 0.0, 0.0), &mut run, 2_000_000, true).unwrap();
        assert_eq!(frame.len(), 3 + 2 * count);
        assert_eq!(frame[0], FRAME_AUDIO);
        assert_eq!(word(&frame, 0) as u16, rate);
    }
}

#[test]
fn nothing_is_demodulated_without_a_mode() {
    let m = single();
    let mut run = DemodRun::start(&m);
    assert_eq!(process_audio(&m, &quiet(), &chosen(None, 0.0, 0.0), &mut run, 2_000_000, true), None);
    assert!(run.fir_taps.is_empty());
}

#[test]
fn closed_squelch_falls_silent() {
    let m = single();
    let buf = tone(10_000.0);
    for mode in [DemodMode::NBFM, DemodMode::AM] {
        let cfg = chosen(Some(mode), 0.0, -60.0);
        let mut run = DemodRun::start(&m);
        let mut heard = 0;
        while process_audio(&m, &buf, &cfg, &mut run, 2_000_000, false).is_some() {
            heard += 1;
        }
        assert_eq!(heard, 1);
        assert_eq!(run.fade_gain, 0.0);
        assert!(process_audio(&m, &buf, &cfg, &mut run, 2_000_000, true).is_some());
    }
}

/// Whether the squelch opens, worked out in single precision.
fn straight_squelch(bins: &[f32], mode: DemodMode, offset: f32, squelch: f32, rate: u32) -> bool {
    let width = match mode {
        DemodMode::NBFM => 12_500.0f32,
        DemodMode::AM => 10_000.0f32,
        DemodMode::WBFM => return true,
    };
    let half = ((width / 2.0 / (rate as f32 / 1024.0)) as usize).max(1);
    let centre = ((offset / rate as f32 + 0.5) * 1024.0).clamp(0.0, 1023.0) as usize;
    let lo = centre.saturating_sub(half);
    let hi = centre.saturating_add(half).min(1023);
    bins[lo..=hi].iter().cloned().fold(f32::NEG_INFINITY, f32::max) >= squelch
}

#[test]
fn squelch_watches_the_channel() {
    let m = single();
    let raw = noise(OUTPUT_BINS, 11);
    let bins: Vec<f32> = raw.iter().map(|&b| -40.0 - b as f32 / 8.0).collect();
    let mut rates: Vec<u32> = (0..3_000_000u32).step_by(50_021).collect();
    rates.extend([1, 2, 12_500, 5_000, 6_400_000, 5_120_000, 5_119_999, 5_120_001, 6_399_999, 6_400_001, u32::MAX]);
    for rate in rates {
        for k in 0..40 {
            let offset = (k as f64 - 20.0) * 0.0273 * rate as f64;
            let squelch = -40.5 - k as f64 / 16.0;
            for mode in MODES {
                assert_eq!(
                    squelch_open(&m, &bins, &chosen(Some(mode), offset, squelch), rate),
                    straight_squelch(&bins, mode, offset as f32, squelch as f32, rate),
                    "{} {} {}", rate, offset, squelch
                );
            }
        }
    }
}

/// A single loud bin at distance `d` from the channel's centre tells how wide the channel is.
#[test]
fn squelch_width_agrees_with_single_precision() {
    let m = single();
    for (mode, width) in [(DemodMode::NBFM, 12_500.0f32), (DemodMode::AM, 10_000.0f32)] {
        let numerator = (width as u32) * 512;
        let mut rates: Vec<u32> = vec![];
        for q in 1..500u32 {
            let r = numerator / q;
            rates.extend([r - 1, r, r + 1]);
        }
        for rate in rates {
            let half = ((width / 2.0 / (rate as f32 / 1024.0)) as usize).max(1);
            for d in [half, half + 1] {
                if d < 512 {
                    let mut bins = vec![-100.0f32; OUTPUT_BINS];
                    bins[512 + d] = -10.0;
                    assert_eq!(squelch_open(&m, &bins, &chosen(Some(mode), 0.0, -50.0), rate), d == half, "{} {}", rate, d);
                }
            }
        }
    }
}

#[test]
fn squelch_opens_at_its_threshold() {
    let m = single();
    let mut bins = vec![-90.0f32; OUTPUT_BINS];
    bins[512] = -60.0;
    let nbfm = Some(DemodMode::NBFM);
    assert!(squelch_open(&m, &bins, &chosen(nbfm, 0.0, -60.0), 2_000_000));
    assert!(!squelch_open(&m, &bins, &chosen(nbfm, 0.0, -59.9), 2_000_000));
    assert!(!squelch_open(&m, &bins, &chosen(nbfm, 100_000.0, -60.0), 2_000_000));
    assert!(squelch_open(&m, &bins, &chosen(nbfm, 100_000.0, -90.0), 2_000_000));
    assert!(squelch_open(&m, &bins, &chosen(Some(DemodMode::AM), 0.0, -60.0), 2_000_000));
    assert!(!squelch_open(&m, &bins, &chosen(Some(DemodMode::AM), 0.0, -20.0), 2_000_000));
}

#[test]
fn squelch_at_the_edges_of_the_band() {
    let m = single();
    let mut bins = vec![-90.0f32; OUTPUT_BINS];
    bins[0] = -20.0;
    bins[1023] = -30.0;
    let cfg = |offset: f64, level: f64| chosen(Some(DemodMode::AM), offset, level);
    assert!(squelch_open(&m, &bins, &cfg(-1e9, -20.0), 2_000_000));
    assert!(squelch_open(&m, &bins, &cfg(1e9, -30.0), 2_000_000));
    assert!(!squelch_open(&m, &bins, &cfg(1e9, -29.0), 2_000_000));
    assert!(squelch_open(&m, &bins, &cfg(f64::NAN, -20.0), 2_000_000));
    assert!(squelch_open(&m, &bins, &cfg(0.0, -20.0), 0));
}

#[test]
fn squelch_is_always_open_without_a_threshold() {
    let m = single();
    let bins = vec![-200.0f32; OUTPUT_BINS];
    assert!(squelch_open(&m, &bins, &chosen(Some(DemodMode::NBFM), 0.0, -100.0), 2_000_000));
    assert!(squelch_open(&m, &bins, &chosen(Some(DemodMode::AM), 5e5, -100.0), 2_000_000));
    assert!(squelch_open(&m, &bins, &chosen(Some(DemodMode::WBFM), 0.0, 0.0), 2_000_000));
    assert!(squelch_open(&m, &bins, &chosen(None, 0.0, 0.0), 2_000_000));
    assert!(!squelch_open(&m, &bins, &chosen(Some(DemodMode::NBFM), 0.0, -99.9), 2_000_000));
    assert!(!squelch_open(&m, &bins, &chosen(Some(DemodMode::NBFM), 0.0, -100.1), 2_000_000));
    let at = (-100.0f64).to_bits();
    for d in 0..=0x1000_0010u64 {
        if d < 16 || d > 0x0fff_fff0 {
            for b in [at - d, at + d] {
                let cfg = DemodConfig { mode: Some(DemodMode::AM), offset_hz: 0, squelch_db: b };
                let rounds = f64::from_bits(b) as f32 == -100.0;
                assert_eq!(squelch_open(&m, &bins, &cfg, 2_000_000), rounds, "{:x}", b);
            }
        }
    }
}

#[test]
fn first_tuning_sets_everything() {
    let s = Settings::default();
    assert_eq!(
        first_tuning(&s),
        [Tuning::SampleRate(2_000_000), Tuning::CentreFreq(869_525_000), Tuning::Gain(338)]
    );
}

#[test]
fn radio_is_retuned_when_settings_change() {
    let m = single();
    let off = chosen(None, 0.0, -70.0);
    let mut s = Settings::default();
    let mut r = Receiver::start(&m, &s, 0);
    let buf = quiet();
    assert!(r.turn(&m, &buf, &s, &off, 1).tuning.is_empty());
    s.centre_freq = 446_000_000;
    assert_eq!(r.turn(&m, &buf, &s, &off, 2).tuning, [Tuning::CentreFreq(446_000_000)]);
    assert!(r.turn(&m, &buf, &s, &off, 3).tuning.is_empty());
    s.centre_freq = 1;
    s.gain_tenths = -5;
    s.sample_rate = 250_000;
    assert_eq!(
        r.turn(&m, &buf, &s, &off, 4).tuning,
        [Tuning::CentreFreq(1), Tuning::Gain(-5), Tuning::SampleRate(250_000)]
    );
    assert_eq!(r.tuned.sample_rate, 250_000);
}

#[test]
fn spectra_come_forty_milliseconds_apart() {
    let m = single();
    let off = chosen(None, 0.0, -70.0);
    let s = Settings::default();
    let mut r = Receiver::start(&m, &s, 0);
    let buf = quiet();
    let mut sent = vec![];
    for k in 0..30u64 {
        let now = k * 8_200_000;
        let turn = r.turn(&m, &buf, &s, &off, now);
        if !turn.frames.is_empty() {
            assert_eq!(turn.frames.len(), 1);
            assert_eq!(turn.frames[0].len(), 2057);
            sent.push(now);
        }
    }
    assert_eq!(sent, [41_000_000, 82_000_000, 123_000_000, 164_000_000, 205_000_000]);
    assert_eq!(SEND_INTERVAL, 40_000_000);
    let mut r = Receiver::start(&m, &s, 5);
    assert!(r.turn(&m, &buf, &s, &off, 3).frames.is_empty());
    assert!(r.turn(&m, &buf, &s, &off, 40_000_004).frames.is_empty());
    assert_eq!(r.turn(&m, &buf, &s, &off, 40_000_005).frames.len(), 1);
}

#[test]
fn a_turn_gives_the_spectrum_then_the_audio() {
    let m = single();
    let s = Settings::default();
    let cfg = chosen(Some(DemodMode::NBFM), 250_000.0, -60.0);
    let mut r = Receiver::start(&m, &s, 0);
    let buf = tone(250_000.0);
    let turn = r.turn(&m, &buf, &s, &cfg, SEND_INTERVAL);
    assert_eq!(turn.frames.len(), 2);
    let bins = downsample(&m, &compute_spectrum(&m, &buf, &make_hann_window(&m, FFT_SIZE)));
    assert_eq!(turn.frames[0], encode_spectrum_frame(&m, &bins, &s));
    let mut run = plain();
    assert_eq!(Some(&turn.frames[1]), straight(&buf, &cfg, &mut run, 2_000_000, true).as_ref());
    assert!(r.squelch_open);
    let turn = r.turn(&m, &buf, &s, &cfg, SEND_INTERVAL + 1);
    assert_eq!(turn.frames.len(), 1);
    assert_eq!(turn.frames[0][0], FRAME_AUDIO);
}

#[test]
fn squelch_of_a_spectrum_holds_until_the_next() {
    let m = single();
    let s = Settings::default();
    let cfg = chosen(Some(DemodMode::AM), 0.0, -20.0);
    let mut r = Receiver::start(&m, &s, 0);
    assert!(r.squelch_open);
    r.turn(&m, &quiet(), &s, &cfg, 1);
    assert!(r.squelch_open);
    r.turn(&m, &quiet(), &s, &cfg, SEND_INTERVAL);
    assert!(!r.squelch_open);
    r.turn(&m, &quiet(), &s, &cfg, SEND_INTERVAL + 1);
    assert!(!r.squelch_open);
    assert!(r.turn(&m, &quiet(), &s, &cfg, SEND_INTERVAL + 2).frames.is_empty());
    let loud = chosen(Some(DemodMode::AM), 0.0, -100.0);
    r.turn(&m, &quiet(), &s, &loud, 2 * SEND_INTERVAL);
    assert!(r.squelch_open);
}

#[test]
fn a_new_mode_starts_afresh_but_for_the_peak() {
    let m = single();
    let s = Settings::default();
    let buf = noise(FFT_SIZE * FFT_AVERAGES * 2, 21);
    let mut r = Receiver::start(&m, &s, 0);
    r.turn(&m, &buf, &s, &chosen(Some(DemodMode::NBFM), 1_000.0, -100.0), 1);
    let peak = r.run.agc_peak;
    assert_ne!(peak, 0.01);
    assert_eq!(r.run.prev_mode, Some(DemodMode::NBFM));
    assert_eq!(r.run.prev_sr, 2_000_000);
    r.turn(&m, &buf, &s, &chosen(None, 0.0, -100.0), 2);
    assert_eq!(r.run.agc_peak, peak);
    assert!(r.run.fir_taps.is_empty());
    assert_eq!(r.run.mixer.phase, 0.0);
    assert_eq!(r.run.prev_mode, None);
    r.turn(&m, &buf, &s, &chosen(Some(DemodMode::AM), 0.0, -100.0), 3);
    assert_eq!(bits(&r.run.fir_taps), bits(&make_lpf_fir(&m, 5_000, 250_000, FIR_TAPS)));
    let mut slow = s.clone();
    slow.sample_rate = 250_000;
    let mut run = plain();
    run.peak = r.run.agc_peak;
    let cfg = chosen(Some(DemodMode::AM), 0.0, -100.0);
    let turn = r.turn(&m, &buf, &slow, &cfg, 4);
    assert_eq!(Some(&turn.frames[0]), straight(&buf, &cfg, &mut run, 250_000, true).as_ref());
}

#[test]
fn demodulation_is_continuous_across_blocks() {
    let m = single();
    let x: Vec<Complex<f32>> =
        noise(40, 9).chunks(2).map(|c| Complex::new(c[0] as f32 - 99.5, c[1] as f32 - 130.5)).collect();
    for cut in [0usize, 1, 7, 20] {
        let mut prev = Complex::new(0.5f32, 0.25);
        let whole = fm_demod(&m, &x, &mut prev);
        let last = prev;
        prev = Complex::new(0.5, 0.25);
        let mut joined = fm_demod(&m, &x[..cut], &mut prev);
        joined.extend(fm_demod(&m, &x[cut..], &mut prev));
        assert_eq!((bits(&joined), prev), (bits(&whole), last));

        let (mut a, mut b) = (1.0f32, 2.0f32);
        let whole = am_demod(&m, &x, &mut a, &mut b);
        let (mut c, mut d) = (1.0f32, 2.0f32);
        let mut joined = am_demod(&m, &x[..cut], &mut c, &mut d);
        joined.extend(am_demod(&m, &x[cut..], &mut c, &mut d));
        assert_eq!((bits(&joined), c, d), (bits(&whole), a, b));

        let mut g = 0.0f32;
        let whole = apply_fade(&m, &[1.0; 20], &mut g, true, 0.07).unwrap();
        let mut h = 0.0f32;
        let mut joined = apply_fade(&m, &vec![1.0; cut], &mut h, true, 0.07).unwrap();
        joined.extend(apply_fade(&m, &vec![1.0; 20 - cut], &mut h, true, 0.07).unwrap());
        assert_eq!((bits(&joined), h), (bits(&whole), g));
    }
}

#[test]
fn gain_control_is_odd() {
    let m = single();
    let x: Vec<f32> = noise(200, 2).iter().map(|&b| b as f32 / 64.0 - 2.0).collect();
    let minus: Vec<f32> = x.iter().map(|v| -v).collect();
    let (mut p, mut q) = (0.01f32, 0.01f32);
    let out = agc(&m, &x, &mut p);
    let expected: Vec<f32> = out.iter().map(|v| -v).collect();
    assert_eq!(agc(&m, &minus, &mut q), expected);
    assert_eq!(p, q);
}

#[test]
fn demodulation_goes_on_while_muted() {
    let m = single();
    for mode in [DemodMode::NBFM, DemodMode::AM] {
        let mut a = DemodRun::start(&m);
        let mut b = DemodRun::start(&m);
        for n in 0..4u64 {
            let buf = noise(FFT_SIZE * FFT_AVERAGES * 2, n);
            let heard = process_audio(&m, &buf, &chosen(Some(mode), 7_000.0, -60.0), &mut a, 2_000_000, true);
            let muted = process_audio(&m, &buf, &chosen(Some(mode), 7_000.0, -20.0), &mut b, 2_000_000, false);
            assert!(heard.is_some());
            assert_eq!(muted.is_some(), n == 0);
            assert_eq!((a.agc_peak, a.prev_iq, a.am_prev_y), (b.agc_peak, b.prev_iq, b.am_prev_y));
            assert_eq!((&a.fir.slots, a.fir.pos, a.mixer.phase), (&b.fir.slots, b.fir.pos, b.mixer.phase));
        }
        assert_eq!((a.fade_gain, b.fade_gain), (1.0, 0.0));
    }
}

#[test]
fn rearranged_stretches_give_the_same_spectrum() {
    let m = single();
    let window = make_hann_window(&m, FFT_SIZE);
    let buf = noise(FFT_SIZE * FFT_AVERAGES * 2, 17);
    let n = 2 * FFT_SIZE;
    let straight = compute_spectrum(&m, &buf, &window);
    let orders = [
        [0, 1, 2, 4, 3, 5, 6, 7, 8, 9],
        [9, 8, 7, 6, 5, 4, 3, 2, 1, 0],
        [3, 4, 5, 6, 7, 8, 9, 0, 1, 2],
        [6, 1, 9, 0, 3, 8, 5, 2, 7, 4],
    ];
    for order in orders {
        let mut other = Vec::new();
        for k in order {
            other.extend_from_slice(&buf[k * n..(k + 1) * n]);
        }
        let spectrum = compute_spectrum(&m, &other, &window);
        for i in 0..FFT_SIZE {
            assert!((straight[i] - spectrum[i]).abs() < 1e-3);
        }
    }
}

#[test]
fn offsets_do_not_depend_on_the_tuning() {
    let m = single();
    let buf = noise(4000, 23);
    let start = Mixer { phase: 0.0f32, dc_i: 0.001, dc_q: -0.0005 };
    let mut straight = start;
    mix_decimate(&m, &buf, 0.0, 2_000_000, 5, &mut straight);
    assert_ne!(straight.dc_i.to_bits(), start.dc_i.to_bits());
    for (phase, offset, rate) in [(0.0f32, 12_500.0f32, 2_000_000u32), (3.0, -250_000.0, 1_000_000), (6.0, 1.0, 250_000)] {
        let mut mixer = Mixer { phase, ..start };
        mix_decimate(&m, &buf, offset, rate, 5, &mut mixer);
        assert_eq!(bits(&[mixer.dc_i, mixer.dc_q]), bits(&[straight.dc_i, straight.dc_q]));
    }
}

#[test]
fn a_static_offset_dies_away() {
    let m = single();
    let n = 50_000;
    let buf: Vec<u8> = (0..2 * n).map(|k| if k % 2 == 0 { 200 } else { 90 }).collect();
    let size = Complex::new(channel(200), channel(90)).norm() as f64;
    for factor in [1usize, 8] {
        let mut mixer = Mixer { phase: 1.0f32, dc_i: 0.0, dc_q: 0.0 };
        let out = mix_decimate(&m, &buf, 12_500.0, 2_000_000, factor, &mut mixer);
        assert_eq!(out.len(), n / factor);
        for (c, got) in out.iter().enumerate() {
            let left = size * 0.9999f64.powi((c * factor + 1) as i32);
            assert!((got.norm() as f64) < left + 0.005 * size);
            if factor == 1 {
                assert!((got.norm() as f64 - left).abs() < 0.005 * size);
            }
        }
        assert!((mixer.dc_i - channel(200)).abs() < 0.01 * channel(200).abs());
        assert!((mixer.dc_q - channel(90)).abs() < 0.01 * channel(90).abs());
    }
}

#[test]
fn pcm_values_are_close_and_odd() {
    let m = single();
    let samples: Vec<f32> = (-5_000..=5_000).map(|k| k as f32 / 5_000.0).collect();
    let negated: Vec<f32> = samples.iter().map(|s| -s).collect();
    let frame = encode_audio_frame(&m, &samples, 50_000);
    let other = encode_audio_frame(&m, &negated, 50_000);
    for (k, &s) in samples.iter().enumerate() {
        let v = word(&frame, 1 + k);
        assert!((v as f64 - 32767.0 * s as f64).abs() < 1.01);
        assert!(v >= -32767);
        assert_eq!(word(&other, 1 + k), -v);
    }
}

#[test]
fn what_is_no_number_is_silent() {
    let m = single();
    let frame = encode_audio_frame(&m, &[f32::NAN, 0.25, -f32::NAN], 25_000);
    assert_eq!([word(&frame, 1), word(&frame, 2), word(&frame, 3)], [0, 8191, 0]);
}

#[test]
fn discriminator_ignores_strength_and_phase() {
    let m = single();
    let samples: Vec<Complex<f32>> = noise(2_000, 29)
        .chunks(2)
        .map(|b| Complex::new(b[0] as f32 - 127.5, b[1] as f32 - 127.5))
        .collect();
    let before = Complex::new(3.0f32, -1.0);
    let mut prev = before;
    let straight = fm_demod(&m, &samples, &mut prev);
    for phase in &straight {
        assert!(phase.abs() <= PI);
    }
    for factor in [Complex::new(2.0f32, 0.0), Complex::new(0.0, -0.5), Complex::new(-0.01, 0.03)] {
        let scaled: Vec<Complex<f32>> = samples.iter().map(|z| z * factor).collect();
        let mut prev = before * factor;
        let out = fm_demod(&m, &scaled, &mut prev);
        assert_eq!(out.len(), straight.len());
        for (a, b) in straight.iter().zip(&out) {
            let apart = (a - b).abs();
            assert!(apart < 1e-3 || (apart - 2.0 * PI).abs() < 1e-3);
        }
        assert_eq!(prev, scaled[scaled.len() - 1]);
    }
}

#[test]
fn the_same_turn_comes_twice() {
    let m = single();
    let s = Settings::default();
    let cfg = chosen(Some(DemodMode::NBFM), 1_000.0, -90.0);
    let mut a = Receiver::start(&m, &s, 0);
    let mut b = Receiver::start(&m, &s, 0);
    for k in 1..4u64 {
        let buf = noise(FFT_SIZE * FFT_AVERAGES * 2, k);
        let x = a.turn(&m, &buf, &s, &cfg, k * 30_000_000);
        let y = b.turn(&m, &buf, &s, &cfg, k * 30_000_000);
        assert_eq!((x.tuning, x.frames), (y.tuning, y.frames));
    }
}

#[test]
fn the_same_samples_give_the_same_audio() {
    let m = single();
    let buf = noise(FFT_SIZE * FFT_AVERAGES * 2, 5);
    let cfg = chosen(Some(DemodMode::WBFM), -33_000.0, -100.0);
    let mut a = DemodRun::start(&m);
    let mut b = DemodRun::start(&m);
    assert_eq!(
        process_audio(&m, &buf, &cfg, &mut a, 2_000_000, true),
        process_audio(&m, &buf, &cfg, &mut b, 2_000_000, false)
    );
    assert_eq!(a.mixer.phase, b.mixer.phase);
}
