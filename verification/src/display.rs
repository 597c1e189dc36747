//! What the spectrum and the frames tell of a signal: laws of arithmetic that does not round.

use crate::formula::{evaluates, iq_evaluates, is_i16, Formula};
use crate::frame::{
    audio_frame, encodes_audio, encodes_spectrum, encodes_spectrum_by, framed, in_pcm, pcm_of,
    tenths_of, word_bytes, words_of,
};
use crate::ideal::{
    im_worth, is_ideal, is_iq_sound, is_sound, lemma_iq_worth, lemma_worth, re_worth,
    reads_constants, worth, Ideal,
};
use crate::math::{SampleMath, FFT_SIZE};
use crate::measure::{is_truncated, larger, smaller, within, Measure};
use crate::raw::raw_level;
use crate::reals::{lemma_commute, lemma_half, lemma_same_total, square, total};
use crate::settings::Settings;
use crate::spectrum::{
    accumulates, adds_powers, adds_stretch, adds_stretch_by, is_downsampled, is_spectrum,
    is_spectrum_by, is_windowed, law_every_place_is_fed, mean_db, midpoint, plus_power, windowed,
};
use crate::tuning::{byte_level, lemma_level_worth};
use vstd::prelude::*;

verus! {

/// `frame` is stretch `a` of `buf`, 2048 samples of two bytes each, under the window.
pub open spec fn is_stretch<R, C>(
    ideal: Ideal<R, C>,
    buf: Seq<u8>,
    window: Seq<R>,
    a: int,
    frame: [C; FFT_SIZE],
) -> bool {
    let v = ideal.measure.value;
    forall|i: int|
        0 <= i < 2048 ==> (ideal.measure.re)(#[trigger] frame@[i]) == byte_level(
            buf[4096 * a + 2 * i],
        ) * v(window[i]) && (ideal.measure.im)(frame@[i]) == byte_level(buf[4096 * a + 2 * i + 1])
            * v(window[i])
}

/// The power in bin `bin` of a transform.
pub open spec fn bin_power<R, C>(ideal: Ideal<R, C>, transform: [C; FFT_SIZE], bin: int) -> real {
    square((ideal.measure.re)(transform@[bin])) + square((ideal.measure.im)(transform@[bin]))
}

/// `transform` is that of `frame`, stretch `a` of `buf`.
pub open spec fn is_transform<M: SampleMath>(
    math: &M,
    ideal: Ideal<M::Real, M::Iq>,
    buf: Seq<u8>,
    window: Seq<M::Real>,
    a: int,
    frame: [M::Iq; FFT_SIZE],
    transform: [M::Iq; FFT_SIZE],
) -> bool {
    &&& is_stretch(ideal, buf, window, a, frame)
    &&& call_ensures(M::forward, (math, frame), transform)
}

/// `transforms` are those of the stretches of `buf`.
pub open spec fn are_transforms<M: SampleMath>(
    math: &M,
    ideal: Ideal<M::Real, M::Iq>,
    buf: Seq<u8>,
    window: Seq<M::Real>,
    frames: Seq<[M::Iq; FFT_SIZE]>,
    transforms: Seq<[M::Iq; FFT_SIZE]>,
) -> bool {
    &&& frames.len() == transforms.len()
    &&& forall|a: int|
        0 <= a < transforms.len() ==> #[trigger] is_transform(
            math,
            ideal,
            buf,
            window,
            a,
            frames[a],
            transforms[a],
        )
}

/// A windowed sample.
proof fn lemma_windowed<M: SampleMath>(
    math: &M,
    ideal: Ideal<M::Real, M::Iq>,
    i: u8,
    q: u8,
    weight: M::Real,
    r: M::Iq,
)
    requires
        is_ideal(math, ideal),
        reads_constants(ideal),
        iq_evaluates(math, windowed(i, q, weight), r),
    ensures
        (ideal.measure.re)(r) == byte_level(i) * (ideal.measure.value)(weight),
        (ideal.measure.im)(r) == byte_level(q) * (ideal.measure.value)(weight),
{
    lemma_level_worth(ideal, i);
    lemma_level_worth(ideal, q);
    reveal_with_fuel(worth, 2);
    reveal_with_fuel(is_sound, 2);
    let known = Formula::<M::Real, M::Iq>::Known(weight);
    let re = raw_level::<M::Real, M::Iq>(i).times(known);
    let im = raw_level::<M::Real, M::Iq>(q).times(known);
    assert(is_sound(ideal, re) && worth(ideal, re) == byte_level(i) * (ideal.measure.value)(weight));
    assert(is_sound(ideal, im) && worth(ideal, im) == byte_level(q) * (ideal.measure.value)(weight));
    assert(is_iq_sound(ideal, windowed::<M::Real, M::Iq>(i, q, weight)));
    assert(re_worth(ideal, windowed::<M::Real, M::Iq>(i, q, weight)) == worth(ideal, re));
    assert(im_worth(ideal, windowed::<M::Real, M::Iq>(i, q, weight)) == worth(ideal, im));
    lemma_iq_worth(math, ideal, windowed(i, q, weight), r);
}

/// A windowed stretch.
proof fn lemma_stretch<M: SampleMath>(
    math: &M,
    ideal: Ideal<M::Real, M::Iq>,
    buf: Seq<u8>,
    window: Seq<M::Real>,
    k: int,
    frame: [M::Iq; FFT_SIZE],
)
    requires
        is_ideal(math, ideal),
        reads_constants(ideal),
        is_windowed(math, buf, window, k, frame),
    ensures
        is_stretch(ideal, buf, window, k, frame),
{
    let v = ideal.measure.value;
    assert forall|i: int| 0 <= i < 2048 implies (ideal.measure.re)(#[trigger] frame@[i])
        == byte_level(buf[4096 * k + 2 * i]) * v(window[i]) && (ideal.measure.im)(frame@[i])
        == byte_level(buf[4096 * k + 2 * i + 1]) * v(window[i]) by {
        assert(2 * (k * FFT_SIZE + i) == 4096 * k + 2 * i);
        lemma_windowed(
            math,
            ideal,
            buf[2 * (k * FFT_SIZE + i)],
            buf[2 * (k * FFT_SIZE + i) + 1],
            window[i],
            frame@[i],
        );
    }
}

/// What a stretch adds at one place.
proof fn lemma_place<M: SampleMath>(
    math: &M,
    ideal: Ideal<M::Real, M::Iq>,
    before: Seq<M::Real>,
    transform: [M::Iq; FFT_SIZE],
    after: Seq<M::Real>,
    place: int,
)
    requires
        is_ideal(math, ideal),
        adds_powers(math, before, transform, after),
        0 <= place < 2048,
    ensures
        (ideal.measure.value)(after[place]) == (ideal.measure.value)(before[place]) + bin_power(
            ideal,
            transform,
            (place + 1024) % 2048,
        ),
{
    law_every_place_is_fed(math, before, transform, after, place);
    let f = plus_power::<M::Real, M::Iq>(before[place], transform@[(place + 1024) % 2048]);
    reveal_with_fuel(worth, 4);
    reveal_with_fuel(re_worth, 4);
    reveal_with_fuel(im_worth, 4);
    reveal_with_fuel(is_sound, 4);
    reveal_with_fuel(is_iq_sound, 4);
    lemma_worth(math, ideal, f, after[place]);
}

/// A stretch, its transform, and the powers that it adds.
proof fn lemma_transform<M: SampleMath>(
    math: &M,
    ideal: Ideal<M::Real, M::Iq>,
    buf: Seq<u8>,
    window: Seq<M::Real>,
    k: int,
    before: Seq<M::Real>,
    after: Seq<M::Real>,
) -> (r: ([M::Iq; FFT_SIZE], [M::Iq; FFT_SIZE]))
    requires
        is_ideal(math, ideal),
        reads_constants(ideal),
        adds_stretch(math, buf, window, k, before, after),
    ensures
        is_transform(math, ideal, buf, window, k, r.0, r.1),
        adds_powers(math, before, r.1, after),
{
    let (frame, transform) = choose|frame: [M::Iq; FFT_SIZE], transform: [M::Iq; FFT_SIZE]|
        #[trigger]
        adds_stretch_by(math, buf, window, k, before, after, frame, transform);
    lemma_stretch(math, ideal, buf, window, k, frame);
    (frame, transform)
}

/// The transforms add up to the sums.
spec fn are_summed<M: SampleMath>(
    math: &M,
    sums: Seq<Seq<M::Real>>,
    transforms: Seq<[M::Iq; FFT_SIZE]>,
) -> bool {
    forall|a: int|
        0 <= a < transforms.len() ==> #[trigger] adds_powers(
            math,
            sums[a],
            transforms[a],
            sums[a + 1],
        )
}

/// The stretches that a spectrum is made of, and their transforms.
proof fn lemma_transforms<M: SampleMath>(
    math: &M,
    ideal: Ideal<M::Real, M::Iq>,
    buf: Seq<u8>,
    window: Seq<M::Real>,
    sums: Seq<Seq<M::Real>>,
    n: int,
) -> (r: (Seq<[M::Iq; FFT_SIZE]>, Seq<[M::Iq; FFT_SIZE]>))
    requires
        is_ideal(math, ideal),
        reads_constants(ideal),
        accumulates(math, buf, window, sums),
        0 <= n < sums.len(),
    ensures
        r.1.len() == n,
        are_transforms(math, ideal, buf, window, r.0, r.1),
        are_summed(math, sums, r.1),
    decreases n,
{
    if n == 0 {
        (Seq::empty(), Seq::empty())
    } else {
        let k = n - 1;
        let (f, t) = lemma_transforms(math, ideal, buf, window, sums, k);
        assert(adds_stretch(math, buf, window, k, sums[k], sums[k + 1]));
        let (frame, transform) = lemma_transform(
            math,
            ideal,
            buf,
            window,
            k,
            sums[k],
            sums[k + 1],
        );
        let frames = f.push(frame);
        let transforms = t.push(transform);
        assert forall|a: int| 0 <= a < transforms.len() implies #[trigger] is_transform(
            math,
            ideal,
            buf,
            window,
            a,
            frames[a],
            transforms[a],
        ) by {
            if a < k {
                assert(is_transform(math, ideal, buf, window, a, f[a], t[a]));
            }
        }
        assert forall|a: int| 0 <= a < transforms.len() implies #[trigger] adds_powers(
            math,
            sums[a],
            transforms[a],
            sums[a + 1],
        ) by {
            if a < k {
                assert(adds_powers(math, sums[a], t[a], sums[a + 1]));
            }
        }
        (frames, transforms)
    }
}

/// The sums at one place.
proof fn lemma_place_total<M: SampleMath>(
    math: &M,
    ideal: Ideal<M::Real, M::Iq>,
    sums: Seq<Seq<M::Real>>,
    transforms: Seq<[M::Iq; FFT_SIZE]>,
    place: int,
    n: int,
)
    requires
        is_ideal(math, ideal),
        are_summed(math, sums, transforms),
        evaluates(math, Formula::Single(0), sums[0][place]),
        0 <= place < 2048,
        0 <= n <= transforms.len(),
    ensures
        (ideal.measure.value)(sums[n][place]) == total(
            |a: int| bin_power(ideal, transforms[a], (place + 1024) % 2048),
            n as nat,
        ),
    decreases n,
{
    if n > 0 {
        let k = n - 1;
        lemma_place_total(math, ideal, sums, transforms, place, k);
        assert(adds_powers(math, sums[k], transforms[k], sums[k + 1]));
        lemma_place(math, ideal, sums[k], transforms[k], sums[k + 1], place);
    }
}

/// The spectrum tells the mean power of ten stretches in dBFS, ten times its decimal logarithm:
/// place `p` that in bin `p` + 1024 of their transforms, which goes on with bin 0 after bin
/// 2047. So frequency 0 stands in the middle, those above it to its right and those below it to
/// its left.
pub proof fn law_spectrum<M: SampleMath>(
    math: &M,
    ideal: Ideal<M::Real, M::Iq>,
    buf: Seq<u8>,
    window: Seq<M::Real>,
    spectrum: Seq<M::Real>,
)
    requires
        is_ideal(math, ideal),
        reads_constants(ideal),
        is_spectrum(math, buf, window, spectrum),
    ensures
        spectrum.len() == 2048,
        exists|frames: Seq<[M::Iq; FFT_SIZE]>, transforms: Seq<[M::Iq; FFT_SIZE]>|
            #![trigger frames.len(), transforms.len()]
            {
                let (v, re, im) = (ideal.measure.value, ideal.measure.re, ideal.measure.im);
                &&& frames.len() == 10
                &&& transforms.len() == 10
                &&& forall|a: int, i: int|
                    0 <= a < 10 && 0 <= i < 2048 ==> re(#[trigger] frames[a]@[i]) == (buf[4096 * a
                        + 2 * i] as real - 255real / 2real) / 32768real * v(window[i]) && im(
                        frames[a]@[i],
                    ) == (buf[4096 * a + 2 * i + 1] as real - 255real / 2real) / 32768real * v(
                        window[i],
                    )
                &&& forall|a: int|
                    0 <= a < 10 ==> call_ensures(
                        M::forward,
                        (math, frames[a]),
                        #[trigger] transforms[a],
                    )
                &&& forall|p: int|
                    0 <= p < 2048 ==> v(#[trigger] spectrum[p]) == 10real * (ideal.logarithm)(
                        total(
                            |a: int|
                                {
                                    let z = transforms[a]@[(p + 1024) % 2048];
                                    re(z) * re(z) + im(z) * im(z)
                                },
                            10,
                        ) / 10real + (ideal.measure.constant)(0x0DA2_4260),
                    )
            },
{
    let sums = choose|sums: Seq<Seq<M::Real>>| #[trigger]
        is_spectrum_by(math, buf, window, spectrum, sums);
    let (frames, transforms) = lemma_transforms(math, ideal, buf, window, sums, 10);
    let (v, re, im) = (ideal.measure.value, ideal.measure.re, ideal.measure.im);
    assert forall|p: int| 0 <= p < 2048 implies v(#[trigger] spectrum[p]) == 10real * (
    ideal.logarithm)(
        total(
            |a: int|
                {
                    let z = transforms[a]@[(p + 1024) % 2048];
                    re(z) * re(z) + im(z) * im(z)
                },
            10,
        ) / 10real + (ideal.measure.constant)(0x0DA2_4260),
    ) by {
        assert(evaluates(math, mean_db(sums.last()[p]), spectrum[p]));
        reveal_with_fuel(worth, 6);
        reveal_with_fuel(is_sound, 6);
        lemma_worth(math, ideal, mean_db(sums.last()[p]), spectrum[p]);
        assert(evaluates(math, Formula::Single(0), sums[0][p]));
        lemma_place_total(math, ideal, sums, transforms, p, 10);
        let f = |a: int| bin_power(ideal, transforms[a], (p + 1024) % 2048);
        let g = |a: int|
            {
                let z = transforms[a]@[(p + 1024) % 2048];
                re(z) * re(z) + im(z) * im(z)
            };
        lemma_same_total(f, g, 10);
    }
    assert forall|a: int, i: int| 0 <= a < 10 && 0 <= i < 2048 implies re(#[trigger] frames[a]@[i])
        == (buf[4096 * a + 2 * i] as real - 255real / 2real) / 32768real * v(window[i]) && im(
        frames[a]@[i],
    ) == (buf[4096 * a + 2 * i + 1] as real - 255real / 2real) / 32768real * v(window[i]) by {
        assert(is_transform(math, ideal, buf, window, a, frames[a], transforms[a]));
    }
    assert forall|a: int| 0 <= a < 10 implies call_ensures(
        M::forward,
        (math, frames[a]),
        #[trigger] transforms[a],
    ) by {
        assert(is_transform(math, ideal, buf, window, a, frames[a], transforms[a]));
    }
    assert(frames.len() == 10 && transforms.len() == 10);
}

/// The display has half the resolution: bin `i` of 1024 is the mean of two, and the one in the
/// middle, where the receiver's own oscillator shows, the mean of its two neighbours.
pub proof fn law_display<M: SampleMath>(
    math: &M,
    ideal: Ideal<M::Real, M::Iq>,
    spectrum: Seq<M::Real>,
    bins: Seq<M::Real>,
    i: int,
)
    requires
        is_ideal(math, ideal),
        reads_constants(ideal),
        is_downsampled(math, spectrum, bins),
        0 <= i < 1024,
    ensures
        bins.len() == 1024,
        ({
            let v = ideal.measure.value;
            &&& i != 512 ==> 2real * v(bins[i]) == v(spectrum[2 * i]) + v(spectrum[2 * i + 1])
            &&& 2real * v(bins[512]) == v(bins[511]) + v(bins[513])
        }),
{
    if i != 512 {
        assert(evaluates(math, midpoint(spectrum[2 * i], spectrum[2 * i + 1]), bins[i]));
        lemma_midpoint(math, ideal, spectrum[2 * i], spectrum[2 * i + 1], bins[i]);
    }
    lemma_midpoint(math, ideal, bins[511], bins[513], bins[512]);
}

/// A mean of two.
proof fn lemma_midpoint<M: SampleMath>(
    math: &M,
    ideal: Ideal<M::Real, M::Iq>,
    a: M::Real,
    b: M::Real,
    r: M::Real,
)
    requires
        is_ideal(math, ideal),
        reads_constants(ideal),
        evaluates(math, midpoint(a, b), r),
    ensures
        2real * (ideal.measure.value)(r) == (ideal.measure.value)(a) + (ideal.measure.value)(b),
{
    reveal_with_fuel(worth, 4);
    reveal_with_fuel(is_sound, 4);
    lemma_worth(math, ideal, midpoint(a, b), r);
    lemma_half(
        (ideal.measure.value)(a) + (ideal.measure.value)(b),
        (ideal.measure.constant)(0x3F00_0000),
    );
}

/// `n` is the whole number nearest to `x`, or one of two that are.
pub open spec fn is_nearest(x: real, n: real) -> bool {
    &&& within(x - n, 1real / 2real)
    &&& n == n.floor() as real
}

/// `math` rounds to whole numbers, limits and makes integers of 16 bits without an error.
pub open spec fn packs_exactly<M: SampleMath>(math: &M, m: Measure<M::Real, M::Iq>) -> bool {
    &&& forall|x: M::Real, r: M::Real| #[trigger]
        call_ensures(M::rounded, (math, x), r) ==> is_nearest((m.value)(x), (m.value)(r))
    &&& forall|x: M::Real, low: M::Real, high: M::Real, r: M::Real| #[trigger]
        call_ensures(M::limited, (math, x, low, high), r) ==> (m.value)(r) == larger(
            (m.value)(low),
            smaller((m.value)(x), (m.value)(high)),
        )
    &&& forall|x: M::Real, v: i16| #[trigger]
        call_ensures(M::to_i16, (math, x), v) && -32768real <= (m.value)(x) <= 32767real
            ==> is_truncated((m.value)(x), v as real)
}

/// The signed 16-bit number in the two bytes of `frame` from `at` on, the lower one first.
pub open spec fn number_at(frame: Seq<u8>, at: int) -> int {
    let w = frame[at] + 256 * frame[at + 1];
    if w >= 0x8000 {
        w - 0x1_0000
    } else {
        w
    }
}

/// A word in a frame.
proof fn lemma_word_at(kind: u8, words: Seq<int>, k: int)
    requires
        0 <= k < words.len(),
        0 <= words[k] < 0x1_0000,
    ensures
        framed(kind, words).len() == 1 + 2 * words.len(),
        framed(kind, words)[0] == kind,
        framed(kind, words)[1 + 2 * k] + 256 * framed(kind, words)[2 + 2 * k] == words[k],
{
    let frame = framed(kind, words);
    assert(frame[1 + 2 * k] == word_bytes(words)[2 * k]);
    assert(frame[2 + 2 * k] == word_bytes(words)[2 * k + 1]);
    assert((2 * k) / 2 == k && (2 * k + 1) / 2 == k);
}

/// `v` is `x` on a scale of ten to one, rounded to the nearest and limited to 16 bits.
pub open spec fn is_in_tenths(x: real, v: int) -> bool {
    &&& -32768 <= v <= 32767
    &&& -32768real <= 10real * x <= 32767real ==> within(10real * x - v as real, 1real / 2real)
    &&& 10real * x > 32767real ==> v == 32767
    &&& 10real * x < -32768real ==> v == -32768
}

/// `v` is `x` on the scale of 16-bit PCM, rounded toward zero and limited to 16 bits.
pub open spec fn is_in_pcm(x: real, v: int) -> bool {
    &&& -32768 <= v <= 32767
    &&& -32768real <= 32767real * x <= 32767real ==> is_truncated(32767real * x, v as real)
    &&& 32767real * x > 32767real ==> v == 32767
    &&& 32767real * x < -32768real ==> v == -32768
}

/// A level in tenths.
proof fn lemma_tenths<M: SampleMath>(
    math: &M,
    ideal: Ideal<M::Real, M::Iq>,
    level: M::Real,
    v: i16,
)
    requires
        is_ideal(math, ideal),
        reads_constants(ideal),
        packs_exactly(math, ideal.measure),
        is_i16(math, tenths_of(level), v),
    ensures
        is_in_tenths((ideal.measure.value)(level), v as int),
{
    let m = ideal.measure;
    let scaled = Formula::<M::Real, M::Iq>::Known(level).times(Formula::Single(0x4120_0000));
    let y = choose|y: M::Real| #[trigger]
        call_ensures(M::to_i16, (math, y), v) && evaluates(math, tenths_of(level), y);
    let (x, low, high) = choose|x: M::Real, l: M::Real, h: M::Real| #[trigger]
        call_ensures(M::limited, (math, x, l, h), y) && evaluates(math, scaled.rounded(), x)
            && evaluates(math, Formula::Single(0xC700_0000), l) && evaluates(
            math,
            Formula::Single(0x46FF_FE00),
            h,
        );
    let z = choose|z: M::Real| #[trigger]
        call_ensures(M::rounded, (math, z), x) && evaluates(math, scaled, z);
    reveal_with_fuel(worth, 3);
    reveal_with_fuel(is_sound, 3);
    lemma_worth(math, ideal, scaled, z);
    let n = (m.value)(x).floor();
    let t = 10real * (m.value)(level);
    assert((m.value)(z) == t);
    assert((m.value)(low) == -32768real && (m.value)(high) == 32767real);
    if n > 32767 {
        assert((m.value)(x) >= 32768real);
    } else if n < -32768 {
        assert((m.value)(x) <= -32769real);
    } else {
        assert((m.value)(y) == n as real);
        assert(v == n);
    }
}

/// A sample on the scale of PCM.
proof fn lemma_pcm<M: SampleMath>(math: &M, ideal: Ideal<M::Real, M::Iq>, sample: M::Real, v: i16)
    requires
        is_ideal(math, ideal),
        reads_constants(ideal),
        packs_exactly(math, ideal.measure),
        is_i16(math, pcm_of(sample), v),
    ensures
        is_in_pcm((ideal.measure.value)(sample), v as int),
{
    let m = ideal.measure;
    let scaled = Formula::<M::Real, M::Iq>::Known(sample).times(Formula::Single(0x46FF_FE00));
    let y = choose|y: M::Real| #[trigger]
        call_ensures(M::to_i16, (math, y), v) && evaluates(math, pcm_of(sample), y);
    let (x, low, high) = choose|x: M::Real, l: M::Real, h: M::Real| #[trigger]
        call_ensures(M::limited, (math, x, l, h), y) && evaluates(math, scaled, x) && evaluates(
            math,
            Formula::Single(0xC700_0000),
            l,
        ) && evaluates(math, Formula::Single(0x46FF_FE00), h);
    reveal_with_fuel(worth, 3);
    reveal_with_fuel(is_sound, 3);
    lemma_worth(math, ideal, scaled, x);
    lemma_commute((m.value)(sample), 32767real);
    assert((m.value)(x) == 32767real * (m.value)(sample));
    assert((m.value)(low) == -32768real && (m.value)(high) == 32767real);
}

/// What a spectrum frame tells: after its type, 'S', the four bounds of the display's ranges and
/// then the bins, two bytes each, in tenths of a dB.
pub proof fn law_spectrum_frame<M: SampleMath>(
    math: &M,
    ideal: Ideal<M::Real, M::Iq>,
    bins: Seq<M::Real>,
    s: Settings,
    frame: Seq<u8>,
    k: int,
)
    requires
        is_ideal(math, ideal),
        reads_constants(ideal),
        packs_exactly(math, ideal.measure),
        encodes_spectrum(math, bins, s, frame),
        0 <= k < bins.len(),
    ensures
        frame.len() == 9 + 2 * bins.len(),
        frame[0] == 0x53,
        ({
            let signed = |w: int| if w >= 0x8000 { w - 0x1_0000 } else { w };
            let number = |at: int| signed(frame[at] + 256 * frame[at + 1]);
            let in_tenths = |x: real, n: int|
                if 10real * x > 32767real {
                    n == 32767
                } else if 10real * x < -32768real {
                    n == -32768
                } else {
                    -1real / 2real <= 10real * x - n as real <= 1real / 2real
                };
            &&& in_tenths((ideal.measure.constant)(s.spec_min_db), number(1))
            &&& in_tenths((ideal.measure.constant)(s.spec_max_db), number(3))
            &&& in_tenths((ideal.measure.constant)(s.wf_min_db), number(5))
            &&& in_tenths((ideal.measure.constant)(s.wf_max_db), number(7))
            &&& in_tenths((ideal.measure.value)(bins[k]), number(9 + 2 * k))
        }),
{
    let (levels, ranges, values) = choose|
        levels: Seq<M::Real>,
        ranges: Seq<i16>,
        values: Seq<i16>,
    | #[trigger]
        encodes_spectrum_by(math, bins, s, frame, levels, ranges, values);
    let all = ranges + values;
    let words = words_of(all);
    assert forall|j: int| 0 <= j < all.len() implies number_at(frame, 1 + 2 * j)
        == #[trigger] all[j] by {
        lemma_word_at(0x53, words, j);
    }
    lemma_word_at(0x53, words, 0);
    assert(all[0] == ranges[0] && all[1] == ranges[1] && all[2] == ranges[2] && all[3]
        == ranges[3] && all[4 + k] == values[k]);
    lemma_tenths(math, ideal, levels[0], ranges[0]);
    lemma_tenths(math, ideal, levels[1], ranges[1]);
    lemma_tenths(math, ideal, levels[2], ranges[2]);
    lemma_tenths(math, ideal, levels[3], ranges[3]);
    lemma_tenths(math, ideal, bins[k], values[k]);
}

/// What an audio frame tells: after its type, 'A', the low 16 bits of the sample rate and then
/// the samples, two bytes each, on the scale of 16-bit PCM.
pub proof fn law_audio_frame_tells<M: SampleMath>(
    math: &M,
    ideal: Ideal<M::Real, M::Iq>,
    samples: Seq<M::Real>,
    rate: u32,
    frame: Seq<u8>,
    i: int,
)
    requires
        is_ideal(math, ideal),
        reads_constants(ideal),
        packs_exactly(math, ideal.measure),
        encodes_audio(math, samples, rate, frame),
        0 <= i < samples.len(),
    ensures
        frame.len() == 3 + 2 * samples.len(),
        frame[0] == 0x41,
        frame[1] + 256 * frame[2] == rate as int % 0x1_0000,
        ({
            let w = frame[3 + 2 * i] + 256 * frame[4 + 2 * i];
            let n = if w >= 0x8000 { w - 0x1_0000 } else { w };
            let x = 32767real * (ideal.measure.value)(samples[i]);
            if x > 32767real {
                n == 32767
            } else if x < -32768real {
                n == -32768
            } else if x >= 0real {
                n as real <= x < n as real + 1real
            } else {
                n as real - 1real < x <= n as real
            }
        }),
{
    let values = choose|values: Seq<i16>| #[trigger]
        in_pcm(math, samples, values) && frame == audio_frame(rate, values);
    let words = seq![rate as int % 0x1_0000] + words_of(values);
    lemma_word_at(0x41, words, 0);
    lemma_word_at(0x41, words, 1 + i);
    assert(is_i16(math, pcm_of(samples[i]), values[i]));
    lemma_pcm(math, ideal, samples[i], values[i]);
}

} // verus!
