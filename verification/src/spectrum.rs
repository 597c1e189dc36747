//! From raw IQ bytes to the spectrum that is displayed.

use crate::formula::{evaluates, iq_evaluates, Formula, IqFormula, HALF, ONE, PI, TEN, TWO, ZERO};
use crate::math::{SampleMath, FFT_AVERAGES, FFT_SIZE, OUTPUT_BINS};
use crate::raw::{level, raw_level};
use vstd::prelude::*;

verus! {

/// The bit pattern of 1e-30, which keeps the logarithm of no power at all finite.
pub const TINY_POWER: u32 = 0x0DA2_4260;

/// Point `i` of a Hann window of `n` points: (1 - cos(2 pi i / (n - 1))) / 2.
pub open spec fn hann<R, C>(i: int, n: int) -> Formula<R, C> {
    let turn = Formula::Single(TWO).times(Formula::Single(PI));
    let angle = turn.times(Formula::Whole(i as u64)).over(Formula::Whole((n - 1) as u64));
    Formula::Single(HALF).times(Formula::Single(ONE).minus(angle.cosine()))
}

/// The sample with the raw bytes `i` and `q`, weighted by `weight`.
pub open spec fn windowed<R, C>(i: u8, q: u8, weight: R) -> IqFormula<R, C> {
    raw_level(i).times(Formula::Known(weight)).with_imaginary(
        raw_level(q).times(Formula::Known(weight)),
    )
}

/// `sum` plus the power of `sample`.
pub open spec fn plus_power<R, C>(sum: R, sample: C) -> Formula<R, C> {
    Formula::Known(sum).plus(IqFormula::Known(sample).norm_sqr())
}

/// The mean power in dBFS of the transforms whose powers add up to `sum`.
pub open spec fn mean_db<R, C>(sum: R) -> Formula<R, C> {
    let mean = Formula::Known(sum).over(Formula::Whole(FFT_AVERAGES as u64));
    Formula::Single(TEN).times(mean.plus(Formula::Single(TINY_POWER)).logarithm())
}

/// The mean of `a` and `b`.
pub open spec fn midpoint<R, C>(a: R, b: R) -> Formula<R, C> {
    Formula::Known(a).plus(Formula::Known(b)).times(Formula::Single(HALF))
}

/// Where bin `i` of a transform stands in the spectrum: the bins are turned by half the size,
/// so that frequency 0 comes to stand in the middle.
pub open spec fn shifted(i: int) -> int {
    (i + FFT_SIZE / 2) % FFT_SIZE as int
}

/// `window` is a Hann window, as `math` computes it.
pub open spec fn is_window<M: SampleMath>(math: &M, window: Seq<M::Real>) -> bool {
    forall|i: int|
        0 <= i < window.len() ==> evaluates(
            math,
            hann(i, window.len() as int),
            #[trigger] window[i],
        )
}

/// `frame` holds the samples of the `a`th stretch of `buf`, weighted by `window`.
pub open spec fn is_windowed<M: SampleMath>(
    math: &M,
    buf: Seq<u8>,
    window: Seq<M::Real>,
    a: int,
    frame: [M::Iq; FFT_SIZE],
) -> bool {
    forall|i: int|
        0 <= i < FFT_SIZE ==> iq_evaluates(
            math,
            windowed(buf[2 * (a * FFT_SIZE + i)], buf[2 * (a * FFT_SIZE + i) + 1], window[i]),
            #[trigger] frame@[i],
        )
}

/// `after` holds the power sums of `before` plus the powers of the bins of `transform`, each
/// at its place in the spectrum.
pub open spec fn adds_powers<M: SampleMath>(
    math: &M,
    before: Seq<M::Real>,
    transform: [M::Iq; FFT_SIZE],
    after: Seq<M::Real>,
) -> bool {
    &&& after.len() == FFT_SIZE
    &&& forall|i: int|
        0 <= i < FFT_SIZE ==> evaluates(
            math,
            plus_power(before[shifted(i)], #[trigger] transform@[i]),
            after[shifted(i)],
        )
}

/// `sums` are the power sums after none, one, two .. of the first stretches of `buf`: zeros,
/// and then each stretch windowed, transformed and added.
pub open spec fn accumulates<M: SampleMath>(
    math: &M,
    buf: Seq<u8>,
    window: Seq<M::Real>,
    sums: Seq<Seq<M::Real>>,
) -> bool {
    &&& sums.len() >= 1
    &&& sums[0].len() == FFT_SIZE
    &&& forall|i: int| 0 <= i < FFT_SIZE ==> evaluates(
        math,
        Formula::Single(ZERO),
        #[trigger] sums[0][i],
    )
    &&& forall|a: int|
        0 <= a < sums.len() - 1 ==> #[trigger] adds_stretch(
            math,
            buf,
            window,
            a,
            sums[a],
            sums[a + 1],
        )
}

/// `after` holds the power sums of `before` plus the powers of the `a`th stretch of `buf`.
pub open spec fn adds_stretch<M: SampleMath>(
    math: &M,
    buf: Seq<u8>,
    window: Seq<M::Real>,
    a: int,
    before: Seq<M::Real>,
    after: Seq<M::Real>,
) -> bool {
    exists|frame: [M::Iq; FFT_SIZE], transform: [M::Iq; FFT_SIZE]| #[trigger]
        adds_stretch_by(math, buf, window, a, before, after, frame, transform)
}

/// The stretch is `frame` once windowed, and `transform` is its transform.
pub open spec fn adds_stretch_by<M: SampleMath>(
    math: &M,
    buf: Seq<u8>,
    window: Seq<M::Real>,
    a: int,
    before: Seq<M::Real>,
    after: Seq<M::Real>,
    frame: [M::Iq; FFT_SIZE],
    transform: [M::Iq; FFT_SIZE],
) -> bool {
    &&& is_windowed(math, buf, window, a, frame)
    &&& call_ensures(M::forward, (math, frame), transform)
    &&& adds_powers(math, before, transform, after)
}

/// `spectrum` is the averaged spectrum of `buf` in dBFS.
pub open spec fn is_spectrum<M: SampleMath>(
    math: &M,
    buf: Seq<u8>,
    window: Seq<M::Real>,
    spectrum: Seq<M::Real>,
) -> bool {
    exists|sums: Seq<Seq<M::Real>>| #[trigger] is_spectrum_by(math, buf, window, spectrum, sums)
}

/// The power sums are `sums`.
pub open spec fn is_spectrum_by<M: SampleMath>(
    math: &M,
    buf: Seq<u8>,
    window: Seq<M::Real>,
    spectrum: Seq<M::Real>,
    sums: Seq<Seq<M::Real>>,
) -> bool {
    &&& accumulates(math, buf, window, sums)
    &&& sums.len() == FFT_AVERAGES + 1
    &&& in_db(math, sums.last(), spectrum)
}

/// `levels` are the power sums `sums`, averaged and in dBFS.
pub open spec fn in_db<M: SampleMath>(math: &M, sums: Seq<M::Real>, levels: Seq<M::Real>) -> bool {
    &&& levels.len() == FFT_SIZE
    &&& forall|i: int|
        0 <= i < FFT_SIZE ==> evaluates(math, mean_db(sums[i]), #[trigger] levels[i])
}

/// `bins` is `spectrum` at half the resolution, its middle bin replaced by the mean of its
/// two neighbours.
pub open spec fn is_downsampled<M: SampleMath>(
    math: &M,
    spectrum: Seq<M::Real>,
    bins: Seq<M::Real>,
) -> bool {
    &&& bins.len() == OUTPUT_BINS
    &&& forall|i: int|
        0 <= i < OUTPUT_BINS && i != OUTPUT_BINS / 2 ==> evaluates(
            math,
            midpoint(spectrum[2 * i], spectrum[2 * i + 1]),
            #[trigger] bins[i],
        )
    &&& evaluates(
        math,
        midpoint(bins[OUTPUT_BINS / 2 - 1], bins[OUTPUT_BINS / 2 + 1]),
        bins[OUTPUT_BINS as int / 2],
    )
}

/// Computes point `i` of a Hann window of `n` points.
fn hann_point<M: SampleMath>(math: &M, i: usize, n: usize) -> (r: M::Real)
    requires
        i < n,
    ensures
        evaluates(math, hann(i as int, n as int), r),
{
    let turn = math.times(math.single(TWO), math.single(PI));
    let angle = math.over(math.times(turn, math.whole(i as u64)), math.whole((n - 1) as u64));
    let r = math.times(math.single(HALF), math.minus(math.single(ONE), math.cosine(angle)));
    proof {
        reveal_with_fuel(evaluates, 8);
    }
    r
}

/// Weights the sample with the raw bytes `i` and `q` by `weight`.
fn weighted<M: SampleMath>(math: &M, i: u8, q: u8, weight: M::Real) -> (r: M::Iq)
    ensures
        iq_evaluates(math, windowed(i, q, weight), r),
{
    let re = math.times(level(math, i), weight);
    let im = math.times(level(math, q), weight);
    let r = math.iq(re, im);
    proof {
        reveal_with_fuel(evaluates, 3);
        reveal_with_fuel(iq_evaluates, 3);
    }
    r
}

/// Computes the mean power in dBFS of the transforms whose powers add up to `sum`.
fn level_in_db<M: SampleMath>(math: &M, sum: M::Real) -> (r: M::Real)
    ensures
        evaluates(math, mean_db(sum), r),
{
    let mean = math.over(sum, math.whole(FFT_AVERAGES as u64));
    let r = math.times(math.single(TEN), math.logarithm(math.plus(mean, math.single(TINY_POWER))));
    proof {
        reveal_with_fuel(evaluates, 6);
    }
    r
}

/// Computes the mean of `a` and `b`.
fn middle<M: SampleMath>(math: &M, a: M::Real, b: M::Real) -> (r: M::Real)
    ensures
        evaluates(math, midpoint(a, b), r),
{
    let r = math.times(math.plus(a, b), math.single(HALF));
    proof {
        reveal_with_fuel(evaluates, 3);
    }
    r
}

/// Makes a Hann window of `n` points.
pub fn make_hann_window<M: SampleMath>(math: &M, n: usize) -> (r: Vec<M::Real>)
    ensures
        r@.len() == n,
        is_window(math, r@),
{
    let mut window: Vec<M::Real> = Vec::new();
    let mut i: usize = 0;
    while i < n
        invariant
            i <= n,
            window@.len() == i,
            forall|j: int|
                0 <= j < i ==> evaluates(math, hann(j, n as int), #[trigger] window@[j]),
        decreases n - i,
    {
        window.push(hann_point(math, i, n));
        i += 1;
    }
    window
}

/// The `a`th stretch of `buf`, weighted by `window`.
fn window_stretch<M: SampleMath>(math: &M, buf: &[u8], window: &[M::Real], a: usize) -> (r: [M::Iq;
    FFT_SIZE])
    requires
        a < FFT_AVERAGES,
        buf@.len() >= FFT_SIZE * FFT_AVERAGES * 2,
        window@.len() >= FFT_SIZE,
    ensures
        is_windowed(math, buf@, window@, a as int, r),
{
    let mut frame: [M::Iq; FFT_SIZE] = [math.iq(math.single(ZERO), math.single(ZERO));FFT_SIZE];
    let mut i: usize = 0;
    while i < FFT_SIZE
        invariant
            a < FFT_AVERAGES,
            buf@.len() >= FFT_SIZE * FFT_AVERAGES * 2,
            window@.len() >= FFT_SIZE,
            i <= FFT_SIZE,
            forall|j: int|
                0 <= j < i ==> iq_evaluates(
                    math,
                    windowed(
                        buf@[2 * (a * FFT_SIZE + j)],
                        buf@[2 * (a * FFT_SIZE + j) + 1],
                        window@[j],
                    ),
                    #[trigger] frame@[j],
                ),
        decreases FFT_SIZE - i,
    {
        let at: usize = 2 * (a * FFT_SIZE + i);
        let sample = weighted(math, buf[at], buf[at + 1], window[i]);
        let ghost before = frame@;
        frame[i] = sample;
        assert(frame@ =~= before.update(i as int, sample));
        i += 1;
    }
    frame
}

/// Adds the powers of the bins of `transform` to `sums`.
fn add_powers<M: SampleMath>(
    math: &M,
    sums: &Vec<M::Real>,
    transform: &[M::Iq; FFT_SIZE],
) -> (r: Vec<M::Real>)
    requires
        sums@.len() == FFT_SIZE,
    ensures
        adds_powers(math, sums@, *transform, r@),
{
    let mut after: Vec<M::Real> = Vec::new();
    let mut place: usize = 0;
    while place < FFT_SIZE
        invariant
            place <= FFT_SIZE,
            sums@.len() == FFT_SIZE,
            after@.len() == place,
            forall|i: int|
                0 <= i < FFT_SIZE && shifted(i) < place ==> evaluates(
                    math,
                    plus_power(sums@[shifted(i)], #[trigger] transform@[i]),
                    after@[shifted(i)],
                ),
        decreases FFT_SIZE - place,
    {
        let bin: usize = (place + FFT_SIZE / 2) % FFT_SIZE;
        let power = math.plus(sums[place], math.norm_sqr(transform[bin]));
        let ghost before = after@;
        after.push(power);
        proof {
            reveal_with_fuel(evaluates, 3);
            assert forall|i: int|
                0 <= i < FFT_SIZE && shifted(i) < place + 1 implies evaluates(
                math,
                plus_power(sums@[shifted(i)], #[trigger] transform@[i]),
                after@[shifted(i)],
            ) by {
                if shifted(i) < place {
                    assert(after@[shifted(i)] == before[shifted(i)]);
                } else {
                    assert(i == bin);
                }
            }
        }
        place += 1;
    }
    after
}

/// Computes the averaged spectrum of `buf` in dBFS.
pub fn compute_spectrum<M: SampleMath>(math: &M, buf: &[u8], window: &[M::Real]) -> (r: Vec<
    M::Real,
>)
    requires
        buf@.len() >= FFT_SIZE * FFT_AVERAGES * 2,
        window@.len() >= FFT_SIZE,
    ensures
        is_spectrum(math, buf@, window@, r@),
{
    let mut sum: Vec<M::Real> = Vec::new();
    let mut i: usize = 0;
    while i < FFT_SIZE
        invariant
            i <= FFT_SIZE,
            sum@.len() == i,
            forall|j: int| 0 <= j < i ==> evaluates(
                    math,
                    Formula::Single(ZERO),
                    #[trigger] sum@[j],
                ),
        decreases FFT_SIZE - i,
    {
        sum.push(math.single(ZERO));
        i += 1;
    }
    let ghost mut sums: Seq<Seq<M::Real>> = seq![sum@];
    let mut a: usize = 0;
    while a < FFT_AVERAGES
        invariant
            a <= FFT_AVERAGES,
            buf@.len() >= FFT_SIZE * FFT_AVERAGES * 2,
            window@.len() >= FFT_SIZE,
            sum@.len() == FFT_SIZE,
            sums.len() == a + 1,
            sums.last() == sum@,
            accumulates(math, buf@, window@, sums),
        decreases FFT_AVERAGES - a,
    {
        let frame = window_stretch(math, buf, window, a);
        let transform = math.forward(frame);
        let after = add_powers(math, &sum, &transform);
        proof {
            let before = sums;
            assert(adds_stretch_by(
                math,
                buf@,
                window@,
                a as int,
                sum@,
                after@,
                frame,
                transform,
            ));
            sums = sums.push(after@);
            assert forall|b: int| 0 <= b < sums.len() - 1 implies #[trigger] adds_stretch(
                math,
                buf@,
                window@,
                b,
                sums[b],
                sums[b + 1],
            ) by {
                if b < a {
                    assert(adds_stretch(math, buf@, window@, b, before[b], before[b + 1]));
                }
            }
        }
        sum = after;
        a += 1;
    }
    let mut levels: Vec<M::Real> = Vec::new();
    let mut k: usize = 0;
    while k < FFT_SIZE
        invariant
            k <= FFT_SIZE,
            sum@.len() == FFT_SIZE,
            levels@.len() == k,
            forall|j: int|
                0 <= j < k ==> evaluates(math, mean_db(sum@[j]), #[trigger] levels@[j]),
        decreases FFT_SIZE - k,
    {
        levels.push(level_in_db(math, sum[k]));
        k += 1;
    }
    assert(is_spectrum_by(math, buf@, window@, levels@, sums));
    levels
}

/// Halves the resolution of `spectrum` and smooths over the middle bin, where the receiver's
/// own oscillator shows.
pub fn downsample<M: SampleMath>(math: &M, spectrum: &[M::Real]) -> (r: Vec<M::Real>)
    requires
        spectrum@.len() >= 2 * OUTPUT_BINS,
    ensures
        is_downsampled(math, spectrum@, r@),
{
    let mut bins: Vec<M::Real> = Vec::new();
    let mut i: usize = 0;
    while i < OUTPUT_BINS
        invariant
            i <= OUTPUT_BINS,
            spectrum@.len() >= 2 * OUTPUT_BINS,
            bins@.len() == i,
            forall|j: int|
                0 <= j < i ==> evaluates(
                    math,
                    midpoint(spectrum@[2 * j], spectrum@[2 * j + 1]),
                    #[trigger] bins@[j],
                ),
        decreases OUTPUT_BINS - i,
    {
        bins.push(middle(math, spectrum[i * 2], spectrum[i * 2 + 1]));
        i += 1;
    }
    let dc: usize = OUTPUT_BINS / 2;
    let smoothed = middle(math, bins[dc - 1], bins[dc + 1]);
    bins[dc] = smoothed;
    bins
}

/// The spectrum is a rearrangement of the transform's bins: turning twice restores the order,
/// so no two bins share a place, and frequency 0 stands in the middle.
pub proof fn law_shift(i: int)
    requires
        0 <= i < FFT_SIZE,
    ensures
        0 <= shifted(i) < FFT_SIZE,
        shifted(shifted(i)) == i,
        shifted(0) == FFT_SIZE / 2,
{
}

/// Every place in a stretch's power sums is fed by exactly the bin that stands there.
pub proof fn law_every_place_is_fed<M: SampleMath>(
    math: &M,
    before: Seq<M::Real>,
    transform: [M::Iq; FFT_SIZE],
    after: Seq<M::Real>,
    place: int,
)
    requires
        adds_powers(math, before, transform, after),
        0 <= place < FFT_SIZE,
    ensures
        evaluates(math, plus_power(before[place], transform@[shifted(place)]), after[place]),
{
    law_shift(place);
    let bin = shifted(place);
    assert(evaluates(
        math,
        plus_power(before[shifted(bin)], transform@[bin]),
        after[shifted(bin)],
    ));
}

/// The `a`th stretch of `buf`.
pub open spec fn stretch(buf: Seq<u8>, a: int) -> Seq<u8> {
    buf.subrange(2 * (a * FFT_SIZE), 2 * (a * FFT_SIZE) + 2 * FFT_SIZE)
}

/// `sum` plus the power of `z` plus that of `w`.
pub open spec fn plus_two_powers<R, C>(sum: R, z: C, w: C) -> Formula<R, C> {
    Formula::Known(sum).plus(IqFormula::Known(z).norm_sqr()).plus(IqFormula::Known(w).norm_sqr())
}

/// The order in which powers are added makes no difference: `math` does not round.
pub open spec fn powers_commute<M: SampleMath>(math: &M) -> bool {
    forall|sum: M::Real, z: M::Iq, w: M::Iq, r: M::Real| #[trigger]
        evaluates(math, plus_two_powers(sum, z, w), r) ==> evaluates(
            math,
            plus_two_powers(sum, w, z),
            r,
        )
}

/// A stretch is windowed alike wherever it stands.
proof fn lemma_windowed_alike<M: SampleMath>(
    math: &M,
    buf: Seq<u8>,
    a: int,
    other: Seq<u8>,
    b: int,
    window: Seq<M::Real>,
    frame: [M::Iq; FFT_SIZE],
)
    requires
        0 <= a,
        0 <= b,
        2 * (a * FFT_SIZE) + 2 * FFT_SIZE <= buf.len(),
        2 * (b * FFT_SIZE) + 2 * FFT_SIZE <= other.len(),
        stretch(buf, a) == stretch(other, b),
        is_windowed(math, buf, window, a, frame),
    ensures
        is_windowed(math, other, window, b, frame),
{
    assert forall|i: int| 0 <= i < FFT_SIZE implies iq_evaluates(
        math,
        windowed(other[2 * (b * FFT_SIZE + i)], other[2 * (b * FFT_SIZE + i) + 1], window[i]),
        #[trigger] frame@[i],
    ) by {
        assert(iq_evaluates(
            math,
            windowed(buf[2 * (a * FFT_SIZE + i)], buf[2 * (a * FFT_SIZE + i) + 1], window[i]),
            frame@[i],
        ));
        assert(stretch(buf, a)[2 * i] == buf[2 * (a * FFT_SIZE + i)]);
        assert(stretch(buf, a)[2 * i + 1] == buf[2 * (a * FFT_SIZE + i) + 1]);
        assert(stretch(other, b)[2 * i] == other[2 * (b * FFT_SIZE + i)]);
        assert(stretch(other, b)[2 * i + 1] == other[2 * (b * FFT_SIZE + i) + 1]);
    }
}

/// Adding two powers in the other order leads to the same sum.
proof fn lemma_power_exchanged<M: SampleMath>(
    math: &M,
    sum: M::Real,
    z: M::Iq,
    between: M::Real,
    w: M::Iq,
    after: M::Real,
) -> (m: M::Real)
    requires
        powers_commute(math),
        evaluates(math, plus_power(sum, z), between),
        evaluates(math, plus_power(between, w), after),
    ensures
        evaluates(math, plus_power(sum, w), m),
        evaluates(math, plus_power(m, z), after),
{
    let power = IqFormula::<M::Real, M::Iq>::Known(w).norm_sqr();
    let (u, v) = choose|x: M::Real, y: M::Real| #[trigger]
        call_ensures(M::plus, (math, x, y), after) && evaluates(
            math,
            Formula::Known(between),
            x,
        ) && evaluates(math, power, y);
    assert(evaluates(math, plus_power(sum, z).plus(power), after)) by {
        assert(u == between);
    }
    assert(evaluates(math, plus_two_powers(sum, z, w), after));
    assert(evaluates(math, plus_two_powers(sum, w, z), after));
    let other = IqFormula::<M::Real, M::Iq>::Known(z).norm_sqr();
    let (m, y) = choose|x: M::Real, y: M::Real| #[trigger]
        call_ensures(M::plus, (math, x, y), after) && evaluates(math, plus_power(sum, w), x)
            && evaluates(math, other, y);
    assert(evaluates(math, Formula::Known(m), m));
    assert(evaluates(math, plus_power(m, z), after));
    m
}

/// At the place `p` the sum goes from that in `before` through `m` to `after`, with the power
/// of `w` first and then that of `z`.
spec fn goes_through<M: SampleMath>(
    math: &M,
    before: Seq<M::Real>,
    z: [M::Iq; FFT_SIZE],
    w: [M::Iq; FFT_SIZE],
    after: M::Real,
    p: int,
    m: M::Real,
) -> bool {
    &&& evaluates(math, plus_power(before[p], w@[shifted(p)]), m)
    &&& evaluates(math, plus_power(m, z@[shifted(p)]), after)
}

/// Adding the powers of two transforms in the other order leads to the same sums.
proof fn lemma_powers_exchanged<M: SampleMath>(
    math: &M,
    before: Seq<M::Real>,
    z: [M::Iq; FFT_SIZE],
    between: Seq<M::Real>,
    w: [M::Iq; FFT_SIZE],
    after: Seq<M::Real>,
) -> (middle: Seq<M::Real>)
    requires
        powers_commute(math),
        before.len() == FFT_SIZE,
        adds_powers(math, before, z, between),
        adds_powers(math, between, w, after),
    ensures
        adds_powers(math, before, w, middle),
        adds_powers(math, middle, z, after),
{
    assert forall|p: int| 0 <= p < FFT_SIZE implies exists|m: M::Real|
        goes_through(math, before, z, w, #[trigger] after[p], p, m) by {
        let bin = shifted(p);
        law_every_place_is_fed(math, before, z, between, p);
        law_every_place_is_fed(math, between, w, after, p);
        let m = lemma_power_exchanged(
            math,
            before[p],
            z@[bin],
            between[p],
            w@[bin],
            after[p],
        );
        assert(goes_through(math, before, z, w, after[p], p, m));
    }
    let middle = Seq::new(
        FFT_SIZE as nat,
        |p: int| choose|m: M::Real| goes_through(math, before, z, w, after[p], p, m),
    );
    assert forall|i: int| 0 <= i < FFT_SIZE implies evaluates(
        math,
        plus_power(before[shifted(i)], #[trigger] w@[i]),
        middle[shifted(i)],
    ) && evaluates(math, plus_power(middle[shifted(i)], z@[i]), after[shifted(i)]) by {
        law_shift(i);
        let p = shifted(i);
        assert(goes_through(math, before, z, w, after[p], p, middle[p]));
    }
    assert forall|i: int| 0 <= i < FFT_SIZE implies evaluates(
        math,
        plus_power(middle[shifted(i)], #[trigger] z@[i]),
        after[shifted(i)],
    ) by {
        assert(evaluates(math, plus_power(before[shifted(i)], w@[i]), middle[shifted(i)]));
    }
    middle
}

/// The ten stretches of `buf`.
pub open spec fn stretches(buf: Seq<u8>) -> Seq<Seq<u8>> {
    Seq::new(FFT_AVERAGES as nat, |a: int| stretch(buf, a))
}

/// Adding the powers of the stretches in `list`, one after the other, leads from the power sums
/// `before` to `after`.
spec fn adds_all<M: SampleMath>(
    math: &M,
    window: Seq<M::Real>,
    list: Seq<Seq<u8>>,
    before: Seq<M::Real>,
    after: Seq<M::Real>,
) -> bool
    decreases list.len(),
{
    if list.len() == 0 {
        before == after
    } else {
        exists|next: Seq<M::Real>| #[trigger]
            adds_stretch(math, list.first(), window, 0, before, next) && adds_all(
                math,
                window,
                list.drop_first(),
                next,
                after,
            )
    }
}

/// A stretch adds the same powers wherever it stands.
proof fn lemma_stretch_alike<M: SampleMath>(
    math: &M,
    buf: Seq<u8>,
    a: int,
    other: Seq<u8>,
    b: int,
    window: Seq<M::Real>,
    before: Seq<M::Real>,
    after: Seq<M::Real>,
)
    requires
        0 <= a,
        0 <= b,
        2 * (a * FFT_SIZE) + 2 * FFT_SIZE <= buf.len(),
        2 * (b * FFT_SIZE) + 2 * FFT_SIZE <= other.len(),
        stretch(buf, a) == stretch(other, b),
        adds_stretch(math, buf, window, a, before, after),
    ensures
        adds_stretch(math, other, window, b, before, after),
{
    let (frame, transform) = choose|frame: [M::Iq; FFT_SIZE], transform: [M::Iq; FFT_SIZE]|
        #[trigger]
        adds_stretch_by(math, buf, window, a, before, after, frame, transform);
    lemma_windowed_alike(math, buf, a, other, b, window, frame);
    assert(adds_stretch_by(math, other, window, b, before, after, frame, transform));
}

/// A buffer's power sums are those of its list of stretches.
proof fn lemma_list_of_sums<M: SampleMath>(
    math: &M,
    buf: Seq<u8>,
    window: Seq<M::Real>,
    sums: Seq<Seq<M::Real>>,
    k: int,
)
    requires
        buf.len() >= FFT_SIZE * FFT_AVERAGES * 2,
        accumulates(math, buf, window, sums),
        sums.len() == FFT_AVERAGES + 1,
        0 <= k <= FFT_AVERAGES,
    ensures
        adds_all(math, window, stretches(buf).skip(k), sums[k], sums.last()),
    decreases FFT_AVERAGES - k,
{
    let list = stretches(buf).skip(k);
    if k < FFT_AVERAGES {
        lemma_list_of_sums(math, buf, window, sums, k + 1);
        assert(adds_stretch(math, buf, window, k, sums[k], sums[k + 1]));
        assert(list.first() == stretch(buf, k));
        assert(stretch(list.first(), 0) =~= stretch(buf, k));
        lemma_stretch_alike(math, buf, k, list.first(), 0, window, sums[k], sums[k + 1]);
        assert(list.drop_first() =~= stretches(buf).skip(k + 1));
    }
}

/// The power sums of a buffer's list of stretches are the buffer's.
proof fn lemma_sums_of_list<M: SampleMath>(
    math: &M,
    buf: Seq<u8>,
    window: Seq<M::Real>,
    k: int,
    before: Seq<M::Real>,
    after: Seq<M::Real>,
) -> (sums: Seq<Seq<M::Real>>)
    requires
        buf.len() >= FFT_SIZE * FFT_AVERAGES * 2,
        0 <= k <= FFT_AVERAGES,
        adds_all(math, window, stretches(buf).skip(k), before, after),
    ensures
        sums.len() == FFT_AVERAGES + 1 - k,
        sums[0] == before,
        sums.last() == after,
        forall|j: int|
            0 <= j < FFT_AVERAGES - k ==> #[trigger] adds_stretch(
                math,
                buf,
                window,
                k + j,
                sums[j],
                sums[j + 1],
            ),
    decreases FFT_AVERAGES - k,
{
    let list = stretches(buf).skip(k);
    if k == FFT_AVERAGES {
        seq![before]
    } else {
        let next = choose|next: Seq<M::Real>| #[trigger]
            adds_stretch(math, list.first(), window, 0, before, next) && adds_all(
                math,
                window,
                list.drop_first(),
                next,
                after,
            );
        assert(list.drop_first() =~= stretches(buf).skip(k + 1));
        let rest = lemma_sums_of_list(math, buf, window, k + 1, next, after);
        let sums = seq![before] + rest;
        assert(list.first() == stretch(buf, k));
        assert(stretch(list.first(), 0) =~= stretch(buf, k));
        lemma_stretch_alike(math, list.first(), 0, buf, k, window, before, next);
        assert forall|j: int| 0 <= j < FFT_AVERAGES - k implies #[trigger] adds_stretch(
            math,
            buf,
            window,
            k + j,
            sums[j],
            sums[j + 1],
        ) by {
            if j > 0 {
                let i = j - 1;
                assert(adds_stretch(math, buf, window, k + 1 + i, rest[i], rest[i + 1]));
                assert(sums[j] == rest[i] && sums[j + 1] == rest[i + 1]);
            } else {
                assert(sums[1] == rest[0]);
            }
        }
        sums
    }
}

/// The first two stretches of a list may be exchanged.
proof fn lemma_exchange_two<M: SampleMath>(
    math: &M,
    window: Seq<M::Real>,
    x: Seq<u8>,
    y: Seq<u8>,
    before: Seq<M::Real>,
    between: Seq<M::Real>,
    after: Seq<M::Real>,
) -> (middle: Seq<M::Real>)
    requires
        powers_commute(math),
        before.len() == FFT_SIZE,
        adds_stretch(math, x, window, 0, before, between),
        adds_stretch(math, y, window, 0, between, after),
    ensures
        adds_stretch(math, y, window, 0, before, middle),
        adds_stretch(math, x, window, 0, middle, after),
{
    let (f1, t1) = choose|frame: [M::Iq; FFT_SIZE], transform: [M::Iq; FFT_SIZE]| #[trigger]
        adds_stretch_by(math, x, window, 0, before, between, frame, transform);
    let (f2, t2) = choose|frame: [M::Iq; FFT_SIZE], transform: [M::Iq; FFT_SIZE]| #[trigger]
        adds_stretch_by(math, y, window, 0, between, after, frame, transform);
    let middle = lemma_powers_exchanged(math, before, t1, between, t2, after);
    assert(adds_stretch_by(math, y, window, 0, before, middle, f2, t2));
    assert(adds_stretch_by(math, x, window, 0, middle, after, f1, t1));
    middle
}

/// Any stretch of a list may be brought to its front.
proof fn lemma_bring_to_front<M: SampleMath>(
    math: &M,
    window: Seq<M::Real>,
    list: Seq<Seq<u8>>,
    j: int,
    before: Seq<M::Real>,
    after: Seq<M::Real>,
) -> (next: Seq<M::Real>)
    requires
        powers_commute(math),
        before.len() == FFT_SIZE,
        0 <= j < list.len(),
        adds_all(math, window, list, before, after),
    ensures
        next.len() == FFT_SIZE,
        adds_stretch(math, list[j], window, 0, before, next),
        adds_all(math, window, list.remove(j), next, after),
    decreases j,
{
    let between = choose|next: Seq<M::Real>| #[trigger]
        adds_stretch(math, list.first(), window, 0, before, next) && adds_all(
            math,
            window,
            list.drop_first(),
            next,
            after,
        );
    if j == 0 {
        assert(list.remove(0) =~= list.drop_first());
        between
    } else {
        let rest = list.drop_first();
        let last = lemma_bring_to_front(math, window, rest, j - 1, between, after);
        let middle = lemma_exchange_two(
            math,
            window,
            list.first(),
            list[j],
            before,
            between,
            last,
        );
        assert(list.remove(j).first() == list.first());
        assert(list.remove(j).drop_first() =~= rest.remove(j - 1));
        middle
    }
}

/// A list may be rearranged.
proof fn lemma_rearrange<M: SampleMath>(
    math: &M,
    window: Seq<M::Real>,
    list: Seq<Seq<u8>>,
    other: Seq<Seq<u8>>,
    before: Seq<M::Real>,
    after: Seq<M::Real>,
)
    requires
        powers_commute(math),
        before.len() == FFT_SIZE,
        list.to_multiset() == other.to_multiset(),
        adds_all(math, window, list, before, after),
    ensures
        adds_all(math, window, other, before, after),
    decreases other.len(),
{
    list.to_multiset_ensures();
    other.to_multiset_ensures();
    if other.len() > 0 {
        let x = other.first();
        assert(other.contains(x)) by {
            assert(other[0] == x);
        }
        assert(other.to_multiset().count(x) > 0);
        assert(list.to_multiset().count(x) > 0);
        assert(list.contains(x));
        let j = list.index_of(x);
        let next = lemma_bring_to_front(math, window, list, j, before, after);
        assert(other.remove(0) =~= other.drop_first());
        assert(list.remove(j).to_multiset() == other.drop_first().to_multiset());
        lemma_rearrange(math, window, list.remove(j), other.drop_first(), next, after);
    }
}

/// The order of the ten stretches makes no difference to the spectrum, up to rounding: a buffer
/// with the same stretches in any other order has, where adding powers does not round, the same
/// spectrum.
pub proof fn law_order_of_stretches<M: SampleMath>(
    math: &M,
    buf: Seq<u8>,
    other: Seq<u8>,
    window: Seq<M::Real>,
    spectrum: Seq<M::Real>,
)
    requires
        powers_commute(math),
        buf.len() >= FFT_SIZE * FFT_AVERAGES * 2,
        other.len() >= FFT_SIZE * FFT_AVERAGES * 2,
        stretches(buf).to_multiset() == stretches(other).to_multiset(),
        is_spectrum(math, buf, window, spectrum),
    ensures
        is_spectrum(math, other, window, spectrum),
{
    let sums = choose|sums: Seq<Seq<M::Real>>| #[trigger]
        is_spectrum_by(math, buf, window, spectrum, sums);
    lemma_list_of_sums(math, buf, window, sums, 0);
    assert(stretches(buf).skip(0) =~= stretches(buf));
    assert(stretches(other).skip(0) =~= stretches(other));
    lemma_rearrange(math, window, stretches(buf), stretches(other), sums[0], sums.last());
    let rearranged = lemma_sums_of_list(math, other, window, 0, sums[0], sums.last());
    assert forall|a: int| 0 <= a < rearranged.len() - 1 implies #[trigger] adds_stretch(
        math,
        other,
        window,
        a,
        rearranged[a],
        rearranged[a + 1],
    ) by {
        assert(adds_stretch(math, other, window, 0 + a, rearranged[a], rearranged[a + 1]));
    }
    assert(is_spectrum_by(math, other, window, spectrum, rearranged));
}

} // verus!
