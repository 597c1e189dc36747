//! The squelch: whether the chosen channel is strong enough to be heard.
//!
//! It is judged by the bins of the displayed spectrum, so that its threshold is on the scale
//! of the display.

use crate::config::{DemodConfig, DemodMode, MINUS_100};
use crate::formula::{evaluates, is_i64, Formula, HALF};
use crate::math::{SampleMath, OUTPUT_BINS};
use crate::measure::{is_exact, is_ordered, is_whole_part, takes_whole_part, Measure};
use vstd::prelude::*;

verus! {

/// By how much the bit pattern of a double may differ from that of -100 and still round to
/// -100 in single precision: half the distance between singles there, ties going to -100.
pub const ROUNDED_TO_100: u64 = 0x1000_0000;

/// The bit pattern of minus infinity, which is below every level.
pub const LOWEST: u32 = 0xFF80_0000;

/// The position on the scale of the displayed bins of a channel at `offset` Hz from the
/// centre of a band `rate` Hz wide.
pub open spec fn bin_position<R, C>(offset: R, rate: u32) -> Formula<R, C> {
    Formula::Known(offset).over(Formula::Whole(rate as u64)).plus(Formula::Single(HALF)).times(
        Formula::Whole(OUTPUT_BINS as u64),
    )
}

/// The width in Hz of the channel that the squelch watches; `None` where there is no squelch.
pub open spec fn channel_width(mode: Option<DemodMode>) -> Option<u32> {
    match mode {
        Some(DemodMode::NBFM) => Some(12_500),
        Some(DemodMode::AM) => Some(10_000),
        _ => None,
    }
}

/// How many bins on each side of its centre belong to a channel `width` Hz wide, in a band
/// `rate` Hz wide: as many as fit in half the width, but at least one. In a band of no width
/// every bin does.
pub open spec fn half_bins(width: u32, rate: u32) -> int {
    if rate == 0 {
        OUTPUT_BINS as int
    } else if width * OUTPUT_BINS / 2 < rate {
        1
    } else {
        width * OUTPUT_BINS / 2 / (rate as int)
    }
}

/// The bin nearest to `position` that there is.
pub open spec fn nearest_bin(position: int) -> int {
    if position < 0 {
        0
    } else if position >= OUTPUT_BINS {
        OUTPUT_BINS - 1
    } else {
        position
    }
}

/// The first bin of a channel with the given centre.
pub open spec fn first_bin(centre: int, half: int) -> int {
    nearest_bin(centre - half)
}

/// The last bin of a channel with the given centre.
pub open spec fn last_bin(centre: int, half: int) -> int {
    nearest_bin(centre + half)
}

/// The double-precision bit pattern `bits` is that of a number that single precision, in which
/// levels are held, rounds to -100.
pub open spec fn is_minus_100(bits: u64) -> bool {
    MINUS_100 - ROUNDED_TO_100 <= bits <= MINUS_100 + ROUNDED_TO_100
}

/// `maxima` are the greatest of none, one, two .. of `levels`.
pub open spec fn maxima_of<M: SampleMath>(
    math: &M,
    levels: Seq<M::Real>,
    maxima: Seq<M::Real>,
) -> bool {
    &&& maxima.len() == levels.len() + 1
    &&& evaluates(math, Formula::Single(LOWEST), maxima[0])
    &&& forall|k: int|
        0 <= k < levels.len() ==> call_ensures(
            M::greater,
            (math, maxima[k], #[trigger] levels[k]),
            maxima[k + 1],
        )
}

/// `peak` is the greatest of `levels`.
pub open spec fn is_peak<M: SampleMath>(math: &M, levels: Seq<M::Real>, peak: M::Real) -> bool {
    exists|maxima: Seq<M::Real>| #[trigger] maxima_of(math, levels, maxima) && maxima.last() == peak
}

/// The bins of the channel at `position`, `width` Hz wide, in the spectrum `bins` of a band
/// `rate` Hz wide.
pub open spec fn channel_bins<R>(bins: Seq<R>, position: int, width: u32, rate: u32) -> Seq<R> {
    let centre = nearest_bin(position);
    let half = half_bins(width, rate);
    bins.subrange(first_bin(centre, half), last_bin(centre, half) + 1)
}

/// `open` tells whether the squelch is open: always where there is none and at the threshold
/// of -100, else when the strongest bin of the channel reaches the threshold.
pub open spec fn opens<M: SampleMath>(
    math: &M,
    bins: Seq<M::Real>,
    cfg: DemodConfig,
    rate: u32,
    open: bool,
) -> bool {
    match channel_width(cfg.mode) {
        None => open,
        Some(width) => if is_minus_100(cfg.squelch_db) {
            open
        } else {
            reaches_threshold(math, bins, cfg, width, rate, open)
        },
    }
}

/// `reached` tells whether the strongest bin of the channel, `width` Hz wide, reaches the
/// threshold.
pub open spec fn reaches_threshold<M: SampleMath>(
    math: &M,
    bins: Seq<M::Real>,
    cfg: DemodConfig,
    width: u32,
    rate: u32,
    reached: bool,
) -> bool {
    exists|offset: M::Real, position: i64, peak: M::Real, threshold: M::Real| #[trigger]
        reaches_by(math, bins, cfg, width, rate, reached, offset, position, peak, threshold)
}

/// The channel at `offset` Hz stands at `position`, and its strongest bin is at the level
/// `peak`, which is held against `threshold`.
pub open spec fn reaches_by<M: SampleMath>(
    math: &M,
    bins: Seq<M::Real>,
    cfg: DemodConfig,
    width: u32,
    rate: u32,
    reached: bool,
    offset: M::Real,
    position: i64,
    peak: M::Real,
    threshold: M::Real,
) -> bool {
    &&& call_ensures(M::double, (math, cfg.offset_hz), offset)
    &&& is_i64(math, bin_position(offset, rate), position)
    &&& is_peak(math, channel_bins(bins, position as int, width, rate), peak)
    &&& call_ensures(M::double, (math, cfg.squelch_db), threshold)
    &&& call_ensures(M::at_least, (math, peak, threshold), reached)
}

/// The greatest of the levels from place `lo` to place `hi`.
fn peak_level<M: SampleMath>(math: &M, bins: &[M::Real], lo: usize, hi: usize) -> (r: M::Real)
    requires
        lo <= hi < bins@.len(),
    ensures
        is_peak(math, bins@.subrange(lo as int, hi + 1), r),
{
    let mut peak = math.single(LOWEST);
    let ghost mut maxima: Seq<M::Real> = seq![peak];
    let mut i: usize = lo;
    while i <= hi
        invariant
            lo <= i <= hi + 1,
            hi < bins.len(),
            maxima.last() == peak,
            maxima_of(math, bins@.subrange(lo as int, i as int), maxima),
        decreases hi + 1 - i,
    {
        let next = math.greater(peak, bins[i]);
        proof {
            assert(bins@.subrange(lo as int, i + 1) =~= bins@.subrange(lo as int, i as int).push(
                bins@[i as int],
            ));
            maxima = maxima.push(next);
        }
        peak = next;
        i += 1;
    }
    peak
}

/// Whether the squelch is open for the channel that `cfg` chooses, given the spectrum `bins`
/// of a band `rate` Hz wide.
pub fn squelch_open<M: SampleMath>(math: &M, bins: &[M::Real], cfg: &DemodConfig, rate: u32) -> (r:
    bool)
    requires
        bins@.len() == OUTPUT_BINS,
    ensures
        opens(math, bins@, *cfg, rate, r),
{
    let width: u32 = match cfg.mode {
        Some(DemodMode::NBFM) => 12_500,
        Some(DemodMode::AM) => 10_000,
        _ => {
            return true;
        },
    };
    if cfg.squelch_db >= MINUS_100 - ROUNDED_TO_100 && cfg.squelch_db <= MINUS_100 + ROUNDED_TO_100 {
        return true;
    }
    assert(width * OUTPUT_BINS <= 12_500 * 1024) by (nonlinear_arith)
        requires
            width <= 12_500,
            OUTPUT_BINS == 1024,
    ;
    let scaled: u64 = width as u64 * (OUTPUT_BINS as u64) / 2;
    let half: i64 = if rate == 0 {
        OUTPUT_BINS as i64
    } else if scaled < rate as u64 {
        1
    } else {
        (scaled / rate as u64) as i64
    };
    proof {
        if rate > 0 {
            vstd::arithmetic::div_mod::lemma_div_is_ordered_by_denominator(
                scaled as int,
                1,
                rate as int,
            );
        }
    }
    let offset = math.double(cfg.offset_hz);
    let place = math.plus(math.over(offset, math.whole(rate as u64)), math.single(HALF));
    let position: i64 = math.to_i64(math.times(place, math.whole(OUTPUT_BINS as u64)));
    let top: i64 = OUTPUT_BINS as i64 - 1;
    let centre: i64 = if position < 0 {
        0
    } else if position > top {
        top
    } else {
        position
    };
    let lo: i64 = if centre < half {
        0
    } else {
        centre - half
    };
    let hi: i64 = if half > top - centre {
        top
    } else {
        centre + half
    };
    let peak = peak_level(math, bins, lo as usize, hi as usize);
    let threshold = math.double(cfg.squelch_db);
    let open = math.at_least(peak, threshold);
    proof {
        reveal_with_fuel(evaluates, 5);
    }
    assert(reaches_by(
        math,
        bins@,
        *cfg,
        width,
        rate,
        open,
        offset,
        position,
        peak,
        threshold,
    ));
    assert(reaches_threshold(math, bins@, *cfg, width, rate, open));
    open
}

/// The channel that the squelch watches lies within the spectrum, is not empty, and holds the
/// bin at its centre.
pub proof fn law_channel_within_spectrum(position: int, width: u32, rate: u32)
    requires
        width > 0,
    ensures
        ({
            let centre = nearest_bin(position);
            let half = half_bins(width, rate);
            &&& half >= 1
            &&& 0 <= first_bin(centre, half) <= centre <= last_bin(centre, half) < OUTPUT_BINS
        }),
{
    if rate > 0 && width * OUTPUT_BINS / 2 >= rate {
        vstd::arithmetic::div_mod::lemma_div_is_ordered(
            rate as int,
            width * OUTPUT_BINS / 2,
            rate as int,
        );
        vstd::arithmetic::div_mod::lemma_div_by_self(rate as int);
    }
}

/// The squelch is always open at the threshold of -100, for WBFM, and when nothing is
/// demodulated.
pub proof fn law_always_open<M: SampleMath>(
    math: &M,
    bins: Seq<M::Real>,
    cfg: DemodConfig,
    rate: u32,
    open: bool,
)
    requires
        is_minus_100(cfg.squelch_db) || cfg.mode is None || cfg.mode == Some(DemodMode::WBFM),
        opens(math, bins, cfg, rate, open),
    ensures
        open,
{
}

/// `peak` is at least every one of the first `k` levels, and one of them unless there is none.
proof fn lemma_peak_of_first<M: SampleMath>(
    math: &M,
    m: Measure<M::Real, M::Iq>,
    levels: Seq<M::Real>,
    maxima: Seq<M::Real>,
    k: int,
)
    requires
        is_ordered(math, m),
        is_exact(math, m),
        maxima_of(math, levels, maxima),
        forall|j: int| 0 <= j < levels.len() ==> (m.value)(#[trigger] levels[j]) >= (m.constant)(LOWEST),
        0 <= k <= levels.len(),
    ensures
        k == 0 ==> (m.value)(maxima[k]) == (m.constant)(LOWEST),
        forall|j: int| 0 <= j < k ==> (m.value)(maxima[k]) >= (m.value)(#[trigger] levels[j]),
        k > 0 ==> exists|j: int|
            0 <= j < k && (m.value)(maxima[k]) == (m.value)(#[trigger] levels[j]),
    decreases k,
{
    if k > 0 {
        let i = k - 1;
        lemma_peak_of_first(math, m, levels, maxima, i);
        assert(call_ensures(M::greater, (math, maxima[i], levels[i]), maxima[i + 1]));
        if (m.value)(maxima[k]) == (m.value)(levels[i]) {
        } else {
            let j = choose|j: int|
                0 <= j < i && (m.value)(maxima[i]) == (m.value)(#[trigger] levels[j]);
            assert((m.value)(maxima[k]) == (m.value)(levels[j]));
        }
    }
}

/// The greatest of some levels reaches a threshold where one of them does.
proof fn lemma_peak_reaches<M: SampleMath>(
    math: &M,
    m: Measure<M::Real, M::Iq>,
    levels: Seq<M::Real>,
    peak: M::Real,
    threshold: real,
)
    requires
        is_ordered(math, m),
        is_exact(math, m),
        is_peak(math, levels, peak),
        levels.len() > 0,
        forall|j: int| 0 <= j < levels.len() ==> (m.value)(#[trigger] levels[j]) >= (m.constant)(LOWEST),
    ensures
        (m.value)(peak) >= threshold <==> exists|j: int|
            0 <= j < levels.len() && (m.value)(#[trigger] levels[j]) >= threshold,
{
    let maxima = choose|maxima: Seq<M::Real>| #[trigger]
        maxima_of(math, levels, maxima) && maxima.last() == peak;
    lemma_peak_of_first(math, m, levels, maxima, levels.len() as int);
}

/// What the position of a channel comes to.
proof fn lemma_position<M: SampleMath>(
    math: &M,
    m: Measure<M::Real, M::Iq>,
    offset: M::Real,
    rate: u32,
    position: i64,
)
    requires
        is_exact(math, m),
        takes_whole_part(math, m),
        (m.constant)(HALF) == 1real / 2real,
        rate > 0,
        is_i64(math, bin_position(offset, rate), position),
    ensures
        is_whole_part(
            ((m.value)(offset) / (rate as real) + 1real / 2real) * 1024real,
            position,
        ),
{
    let whole = Formula::<M::Real, M::Iq>::Whole(rate as u64);
    let known = Formula::<M::Real, M::Iq>::Known(offset);
    let half = Formula::<M::Real, M::Iq>::Single(HALF);
    let bins = Formula::<M::Real, M::Iq>::Whole(OUTPUT_BINS as u64);
    let x = choose|x: M::Real| #[trigger]
        call_ensures(M::to_i64, (math, x), position) && evaluates(
            math,
            bin_position(offset, rate),
            x,
        );
    let (place, count) = choose|a: M::Real, b: M::Real| #[trigger]
        call_ensures(M::times, (math, a, b), x) && evaluates(
            math,
            known.over(whole).plus(half),
            a,
        ) && evaluates(math, bins, b);
    let (part, h) = choose|a: M::Real, b: M::Real| #[trigger]
        call_ensures(M::plus, (math, a, b), place) && evaluates(math, known.over(whole), a)
            && evaluates(math, half, b);
    let (o, w) = choose|a: M::Real, b: M::Real| #[trigger]
        call_ensures(M::over, (math, a, b), part) && evaluates(math, known, a) && evaluates(
            math,
            whole,
            b,
        );
    assert((m.value)(w) == rate as real);
    assert((m.value)(count) == 1024real);
}

/// How many bins belong to a channel on either side.
proof fn lemma_half_bins(width: u32, rate: u32, h: int)
    requires
        rate > 0,
        h >= 1,
        h == 1 || h * rate <= width * 512,
        width * 512 < (h + 1) * rate,
    ensures
        half_bins(width, rate) == h,
{
    let scaled = width * 512;
    let r = rate as int;
    assert(width * OUTPUT_BINS / 2 == scaled);
    vstd::arithmetic::mul::lemma_mul_is_distributive_add_other_way(r, h, 1);
    if scaled >= r {
        assert(h * r <= scaled);
        vstd::arithmetic::mul::lemma_mul_is_commutative(h, r);
        vstd::arithmetic::div_mod::lemma_fundamental_div_mod_converse(scaled, r, h, scaled - h * r);
    } else if h > 1 {
        vstd::arithmetic::mul::lemma_mul_inequality(1, h, r);
    }
}

/// The squelch of NBFM, which watches 12.5 kHz, and of AM, which watches 10 kHz, is open exactly
/// where one of the displayed bins of the channel is at least at the threshold, unless the
/// threshold is -100: the channel's middle bin, `c`, is the one that its offset falls into, with
/// the centre of the band between bins 511 and 512, and it reaches `h` bins to either side.
pub proof fn law_squelch_hears_the_channel<M: SampleMath>(
    math: &M,
    m: Measure<M::Real, M::Iq>,
    bins: Seq<M::Real>,
    cfg: DemodConfig,
    rate: u32,
    open: bool,
    offset: real,
    threshold: real,
    c: int,
    h: int,
)
    requires
        is_exact(math, m),
        is_ordered(math, m),
        takes_whole_part(math, m),
        (m.constant)(0x3F00_0000) == 1real / 2real,
        rate > 0,
        bins.len() == 1024,
        forall|k: int| 0 <= k < 1024 ==> (m.value)(#[trigger] bins[k]) >= (m.constant)(0xFF80_0000),
        forall|r: M::Real| #[trigger]
            call_ensures(M::double, (math, cfg.offset_hz), r) ==> (m.value)(r) == offset,
        forall|r: M::Real| #[trigger]
            call_ensures(M::double, (math, cfg.squelch_db), r) ==> (m.value)(r) == threshold,
        cfg.squelch_db < 0xC058_FFFF_F000_0000 || cfg.squelch_db > 0xC059_0000_1000_0000,
        cfg.mode == Some(DemodMode::NBFM) || cfg.mode == Some(DemodMode::AM),
        ({
            let position = (offset / (rate as real) + 1real / 2real) * 1024real;
            &&& 0 <= c < 1024
            &&& c as real <= position || c == 0
            &&& position < c as real + 1real || c == 1023
        }),
        ({
            let width = if cfg.mode == Some(DemodMode::NBFM) { 12_500int } else { 10_000int };
            &&& h >= 1
            &&& h == 1 || h * rate <= width * 512
            &&& width * 512 < (h + 1) * rate
        }),
        opens(math, bins, cfg, rate, open),
    ensures
        open <==> exists|k: int|
            0 <= k < 1024 && c - h <= k <= c + h && (m.value)(#[trigger] bins[k]) >= threshold,
{
    let width: u32 = channel_width(cfg.mode)->0;
    let (o, position, peak, t) = choose|
        o: M::Real,
        position: i64,
        peak: M::Real,
        t: M::Real,
    | #[trigger]
        reaches_by(math, bins, cfg, width, rate, open, o, position, peak, t);
    lemma_position(math, m, o, rate, position);
    assert(nearest_bin(position as int) == c);
    lemma_half_bins(width, rate, h);
    law_channel_within_spectrum(position as int, width, rate);
    let lo = first_bin(c, h);
    let hi = last_bin(c, h);
    let levels = channel_bins(bins, position as int, width, rate);
    assert(levels == bins.subrange(lo, hi + 1));
    assert forall|j: int| 0 <= j < levels.len() implies (m.value)(#[trigger] levels[j])
        >= (m.constant)(LOWEST) by {
        assert(levels[j] == bins[lo + j]);
    }
    lemma_peak_reaches(math, m, levels, peak, threshold);
    if open {
        let j = choose|j: int|
            0 <= j < levels.len() && (m.value)(#[trigger] levels[j]) >= threshold;
        assert(bins[lo + j] == levels[j]);
    }
    if exists|k: int|
        0 <= k < 1024 && c - h <= k <= c + h && (m.value)(#[trigger] bins[k]) >= threshold {
        let k = choose|k: int|
            0 <= k < 1024 && c - h <= k <= c + h && (m.value)(#[trigger] bins[k]) >= threshold;
        assert(levels[k - lo] == bins[k]);
    }
}

/// Where there is no squelch it is open: for WBFM, when nothing is demodulated, and at the
/// threshold of -100 and whatever single precision makes of it.
pub proof fn law_no_squelch<M: SampleMath>(
    math: &M,
    bins: Seq<M::Real>,
    cfg: DemodConfig,
    rate: u32,
    open: bool,
)
    requires
        cfg.mode is None || cfg.mode == Some(DemodMode::WBFM) || 0xC058_FFFF_F000_0000
            <= cfg.squelch_db <= 0xC059_0000_1000_0000,
        opens(math, bins, cfg, rate, open),
    ensures
        open,
{
}

} // verus!
