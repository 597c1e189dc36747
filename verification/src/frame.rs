//! The binary frames sent to browsers.
//!
//! A frame is a type byte followed by little-endian 16-bit words.

use crate::formula::{
    evaluates, is_determined, is_i16, is_sign_symmetric, lemma_one_i16, Formula, TEN,
};
use crate::math::SampleMath;
use crate::measure::{
    negated, no_number_stays, packs_closely, packs_symmetrically, within, Measure,
};
use crate::settings::Settings;
use vstd::prelude::*;

verus! {

/// The type byte of a spectrum frame, 'S'.
pub const FRAME_SPECTRUM: u8 = 0x53;

/// The type byte of an audio frame, 'A'.
pub const FRAME_AUDIO: u8 = 0x41;

/// The bit pattern of -32768, the lowest 16-bit value.
pub const LOWEST_I16: u32 = 0xC700_0000;

/// The bit pattern of 32767, the highest 16-bit value.
pub const HIGHEST_I16: u32 = 0x46FF_FE00;

/// The unsigned 16-bit word with the bits of `v`.
pub open spec fn word_of(v: i16) -> int {
    if v < 0 {
        v + 0x1_0000
    } else {
        v as int
    }
}

/// The signed value with the bits of the word `w`.
pub open spec fn signed(w: int) -> int {
    if w >= 0x8000 {
        w - 0x1_0000
    } else {
        w
    }
}

/// The words with the bits of `values`.
pub open spec fn words_of(values: Seq<i16>) -> Seq<int> {
    Seq::new(values.len(), |i: int| word_of(values[i]))
}

/// `words` in little-endian order.
pub open spec fn word_bytes(words: Seq<int>) -> Seq<u8> {
    Seq::new(
        2 * words.len(),
        |i: int|
            if i % 2 == 0 {
                (words[i / 2] % 256) as u8
            } else {
                (words[i / 2] / 256) as u8
            },
    )
}

/// The frame with type byte `kind` and the given words.
pub open spec fn framed(kind: u8, words: Seq<int>) -> Seq<u8> {
    seq![kind] + word_bytes(words)
}

/// The spectrum frame with the given display ranges and bins, all in tenths of a dB.
pub open spec fn spectrum_frame(ranges: Seq<i16>, bins: Seq<i16>) -> Seq<u8> {
    framed(FRAME_SPECTRUM, words_of(ranges + bins))
}

/// The audio frame with the given sample rate, of which 16 bits are sent, and samples.
pub open spec fn audio_frame(rate: u32, samples: Seq<i16>) -> Seq<u8> {
    framed(FRAME_AUDIO, seq![rate as int % 0x1_0000] + words_of(samples))
}

/// The word at place `k` after the type byte of `frame`.
pub open spec fn frame_word(frame: Seq<u8>, k: int) -> int {
    frame[1 + 2 * k] + 256 * frame[2 + 2 * k]
}

/// Puts the word `w` at the end of `frame`.
fn push_word(frame: &mut Vec<u8>, w: u16, Ghost(kind): Ghost<u8>, Ghost(words): Ghost<Seq<int>>)
    requires
        old(frame)@ == framed(kind, words),
    ensures
        final(frame)@ == framed(kind, words.push(w as int)),
{
    frame.push((w % 256) as u8);
    frame.push((w / 256) as u8);
    assert(frame@ =~= framed(kind, words.push(w as int)));
}

/// The word with the bits of `v`.
fn word(v: i16) -> (r: u16)
    ensures
        r == word_of(v),
{
    assert(v < 0 ==> v as u16 == v + 0x1_0000) by (bit_vector);
    v as u16
}

/// The real numbers that the display ranges of `s` stand for, as `math` reads them.
pub open spec fn range_levels<M: SampleMath>(math: &M, s: Settings, levels: Seq<M::Real>) -> bool {
    &&& levels.len() == 4
    &&& call_ensures(M::single, (math, s.spec_min_db), levels[0])
    &&& call_ensures(M::single, (math, s.spec_max_db), levels[1])
    &&& call_ensures(M::single, (math, s.wf_min_db), levels[2])
    &&& call_ensures(M::single, (math, s.wf_max_db), levels[3])
}

/// Tenths of `level`, rounded to the nearest and limited to 16 bits.
pub open spec fn tenths_of<R, C>(level: R) -> Formula<R, C> {
    Formula::Known(level).times(Formula::Single(TEN)).rounded().limited(
        Formula::Single(LOWEST_I16),
        Formula::Single(HIGHEST_I16),
    )
}

/// `sample` on the scale of 16-bit PCM.
pub open spec fn pcm_of<R, C>(sample: R) -> Formula<R, C> {
    Formula::Known(sample).times(Formula::Single(HIGHEST_I16)).limited(
        Formula::Single(LOWEST_I16),
        Formula::Single(HIGHEST_I16),
    )
}

/// The 16-bit value of `level` in tenths.
fn tenths<M: SampleMath>(math: &M, level: M::Real) -> (r: i16)
    ensures
        is_i16(math, tenths_of(level), r),
{
    let nearest = math.rounded(math.times(level, math.single(TEN)));
    let r: i16 = math.to_i16(
        math.limited(nearest, math.single(LOWEST_I16), math.single(HIGHEST_I16)),
    );
    proof {
        reveal_with_fuel(evaluates, 5);
    }
    r
}

/// The 16-bit PCM value of `sample`.
fn pcm<M: SampleMath>(math: &M, sample: M::Real) -> (r: i16)
    ensures
        is_i16(math, pcm_of(sample), r),
{
    let scaled = math.times(sample, math.single(HIGHEST_I16));
    let r: i16 = math.to_i16(
        math.limited(scaled, math.single(LOWEST_I16), math.single(HIGHEST_I16)),
    );
    proof {
        reveal_with_fuel(evaluates, 5);
    }
    r
}

/// `tenths` are results of rounding `levels` to tenths.
pub open spec fn in_tenths<M: SampleMath>(math: &M, levels: Seq<M::Real>, tenths: Seq<i16>) -> bool {
    &&& tenths.len() == levels.len()
    &&& forall|i: int|
        0 <= i < levels.len() ==> is_i16(math, tenths_of(levels[i]), #[trigger] tenths[i])
}

/// `frame` is the spectrum frame of `bins` and of the display ranges of `s`.
pub open spec fn encodes_spectrum<M: SampleMath>(
    math: &M,
    bins: Seq<M::Real>,
    s: Settings,
    frame: Seq<u8>,
) -> bool {
    exists|levels: Seq<M::Real>, ranges: Seq<i16>, values: Seq<i16>| #[trigger]
        encodes_spectrum_by(math, bins, s, frame, levels, ranges, values)
}

/// The display ranges are `levels`, in tenths `ranges`, and the bins in tenths are `values`.
pub open spec fn encodes_spectrum_by<M: SampleMath>(
    math: &M,
    bins: Seq<M::Real>,
    s: Settings,
    frame: Seq<u8>,
    levels: Seq<M::Real>,
    ranges: Seq<i16>,
    values: Seq<i16>,
) -> bool {
    &&& range_levels(math, s, levels)
    &&& in_tenths(math, levels, ranges)
    &&& in_tenths(math, bins, values)
    &&& frame == spectrum_frame(ranges, values)
}

/// `values` are results of converting `samples` to PCM.
pub open spec fn in_pcm<M: SampleMath>(math: &M, samples: Seq<M::Real>, values: Seq<i16>) -> bool {
    &&& values.len() == samples.len()
    &&& forall|i: int|
        0 <= i < samples.len() ==> is_i16(math, pcm_of(samples[i]), #[trigger] values[i])
}

/// `frame` is the audio frame of `samples` at `rate`.
pub open spec fn encodes_audio<M: SampleMath>(
    math: &M,
    samples: Seq<M::Real>,
    rate: u32,
    frame: Seq<u8>,
) -> bool {
    exists|values: Seq<i16>| #[trigger]
        in_pcm(math, samples, values) && frame == audio_frame(rate, values)
}

/// Packs the spectrum `bins` and the display ranges of `s` into a frame.
pub fn encode_spectrum_frame<M: SampleMath>(math: &M, bins: &[M::Real], s: &Settings) -> (r: Vec<u8>)
    ensures
        encodes_spectrum(math, bins@, *s, r@),
{
    let mut levels: Vec<M::Real> = Vec::new();
    levels.push(math.single(s.spec_min_db));
    levels.push(math.single(s.spec_max_db));
    levels.push(math.single(s.wf_min_db));
    levels.push(math.single(s.wf_max_db));
    let mut frame: Vec<u8> = Vec::new();
    frame.push(FRAME_SPECTRUM);
    let ghost mut ranges: Seq<i16> = Seq::empty();
    let ghost mut values: Seq<i16> = Seq::empty();
    let mut i: usize = 0;
    assert(frame@ =~= spectrum_frame(ranges, values));
    while i < 4
        invariant
            i <= 4,
            levels@.len() == 4,
            ranges.len() == i,
            forall|j: int|
                0 <= j < i ==> is_i16(math, tenths_of(levels@[j]), #[trigger] ranges[j]),
            values == Seq::<i16>::empty(),
            frame@ == spectrum_frame(ranges, values),
        decreases 4 - i,
    {
        let v: i16 = tenths(math, levels[i]);
        push_word(&mut frame, word(v), Ghost(FRAME_SPECTRUM), Ghost(words_of(ranges + values)));
        proof {
            assert(words_of(ranges.push(v) + values) =~= words_of(ranges + values).push(
                word_of(v),
            ));
            ranges = ranges.push(v);
        }
        i += 1;
    }
    let mut k: usize = 0;
    while k < bins.len()
        invariant
            k <= bins@.len(),
            values.len() == k,
            forall|j: int|
                0 <= j < k ==> is_i16(math, tenths_of(bins@[j]), #[trigger] values[j]),
            frame@ == spectrum_frame(ranges, values),
        decreases bins.len() - k,
    {
        let v: i16 = tenths(math, bins[k]);
        push_word(&mut frame, word(v), Ghost(FRAME_SPECTRUM), Ghost(words_of(ranges + values)));
        proof {
            assert(words_of(ranges + values.push(v)) =~= words_of(ranges + values).push(
                word_of(v),
            ));
            values = values.push(v);
        }
        k += 1;
    }
    assert(encodes_spectrum_by(math, bins@, *s, frame@, levels@, ranges, values));
    frame
}

/// Packs `samples` at `rate` samples a second into an audio frame.
pub fn encode_audio_frame<M: SampleMath>(math: &M, samples: &[M::Real], rate: u32) -> (r: Vec<u8>)
    ensures
        encodes_audio(math, samples@, rate, r@),
{
    let mut frame: Vec<u8> = Vec::new();
    frame.push(FRAME_AUDIO);
    let ghost rate_word: Seq<int> = seq![rate as int % 0x1_0000];
    let ghost mut values: Seq<i16> = Seq::empty();
    assert(frame@ =~= framed(FRAME_AUDIO, Seq::empty()));
    push_word(&mut frame, (rate % 0x1_0000) as u16, Ghost(FRAME_AUDIO), Ghost(Seq::empty()));
    assert(Seq::<int>::empty().push(rate as int % 0x1_0000) =~= rate_word + words_of(values));
    let mut i: usize = 0;
    while i < samples.len()
        invariant
            i <= samples@.len(),
            values.len() == i,
            rate_word == seq![rate as int % 0x1_0000],
            forall|j: int|
                0 <= j < i ==> is_i16(math, pcm_of(samples@[j]), #[trigger] values[j]),
            frame@ == framed(FRAME_AUDIO, rate_word + words_of(values)),
        decreases samples.len() - i,
    {
        let v: i16 = pcm(math, samples[i]);
        push_word(&mut frame, word(v), Ghost(FRAME_AUDIO), Ghost(rate_word + words_of(values)));
        proof {
            assert(rate_word + words_of(values.push(v)) =~= (rate_word + words_of(values)).push(
                word_of(v),
            ));
            values = values.push(v);
        }
        i += 1;
    }
    assert(in_pcm(math, samples@, values));
    frame
}

/// A reader of a frame gets the words back.
proof fn lemma_frame_words(kind: u8, words: Seq<int>)
    requires
        forall|k: int| 0 <= k < words.len() ==> 0 <= #[trigger] words[k] < 0x1_0000,
    ensures
        framed(kind, words).len() == 1 + 2 * words.len(),
        framed(kind, words)[0] == kind,
        forall|k: int|
            0 <= k < words.len() ==> #[trigger] frame_word(framed(kind, words), k) == words[k],
{
    let frame = framed(kind, words);
    assert forall|k: int| 0 <= k < words.len() implies #[trigger] frame_word(frame, k)
        == words[k] by {
        let w = words[k];
        assert(frame[1 + 2 * k] == word_bytes(words)[2 * k]);
        assert(frame[2 + 2 * k] == word_bytes(words)[2 * k + 1]);
        assert((2 * k) / 2 == k && (2 * k + 1) / 2 == k);
    }
}

/// A spectrum frame starts with its type byte, has a length given by its bins (2057 bytes for
/// 1024 of them), and gives a reader the display ranges and the bins back.
pub proof fn law_spectrum_frame_reads_back(ranges: Seq<i16>, bins: Seq<i16>)
    requires
        ranges.len() == 4,
    ensures
        spectrum_frame(ranges, bins).len() == 9 + 2 * bins.len(),
        spectrum_frame(ranges, bins)[0] == FRAME_SPECTRUM,
        forall|k: int|
            #![trigger ranges[k]]
            0 <= k < 4 ==> signed(frame_word(spectrum_frame(ranges, bins), k)) == ranges[k],
        forall|k: int|
            #![trigger bins[k]]
            0 <= k < bins.len() ==> signed(frame_word(spectrum_frame(ranges, bins), 4 + k))
                == bins[k],
{
    let words = words_of(ranges + bins);
    lemma_frame_words(FRAME_SPECTRUM, words);
    assert forall|k: int| 0 <= k < 4 implies signed(
        frame_word(spectrum_frame(ranges, bins), k),
    ) == #[trigger] ranges[k] by {
        assert(words[k] == word_of(ranges[k]));
    }
    assert forall|k: int| 0 <= k < bins.len() implies signed(
        frame_word(spectrum_frame(ranges, bins), 4 + k),
    ) == #[trigger] bins[k] by {
        assert(words[4 + k] == word_of(bins[k]));
    }
}

/// An audio frame starts with its type byte, has three bytes and two for each sample, and
/// gives a reader the low 16 bits of the rate and the samples back.
pub proof fn law_audio_frame_reads_back(rate: u32, samples: Seq<i16>)
    ensures
        audio_frame(rate, samples).len() == 3 + 2 * samples.len(),
        audio_frame(rate, samples)[0] == FRAME_AUDIO,
        frame_word(audio_frame(rate, samples), 0) == rate as int % 0x1_0000,
        forall|k: int|
            #![trigger samples[k]]
            0 <= k < samples.len() ==> signed(frame_word(audio_frame(rate, samples), 1 + k))
                == samples[k],
{
    let words = seq![rate as int % 0x1_0000] + words_of(samples);
    lemma_frame_words(FRAME_AUDIO, words);
    assert(words[0] == rate as int % 0x1_0000);
    assert forall|k: int| 0 <= k < samples.len() implies signed(
        frame_word(audio_frame(rate, samples), 1 + k),
    ) == #[trigger] samples[k] by {
        assert(words[1 + k] == word_of(samples[k]));
    }
}

/// The steps from a sample to its PCM value: `x` is the sample scaled, limited between `low`
/// and `high` to `y`, which is made the integer `v`.
spec fn packs_by<M: SampleMath>(
    math: &M,
    sample: M::Real,
    v: i16,
    full: M::Real,
    x: M::Real,
    low: M::Real,
    high: M::Real,
    y: M::Real,
) -> bool {
    &&& call_ensures(M::single, (math, HIGHEST_I16), full)
    &&& call_ensures(M::times, (math, sample, full), x)
    &&& call_ensures(M::single, (math, LOWEST_I16), low)
    &&& call_ensures(M::single, (math, HIGHEST_I16), high)
    &&& call_ensures(M::limited, (math, x, low, high), y)
    &&& call_ensures(M::to_i16, (math, y), v)
}

/// A PCM value comes about in these steps, and only so.
proof fn lemma_pcm_steps<M: SampleMath>(math: &M, sample: M::Real, v: i16) -> (r: (
    M::Real,
    M::Real,
    M::Real,
    M::Real,
    M::Real,
))
    requires
        is_i16(math, pcm_of(sample), v),
    ensures
        packs_by(math, sample, v, r.0, r.1, r.2, r.3, r.4),
{
    let scaled = Formula::<M::Real, M::Iq>::Known(sample).times(Formula::Single(HIGHEST_I16));
    let y = choose|y: M::Real| #[trigger]
        call_ensures(M::to_i16, (math, y), v) && evaluates(math, pcm_of(sample), y);
    let (x, low, high) = choose|x: M::Real, l: M::Real, h: M::Real| #[trigger]
        call_ensures(M::limited, (math, x, l, h), y) && evaluates(math, scaled, x) && evaluates(
            math,
            Formula::Single(LOWEST_I16),
            l,
        ) && evaluates(math, Formula::Single(HIGHEST_I16), h);
    let (s, full) = choose|a: M::Real, b: M::Real| #[trigger]
        call_ensures(M::times, (math, a, b), x) && evaluates(math, Formula::Known(sample), a)
            && evaluates(math, Formula::Single(HIGHEST_I16), b);
    (full, x, low, high, y)
}

/// The steps lead to a PCM value.
proof fn lemma_pcm_of_steps<M: SampleMath>(
    math: &M,
    sample: M::Real,
    v: i16,
    full: M::Real,
    x: M::Real,
    low: M::Real,
    high: M::Real,
    y: M::Real,
)
    requires
        packs_by(math, sample, v, full, x, low, high, y),
    ensures
        is_i16(math, pcm_of(sample), v),
{
    reveal_with_fuel(evaluates, 4);
    assert(evaluates(
        math,
        Formula::Known(sample).times(Formula::Single(HIGHEST_I16)),
        x,
    ));
    assert(evaluates(math, pcm_of(sample), y));
}

/// The PCM value of a sample within full scale.
proof fn lemma_pcm_accuracy<M: SampleMath>(
    math: &M,
    m: Measure<M::Real, M::Iq>,
    sample: M::Real,
    v: i16,
)
    requires
        packs_closely(math, m),
        within((m.value)(sample), 1real),
        is_i16(math, pcm_of(sample), v),
    ensures
        -32767 <= v <= 32767,
        -101real < 100real * (v as real - 32767real * (m.value)(sample)) < 101real,
{
    let (full, x, low, high, y) = lemma_pcm_steps(math, sample, v);
    assert(y == x);
}

/// The PCM value of a negated sample.
proof fn lemma_negated_sample<M: SampleMath>(
    math: &M,
    m: Measure<M::Real, M::Iq>,
    negate: spec_fn(M::Real) -> M::Real,
    sample: M::Real,
    v: i16,
)
    requires
        is_sign_symmetric(math, negate),
        packs_closely(math, m),
        packs_symmetrically(math, m, negate),
        within((m.value)(sample), 1real),
        is_i16(math, pcm_of(sample), v),
    ensures
        v > i16::MIN,
        is_i16(math, pcm_of(negate(sample)), (-v) as i16),
{
    let (full, x, low, high, y) = lemma_pcm_steps(math, sample, v);
    let minus = negate(x);
    assert(y == x);
    assert(call_ensures(M::times, (math, negate(sample), full), minus));
    assert(call_ensures(M::limited, (math, minus, low, high), minus));
    assert(call_ensures(M::to_i16, (math, minus), (-v) as i16));
    lemma_pcm_of_steps(math, negate(sample), (-v) as i16, full, minus, low, high, minus);
}

/// Negated samples within full scale are packed into negated PCM values.
pub proof fn law_pcm_is_odd<M: SampleMath>(
    math: &M,
    m: Measure<M::Real, M::Iq>,
    negate: spec_fn(M::Real) -> M::Real,
    samples: Seq<M::Real>,
    values: Seq<i16>,
)
    requires
        is_sign_symmetric(math, negate),
        packs_closely(math, m),
        packs_symmetrically(math, m, negate),
        forall|i: int| 0 <= i < samples.len() ==> within((m.value)(#[trigger] samples[i]), 1real),
        in_pcm(math, samples, values),
    ensures
        in_pcm(math, negated(samples, negate), values.map_values(|v: i16| (-v) as i16)),
{
    let others = negated(samples, negate);
    let minus = values.map_values(|v: i16| (-v) as i16);
    assert forall|i: int| 0 <= i < others.len() implies is_i16(
        math,
        pcm_of(others[i]),
        #[trigger] minus[i],
    ) by {
        assert(is_i16(math, pcm_of(samples[i]), values[i]));
        lemma_negated_sample(math, m, negate, samples[i], values[i]);
    }
}

/// The value of sample `i` of an audio frame.
pub open spec fn audio_value(frame: Seq<u8>, i: int) -> int {
    signed(frame_word(frame, 1 + i))
}

/// A sample within full scale comes out of an audio frame as that sample on the scale of 16-bit
/// PCM, to within a step and a hundredth, and within full scale.
pub proof fn law_audio_accuracy<M: SampleMath>(
    math: &M,
    m: Measure<M::Real, M::Iq>,
    samples: Seq<M::Real>,
    rate: u32,
    frame: Seq<u8>,
    i: int,
)
    requires
        packs_closely(math, m),
        encodes_audio(math, samples, rate, frame),
        0 <= i < samples.len(),
        within((m.value)(samples[i]), 1real),
    ensures
        -32767 <= audio_value(frame, i) <= 32767,
        -101real < 100real * (audio_value(frame, i) as real - 32767real * (m.value)(samples[i]))
            < 101real,
{
    let values = choose|values: Seq<i16>| #[trigger]
        in_pcm(math, samples, values) && frame == audio_frame(rate, values);
    law_audio_frame_reads_back(rate, values);
    assert(audio_value(frame, i) == values[i]);
    lemma_pcm_accuracy(math, m, samples[i], values[i]);
}

/// Where all samples are negated, what comes out of the audio frame for a sample within full
/// scale is negated.
pub proof fn law_audio_is_odd<M: SampleMath>(
    math: &M,
    m: Measure<M::Real, M::Iq>,
    negate: spec_fn(M::Real) -> M::Real,
    samples: Seq<M::Real>,
    rate: u32,
    frame: Seq<u8>,
    other: Seq<u8>,
    i: int,
)
    requires
        is_determined(math),
        is_sign_symmetric(math, negate),
        packs_closely(math, m),
        packs_symmetrically(math, m, negate),
        encodes_audio(math, samples, rate, frame),
        encodes_audio(math, negated(samples, negate), rate, other),
        0 <= i < samples.len(),
        within((m.value)(samples[i]), 1real),
    ensures
        audio_value(other, i) == -audio_value(frame, i),
{
    let values = choose|values: Seq<i16>| #[trigger]
        in_pcm(math, samples, values) && frame == audio_frame(rate, values);
    let minus = choose|values: Seq<i16>| #[trigger]
        in_pcm(math, negated(samples, negate), values) && other == audio_frame(rate, values);
    law_audio_frame_reads_back(rate, values);
    law_audio_frame_reads_back(rate, minus);
    assert(audio_value(frame, i) == values[i]);
    assert(audio_value(other, i) == minus[i]);
    lemma_negated_sample(math, m, negate, samples[i], values[i]);
    lemma_one_i16(math, pcm_of(negate(samples[i])), (-values[i]) as i16, minus[i]);
}

/// What is no number comes out of an audio frame as 0.
pub proof fn law_no_number_is_silent<M: SampleMath>(
    math: &M,
    no_number: spec_fn(M::Real) -> bool,
    samples: Seq<M::Real>,
    rate: u32,
    frame: Seq<u8>,
    i: int,
)
    requires
        no_number_stays(math, no_number),
        encodes_audio(math, samples, rate, frame),
        0 <= i < samples.len(),
        no_number(samples[i]),
    ensures
        audio_value(frame, i) == 0,
{
    let values = choose|values: Seq<i16>| #[trigger]
        in_pcm(math, samples, values) && frame == audio_frame(rate, values);
    law_audio_frame_reads_back(rate, values);
    assert(audio_value(frame, i) == values[i]);
    assert(is_i16(math, pcm_of(samples[i]), values[i]));
    let (full, x, low, high, y) = lemma_pcm_steps(math, samples[i], values[i]);
    assert(no_number(x) && no_number(y));
}

} // verus!
