//! Ideal arithmetic: operations that do not round, and what a formula is worth under them.

use crate::formula::{evaluates, iq_evaluates, Formula, IqFormula};
use crate::math::SampleMath;
use crate::measure::{is_exact, is_iq_exact, is_ordered, larger, size, smaller, Measure};
use crate::reals::square;
use vstd::prelude::*;

verus! {

/// What numbers stand for, and the functions that arithmetic on them is to compute.
#[verifier::reject_recursive_types(R)]
#[verifier::reject_recursive_types(C)]
pub struct Ideal<R, C> {
    /// What numbers stand for.
    pub measure: Measure<R, C>,
    /// The cosine.
    pub cosine: spec_fn(real) -> real,
    /// The sine.
    pub sine: spec_fn(real) -> real,
    /// The decimal logarithm.
    pub logarithm: spec_fn(real) -> real,
}

/// The operations of `math` do not round.
pub open spec fn is_ideal<M: SampleMath>(math: &M, ideal: Ideal<M::Real, M::Iq>) -> bool {
    let m = ideal.measure;
    &&& is_exact(math, m)
    &&& is_iq_exact(math, m)
    &&& is_ordered(math, m)
    &&& forall|x: M::Real, r: M::Real| #[trigger]
        call_ensures(M::cosine, (math, x), r) ==> (m.value)(r) == (ideal.cosine)((m.value)(x))
    &&& forall|x: M::Real, r: M::Real| #[trigger]
        call_ensures(M::sine, (math, x), r) ==> (m.value)(r) == (ideal.sine)((m.value)(x))
    &&& forall|x: M::Real, r: M::Real| #[trigger]
        call_ensures(M::logarithm, (math, x), r) ==> (m.value)(r) == (ideal.logarithm)(
            (m.value)(x),
        )
    &&& forall|z: M::Iq, x: M::Real, r: M::Iq| #[trigger]
        call_ensures(M::iq_scaled, (math, z, x), r) ==> (m.re)(r) == (m.re)(z) * (m.value)(x)
            && (m.im)(r) == (m.im)(z) * (m.value)(x)
    &&& forall|z: M::Iq, r: M::Real| #[trigger]
        call_ensures(M::norm_sqr, (math, z), r) ==> (m.value)(r) == square((m.re)(z)) + square(
            (m.im)(z),
        )
    &&& forall|z: M::Iq, r: M::Real| #[trigger]
        call_ensures(M::norm, (math, z), r) ==> (m.value)(r) >= 0real && square((m.value)(r))
            == square((m.re)(z)) + square((m.im)(z))
}

/// What a formula is worth.
pub open spec fn worth<R, C>(ideal: Ideal<R, C>, f: Formula<R, C>) -> real
    decreases f,
{
    match f {
        Formula::Known(x) => (ideal.measure.value)(x),
        Formula::Single(bits) => (ideal.measure.constant)(bits),
        Formula::Whole(n) => n as real,
        Formula::Plus(a, b) => worth(ideal, *a) + worth(ideal, *b),
        Formula::Minus(a, b) => worth(ideal, *a) - worth(ideal, *b),
        Formula::Times(a, b) => worth(ideal, *a) * worth(ideal, *b),
        Formula::Over(a, b) => worth(ideal, *a) / worth(ideal, *b),
        Formula::Greater(a, b) => larger(worth(ideal, *a), worth(ideal, *b)),
        Formula::Lesser(a, b) => smaller(worth(ideal, *a), worth(ideal, *b)),
        Formula::Absolute(a) => size(worth(ideal, *a)),
        Formula::Cosine(a) => (ideal.cosine)(worth(ideal, *a)),
        Formula::Sine(a) => (ideal.sine)(worth(ideal, *a)),
        Formula::Logarithm(a) => (ideal.logarithm)(worth(ideal, *a)),
        Formula::RealPart(z) => re_worth(ideal, *z),
        Formula::ImaginaryPart(z) => im_worth(ideal, *z),
        Formula::NormSqr(z) => square(re_worth(ideal, *z)) + square(im_worth(ideal, *z)),
        _ => 0real,
    }
}

/// What the real part of a formula for a complex number is worth.
pub open spec fn re_worth<R, C>(ideal: Ideal<R, C>, f: IqFormula<R, C>) -> real
    decreases f,
{
    match f {
        IqFormula::Known(z) => (ideal.measure.re)(z),
        IqFormula::Iq(a, b) => worth(ideal, *a),
        IqFormula::Conjugate(a) => re_worth(ideal, *a),
        IqFormula::Plus(a, b) => re_worth(ideal, *a) + re_worth(ideal, *b),
        IqFormula::Times(a, b) => re_worth(ideal, *a) * re_worth(ideal, *b) - im_worth(ideal, *a)
            * im_worth(ideal, *b),
        IqFormula::Scaled(a, b) => re_worth(ideal, *a) * worth(ideal, *b),
        IqFormula::Over(a, b) => re_worth(ideal, *a) / worth(ideal, *b),
    }
}

/// What the imaginary part of a formula for a complex number is worth.
pub open spec fn im_worth<R, C>(ideal: Ideal<R, C>, f: IqFormula<R, C>) -> real
    decreases f,
{
    match f {
        IqFormula::Known(z) => (ideal.measure.im)(z),
        IqFormula::Iq(a, b) => worth(ideal, *b),
        IqFormula::Conjugate(a) => -im_worth(ideal, *a),
        IqFormula::Plus(a, b) => im_worth(ideal, *a) + im_worth(ideal, *b),
        IqFormula::Times(a, b) => re_worth(ideal, *a) * im_worth(ideal, *b) + im_worth(ideal, *a)
            * re_worth(ideal, *b),
        IqFormula::Scaled(a, b) => im_worth(ideal, *a) * worth(ideal, *b),
        IqFormula::Over(a, b) => im_worth(ideal, *a) / worth(ideal, *b),
    }
}

/// A formula is worth what `worth` tells: nothing in it is divided by 0, and it has none of the
/// operations that `worth` does not tell of.
pub open spec fn is_sound<R, C>(ideal: Ideal<R, C>, f: Formula<R, C>) -> bool
    decreases f,
{
    match f {
        Formula::Known(_) => true,
        Formula::Single(_) => true,
        Formula::Whole(_) => true,
        Formula::Plus(a, b) => is_sound(ideal, *a) && is_sound(ideal, *b),
        Formula::Minus(a, b) => is_sound(ideal, *a) && is_sound(ideal, *b),
        Formula::Times(a, b) => is_sound(ideal, *a) && is_sound(ideal, *b),
        Formula::Over(a, b) => is_sound(ideal, *a) && is_sound(ideal, *b) && worth(ideal, *b)
            != 0real,
        Formula::Greater(a, b) => is_sound(ideal, *a) && is_sound(ideal, *b),
        Formula::Lesser(a, b) => is_sound(ideal, *a) && is_sound(ideal, *b),
        Formula::Absolute(a) => is_sound(ideal, *a),
        Formula::Cosine(a) => is_sound(ideal, *a),
        Formula::Sine(a) => is_sound(ideal, *a),
        Formula::Logarithm(a) => is_sound(ideal, *a),
        Formula::RealPart(z) => is_iq_sound(ideal, *z),
        Formula::ImaginaryPart(z) => is_iq_sound(ideal, *z),
        Formula::NormSqr(z) => is_iq_sound(ideal, *z),
        _ => false,
    }
}

/// The same of a formula for a complex number.
pub open spec fn is_iq_sound<R, C>(ideal: Ideal<R, C>, f: IqFormula<R, C>) -> bool
    decreases f,
{
    match f {
        IqFormula::Known(_) => true,
        IqFormula::Iq(a, b) => is_sound(ideal, *a) && is_sound(ideal, *b),
        IqFormula::Conjugate(a) => is_iq_sound(ideal, *a),
        IqFormula::Plus(a, b) => is_iq_sound(ideal, *a) && is_iq_sound(ideal, *b),
        IqFormula::Times(a, b) => is_iq_sound(ideal, *a) && is_iq_sound(ideal, *b),
        IqFormula::Scaled(a, b) => is_iq_sound(ideal, *a) && is_sound(ideal, *b),
        IqFormula::Over(a, b) => is_iq_sound(ideal, *a) && is_sound(ideal, *b) && worth(ideal, *b)
            != 0real,
    }
}

/// Where arithmetic does not round, the result of a formula stands for what the formula is
/// worth.
pub proof fn lemma_worth<M: SampleMath>(
    math: &M,
    ideal: Ideal<M::Real, M::Iq>,
    f: Formula<M::Real, M::Iq>,
    r: M::Real,
)
    requires
        is_ideal(math, ideal),
        is_sound(ideal, f),
        evaluates(math, f, r),
    ensures
        (ideal.measure.value)(r) == worth(ideal, f),
    decreases f,
{
    match f {
        Formula::Known(_) => {},
        Formula::Single(_) => {},
        Formula::Whole(_) => {},
        Formula::Plus(a, b) => {
            let (x, y) = choose|x: M::Real, y: M::Real| #[trigger]
                call_ensures(M::plus, (math, x, y), r) && evaluates(math, *a, x) && evaluates(
                    math,
                    *b,
                    y,
                );
            lemma_worth(math, ideal, *a, x);
            lemma_worth(math, ideal, *b, y);
        },
        Formula::Minus(a, b) => {
            let (x, y) = choose|x: M::Real, y: M::Real| #[trigger]
                call_ensures(M::minus, (math, x, y), r) && evaluates(math, *a, x) && evaluates(
                    math,
                    *b,
                    y,
                );
            lemma_worth(math, ideal, *a, x);
            lemma_worth(math, ideal, *b, y);
        },
        Formula::Times(a, b) => {
            let (x, y) = choose|x: M::Real, y: M::Real| #[trigger]
                call_ensures(M::times, (math, x, y), r) && evaluates(math, *a, x) && evaluates(
                    math,
                    *b,
                    y,
                );
            lemma_worth(math, ideal, *a, x);
            lemma_worth(math, ideal, *b, y);
        },
        Formula::Over(a, b) => {
            let (x, y) = choose|x: M::Real, y: M::Real| #[trigger]
                call_ensures(M::over, (math, x, y), r) && evaluates(math, *a, x) && evaluates(
                    math,
                    *b,
                    y,
                );
            lemma_worth(math, ideal, *a, x);
            lemma_worth(math, ideal, *b, y);
        },
        Formula::Greater(a, b) => {
            let (x, y) = choose|x: M::Real, y: M::Real| #[trigger]
                call_ensures(M::greater, (math, x, y), r) && evaluates(math, *a, x) && evaluates(
                    math,
                    *b,
                    y,
                );
            lemma_worth(math, ideal, *a, x);
            lemma_worth(math, ideal, *b, y);
        },
        Formula::Lesser(a, b) => {
            let (x, y) = choose|x: M::Real, y: M::Real| #[trigger]
                call_ensures(M::lesser, (math, x, y), r) && evaluates(math, *a, x) && evaluates(
                    math,
                    *b,
                    y,
                );
            lemma_worth(math, ideal, *a, x);
            lemma_worth(math, ideal, *b, y);
        },
        Formula::Absolute(a) => {
            let x = choose|x: M::Real| #[trigger]
                call_ensures(M::absolute, (math, x), r) && evaluates(math, *a, x);
            lemma_worth(math, ideal, *a, x);
        },
        Formula::Cosine(a) => {
            let x = choose|x: M::Real| #[trigger]
                call_ensures(M::cosine, (math, x), r) && evaluates(math, *a, x);
            lemma_worth(math, ideal, *a, x);
        },
        Formula::Sine(a) => {
            let x = choose|x: M::Real| #[trigger]
                call_ensures(M::sine, (math, x), r) && evaluates(math, *a, x);
            lemma_worth(math, ideal, *a, x);
        },
        Formula::Logarithm(a) => {
            let x = choose|x: M::Real| #[trigger]
                call_ensures(M::logarithm, (math, x), r) && evaluates(math, *a, x);
            lemma_worth(math, ideal, *a, x);
        },
        Formula::RealPart(a) => {
            let x = choose|x: M::Iq| #[trigger]
                call_ensures(M::real_part, (math, x), r) && iq_evaluates(math, *a, x);
            lemma_iq_worth(math, ideal, *a, x);
        },
        Formula::ImaginaryPart(a) => {
            let x = choose|x: M::Iq| #[trigger]
                call_ensures(M::imaginary_part, (math, x), r) && iq_evaluates(math, *a, x);
            lemma_iq_worth(math, ideal, *a, x);
        },
        Formula::NormSqr(a) => {
            let x = choose|x: M::Iq| #[trigger]
                call_ensures(M::norm_sqr, (math, x), r) && iq_evaluates(math, *a, x);
            lemma_iq_worth(math, ideal, *a, x);
        },
        _ => {},
    }
}

/// The same of a formula for a complex number.
pub proof fn lemma_iq_worth<M: SampleMath>(
    math: &M,
    ideal: Ideal<M::Real, M::Iq>,
    f: IqFormula<M::Real, M::Iq>,
    r: M::Iq,
)
    requires
        is_ideal(math, ideal),
        is_iq_sound(ideal, f),
        iq_evaluates(math, f, r),
    ensures
        (ideal.measure.re)(r) == re_worth(ideal, f),
        (ideal.measure.im)(r) == im_worth(ideal, f),
    decreases f,
{
    match f {
        IqFormula::Known(_) => {},
        IqFormula::Iq(a, b) => {
            let (x, y) = choose|x: M::Real, y: M::Real| #[trigger]
                call_ensures(M::iq, (math, x, y), r) && evaluates(math, *a, x) && evaluates(
                    math,
                    *b,
                    y,
                );
            lemma_worth(math, ideal, *a, x);
            lemma_worth(math, ideal, *b, y);
        },
        IqFormula::Conjugate(a) => {
            let x = choose|x: M::Iq| #[trigger]
                call_ensures(M::conjugate, (math, x), r) && iq_evaluates(math, *a, x);
            lemma_iq_worth(math, ideal, *a, x);
        },
        IqFormula::Plus(a, b) => {
            let (x, y) = choose|x: M::Iq, y: M::Iq| #[trigger]
                call_ensures(M::iq_plus, (math, x, y), r) && iq_evaluates(math, *a, x)
                    && iq_evaluates(math, *b, y);
            lemma_iq_worth(math, ideal, *a, x);
            lemma_iq_worth(math, ideal, *b, y);
        },
        IqFormula::Times(a, b) => {
            let (x, y) = choose|x: M::Iq, y: M::Iq| #[trigger]
                call_ensures(M::iq_times, (math, x, y), r) && iq_evaluates(math, *a, x)
                    && iq_evaluates(math, *b, y);
            lemma_iq_worth(math, ideal, *a, x);
            lemma_iq_worth(math, ideal, *b, y);
        },
        IqFormula::Scaled(a, b) => {
            let (x, y) = choose|x: M::Iq, y: M::Real| #[trigger]
                call_ensures(M::iq_scaled, (math, x, y), r) && iq_evaluates(math, *a, x)
                    && evaluates(math, *b, y);
            lemma_iq_worth(math, ideal, *a, x);
            lemma_worth(math, ideal, *b, y);
        },
        IqFormula::Over(a, b) => {
            let (x, y) = choose|x: M::Iq, y: M::Real| #[trigger]
                call_ensures(M::iq_over, (math, x, y), r) && iq_evaluates(math, *a, x)
                    && evaluates(math, *b, y);
            lemma_iq_worth(math, ideal, *a, x);
            lemma_worth(math, ideal, *b, y);
        },
    }
}

/// A whole turn: 2 pi.
pub open spec fn whole_turn<R, C>(ideal: Ideal<R, C>) -> real {
    2real * (ideal.measure.constant)(0x4049_0FDB)
}

/// The addition theorems, for the angles `a` and `b`.
pub open spec fn adds_angles<R, C>(ideal: Ideal<R, C>, a: real, b: real) -> bool {
    &&& (ideal.cosine)(a + b) == (ideal.cosine)(a) * (ideal.cosine)(b) - (ideal.sine)(a) * (
    ideal.sine)(b)
    &&& (ideal.sine)(a + b) == (ideal.cosine)(a) * (ideal.sine)(b) + (ideal.sine)(a) * (
    ideal.cosine)(b)
}

/// Whole turns make no difference to the angle `a`.
pub open spec fn repeats<R, C>(ideal: Ideal<R, C>, a: real, turns: int) -> bool {
    &&& (ideal.cosine)(a + turns as real * whole_turn(ideal)) == (ideal.cosine)(a)
    &&& (ideal.sine)(a + turns as real * whole_turn(ideal)) == (ideal.sine)(a)
}

/// The point at the angle `a` is at the distance 1.
pub open spec fn on_circle<R, C>(ideal: Ideal<R, C>, a: real) -> bool {
    square((ideal.cosine)(a)) + square((ideal.sine)(a)) == 1real
}

/// The cosine and the sine are those of the circle.
pub open spec fn is_circular<R, C>(ideal: Ideal<R, C>) -> bool {
    &&& (ideal.cosine)(0real) == 1real
    &&& (ideal.sine)(0real) == 0real
    &&& forall|a: real| #[trigger] on_circle(ideal, a)
    &&& forall|a: real, b: real| #[trigger] adds_angles(ideal, a, b)
    &&& forall|a: real, turns: int| #[trigger] repeats(ideal, a, turns)
    &&& whole_turn(ideal) > 0real
}

/// The constants stand for the numbers whose single-precision bit patterns they are.
pub open spec fn reads_constants<R, C>(ideal: Ideal<R, C>) -> bool {
    let constant = ideal.measure.constant;
    &&& constant(0x3F00_0000) == 1real / 2real
    &&& constant(0x4000_0000) == 2real
    &&& constant(0x4080_0000) == 4real
    &&& constant(0x4120_0000) == 10real
    &&& constant(0xC000_0000) == -2real
    &&& constant(0x42FF_0000) == 255real / 2real
    &&& constant(0x4700_0000) == 32768real
    &&& constant(0x46FF_FE00) == 32767real
    &&& constant(0xC700_0000) == -32768real
}

} // verus!
