//! Formulas of the signal path, and what it means to be a result of one.

use crate::math::{SampleMath, FFT_SIZE};
use vstd::prelude::*;

verus! {

/// The bit pattern of 0.
pub const ZERO: u32 = 0;

/// The bit pattern of 0.5.
pub const HALF: u32 = 0x3F00_0000;

/// The bit pattern of 1.
pub const ONE: u32 = 0x3F80_0000;

/// The bit pattern of 2.
pub const TWO: u32 = 0x4000_0000;

/// The bit pattern of 10.
pub const TEN: u32 = 0x4120_0000;

/// The bit pattern of pi.
pub const PI: u32 = 0x4049_0FDB;

/// A formula for a real number, over known reals of type `R` and known samples of type `C`.
pub enum Formula<R, C> {
    /// A number at hand.
    Known(R),
    /// The number with a single-precision bit pattern.
    Single(u32),
    /// A whole number.
    Whole(u64),
    Plus(Box<Formula<R, C>>, Box<Formula<R, C>>),
    Minus(Box<Formula<R, C>>, Box<Formula<R, C>>),
    Times(Box<Formula<R, C>>, Box<Formula<R, C>>),
    Over(Box<Formula<R, C>>, Box<Formula<R, C>>),
    Remainder(Box<Formula<R, C>>, Box<Formula<R, C>>),
    Greater(Box<Formula<R, C>>, Box<Formula<R, C>>),
    Lesser(Box<Formula<R, C>>, Box<Formula<R, C>>),
    Angle(Box<Formula<R, C>>, Box<Formula<R, C>>),
    Absolute(Box<Formula<R, C>>),
    Rounded(Box<Formula<R, C>>),
    Cosine(Box<Formula<R, C>>),
    Sine(Box<Formula<R, C>>),
    Logarithm(Box<Formula<R, C>>),
    Limited(Box<Formula<R, C>>, Box<Formula<R, C>>, Box<Formula<R, C>>),
    RealPart(Box<IqFormula<R, C>>),
    ImaginaryPart(Box<IqFormula<R, C>>),
    Norm(Box<IqFormula<R, C>>),
    NormSqr(Box<IqFormula<R, C>>),
}

/// A formula for a complex number.
pub enum IqFormula<R, C> {
    /// A sample at hand.
    Known(C),
    /// The number with the given parts.
    Iq(Box<Formula<R, C>>, Box<Formula<R, C>>),
    Conjugate(Box<IqFormula<R, C>>),
    Plus(Box<IqFormula<R, C>>, Box<IqFormula<R, C>>),
    Times(Box<IqFormula<R, C>>, Box<IqFormula<R, C>>),
    Scaled(Box<IqFormula<R, C>>, Box<Formula<R, C>>),
    Over(Box<IqFormula<R, C>>, Box<Formula<R, C>>),
}

impl<R, C> Formula<R, C> {
    pub open spec fn plus(self, other: Self) -> Self {
        Formula::Plus(Box::new(self), Box::new(other))
    }

    pub open spec fn minus(self, other: Self) -> Self {
        Formula::Minus(Box::new(self), Box::new(other))
    }

    pub open spec fn times(self, other: Self) -> Self {
        Formula::Times(Box::new(self), Box::new(other))
    }

    pub open spec fn over(self, other: Self) -> Self {
        Formula::Over(Box::new(self), Box::new(other))
    }

    pub open spec fn remainder(self, other: Self) -> Self {
        Formula::Remainder(Box::new(self), Box::new(other))
    }

    pub open spec fn greater(self, other: Self) -> Self {
        Formula::Greater(Box::new(self), Box::new(other))
    }

    pub open spec fn lesser(self, other: Self) -> Self {
        Formula::Lesser(Box::new(self), Box::new(other))
    }

    /// The angle of the point with the coordinates `x` and `self`.
    pub open spec fn angle(self, x: Self) -> Self {
        Formula::Angle(Box::new(self), Box::new(x))
    }

    pub open spec fn absolute(self) -> Self {
        Formula::Absolute(Box::new(self))
    }

    pub open spec fn rounded(self) -> Self {
        Formula::Rounded(Box::new(self))
    }

    pub open spec fn cosine(self) -> Self {
        Formula::Cosine(Box::new(self))
    }

    pub open spec fn sine(self) -> Self {
        Formula::Sine(Box::new(self))
    }

    pub open spec fn logarithm(self) -> Self {
        Formula::Logarithm(Box::new(self))
    }

    pub open spec fn limited(self, low: Self, high: Self) -> Self {
        Formula::Limited(Box::new(self), Box::new(low), Box::new(high))
    }

    /// The complex number with the real part `self`.
    pub open spec fn with_imaginary(self, im: Self) -> IqFormula<R, C> {
        IqFormula::Iq(Box::new(self), Box::new(im))
    }
}

impl<R, C> IqFormula<R, C> {
    pub open spec fn conjugate(self) -> Self {
        IqFormula::Conjugate(Box::new(self))
    }

    pub open spec fn plus(self, other: Self) -> Self {
        IqFormula::Plus(Box::new(self), Box::new(other))
    }

    pub open spec fn times(self, other: Self) -> Self {
        IqFormula::Times(Box::new(self), Box::new(other))
    }

    pub open spec fn scaled(self, factor: Formula<R, C>) -> Self {
        IqFormula::Scaled(Box::new(self), Box::new(factor))
    }

    pub open spec fn over(self, divisor: Formula<R, C>) -> Self {
        IqFormula::Over(Box::new(self), Box::new(divisor))
    }

    pub open spec fn real_part(self) -> Formula<R, C> {
        Formula::RealPart(Box::new(self))
    }

    pub open spec fn imaginary_part(self) -> Formula<R, C> {
        Formula::ImaginaryPart(Box::new(self))
    }

    pub open spec fn norm(self) -> Formula<R, C> {
        Formula::Norm(Box::new(self))
    }

    pub open spec fn norm_sqr(self) -> Formula<R, C> {
        Formula::NormSqr(Box::new(self))
    }
}

/// `r` is a result of the formula `f`: its parts have results of which the operation makes
/// `r`.
pub open spec fn evaluates<M: SampleMath>(math: &M, f: Formula<M::Real, M::Iq>, r: M::Real) -> bool
    decreases f,
{
    match f {
        Formula::Known(x) => r == x,
        Formula::Single(bits) => call_ensures(M::single, (math, bits), r),
        Formula::Whole(n) => call_ensures(M::whole, (math, n), r),
        Formula::Plus(a, b) => exists|x: M::Real, y: M::Real| #[trigger]
            call_ensures(M::plus, (math, x, y), r) && evaluates(math, *a, x) && evaluates(
                math,
                *b,
                y,
            ),
        Formula::Minus(a, b) => exists|x: M::Real, y: M::Real| #[trigger]
            call_ensures(M::minus, (math, x, y), r) && evaluates(math, *a, x) && evaluates(
                math,
                *b,
                y,
            ),
        Formula::Times(a, b) => exists|x: M::Real, y: M::Real| #[trigger]
            call_ensures(M::times, (math, x, y), r) && evaluates(math, *a, x) && evaluates(
                math,
                *b,
                y,
            ),
        Formula::Over(a, b) => exists|x: M::Real, y: M::Real| #[trigger]
            call_ensures(M::over, (math, x, y), r) && evaluates(math, *a, x) && evaluates(
                math,
                *b,
                y,
            ),
        Formula::Remainder(a, b) => exists|x: M::Real, y: M::Real| #[trigger]
            call_ensures(M::remainder, (math, x, y), r) && evaluates(math, *a, x) && evaluates(
                math,
                *b,
                y,
            ),
        Formula::Greater(a, b) => exists|x: M::Real, y: M::Real| #[trigger]
            call_ensures(M::greater, (math, x, y), r) && evaluates(math, *a, x) && evaluates(
                math,
                *b,
                y,
            ),
        Formula::Lesser(a, b) => exists|x: M::Real, y: M::Real| #[trigger]
            call_ensures(M::lesser, (math, x, y), r) && evaluates(math, *a, x) && evaluates(
                math,
                *b,
                y,
            ),
        Formula::Angle(a, b) => exists|x: M::Real, y: M::Real| #[trigger]
            call_ensures(M::angle, (math, x, y), r) && evaluates(math, *a, x) && evaluates(
                math,
                *b,
                y,
            ),
        Formula::Absolute(a) => exists|x: M::Real| #[trigger]
            call_ensures(M::absolute, (math, x), r) && evaluates(math, *a, x),
        Formula::Rounded(a) => exists|x: M::Real| #[trigger]
            call_ensures(M::rounded, (math, x), r) && evaluates(math, *a, x),
        Formula::Cosine(a) => exists|x: M::Real| #[trigger]
            call_ensures(M::cosine, (math, x), r) && evaluates(math, *a, x),
        Formula::Sine(a) => exists|x: M::Real| #[trigger]
            call_ensures(M::sine, (math, x), r) && evaluates(math, *a, x),
        Formula::Logarithm(a) => exists|x: M::Real| #[trigger]
            call_ensures(M::logarithm, (math, x), r) && evaluates(math, *a, x),
        Formula::Limited(a, low, high) => exists|x: M::Real, y: M::Real, z: M::Real| #[trigger]
            call_ensures(M::limited, (math, x, y, z), r) && evaluates(math, *a, x) && evaluates(
                math,
                *low,
                y,
            ) && evaluates(math, *high, z),
        Formula::RealPart(a) => exists|x: M::Iq| #[trigger]
            call_ensures(M::real_part, (math, x), r) && iq_evaluates(math, *a, x),
        Formula::ImaginaryPart(a) => exists|x: M::Iq| #[trigger]
            call_ensures(M::imaginary_part, (math, x), r) && iq_evaluates(math, *a, x),
        Formula::Norm(a) => exists|x: M::Iq| #[trigger]
            call_ensures(M::norm, (math, x), r) && iq_evaluates(math, *a, x),
        Formula::NormSqr(a) => exists|x: M::Iq| #[trigger]
            call_ensures(M::norm_sqr, (math, x), r) && iq_evaluates(math, *a, x),
    }
}

/// `r` is a result of the formula `f` for a complex number.
pub open spec fn iq_evaluates<M: SampleMath>(
    math: &M,
    f: IqFormula<M::Real, M::Iq>,
    r: M::Iq,
) -> bool
    decreases f,
{
    match f {
        IqFormula::Known(x) => r == x,
        IqFormula::Iq(a, b) => exists|x: M::Real, y: M::Real| #[trigger]
            call_ensures(M::iq, (math, x, y), r) && evaluates(math, *a, x) && evaluates(
                math,
                *b,
                y,
            ),
        IqFormula::Conjugate(a) => exists|x: M::Iq| #[trigger]
            call_ensures(M::conjugate, (math, x), r) && iq_evaluates(math, *a, x),
        IqFormula::Plus(a, b) => exists|x: M::Iq, y: M::Iq| #[trigger]
            call_ensures(M::iq_plus, (math, x, y), r) && iq_evaluates(math, *a, x) && iq_evaluates(
                math,
                *b,
                y,
            ),
        IqFormula::Times(a, b) => exists|x: M::Iq, y: M::Iq| #[trigger]
            call_ensures(M::iq_times, (math, x, y), r) && iq_evaluates(math, *a, x)
                && iq_evaluates(math, *b, y),
        IqFormula::Scaled(a, b) => exists|x: M::Iq, y: M::Real| #[trigger]
            call_ensures(M::iq_scaled, (math, x, y), r) && iq_evaluates(math, *a, x) && evaluates(
                math,
                *b,
                y,
            ),
        IqFormula::Over(a, b) => exists|x: M::Iq, y: M::Real| #[trigger]
            call_ensures(M::iq_over, (math, x, y), r) && iq_evaluates(math, *a, x) && evaluates(
                math,
                *b,
                y,
            ),
    }
}

/// `b` tells, as `math` compares them, whether a result of `f` is below one of `g`.
pub open spec fn is_below<M: SampleMath>(
    math: &M,
    f: Formula<M::Real, M::Iq>,
    g: Formula<M::Real, M::Iq>,
    b: bool,
) -> bool {
    exists|x: M::Real, y: M::Real| #[trigger]
        call_ensures(M::below, (math, x, y), b) && evaluates(math, f, x) && evaluates(math, g, y)
}

/// `v` is a result of `f`, as `math` converts it to an integer.
pub open spec fn is_i16<M: SampleMath>(math: &M, f: Formula<M::Real, M::Iq>, v: i16) -> bool {
    exists|x: M::Real| #[trigger]
        call_ensures(M::to_i16, (math, x), v) && evaluates(math, f, x)
}

/// `v` is a result of `f`, as `math` converts it to an integer.
pub open spec fn is_i64<M: SampleMath>(math: &M, f: Formula<M::Real, M::Iq>, v: i64) -> bool {
    exists|x: M::Real| #[trigger]
        call_ensures(M::to_i64, (math, x), v) && evaluates(math, f, x)
}

/// `math` treats `x` and `negate(x)` alike but for the sign, as floating-point numbers are.
pub open spec fn is_sign_symmetric<M: SampleMath>(
    math: &M,
    negate: spec_fn(M::Real) -> M::Real,
) -> bool {
    &&& forall|x: M::Real, r: M::Real| #[trigger]
        call_ensures(M::absolute, (math, x), r) ==> call_ensures(
            M::absolute,
            (math, negate(x)),
            r,
        )
    &&& forall|x: M::Real, y: M::Real, r: M::Real| #[trigger]
        call_ensures(M::times, (math, x, y), r) ==> call_ensures(
            M::times,
            (math, negate(x), y),
            negate(r),
        )
    &&& forall|x: M::Real, y: M::Real, r: M::Real| #[trigger]
        call_ensures(M::over, (math, x, y), r) ==> call_ensures(
            M::over,
            (math, negate(x), y),
            negate(r),
        )
}

/// Every operation of `math` gives one result.
pub open spec fn is_determined<M: SampleMath>(math: &M) -> bool {
    &&& forall|n: u32, r: M::Real, s: M::Real| #[trigger]
        call_ensures(M::single, (math, n), r) && #[trigger] call_ensures(M::single, (math, n), s) ==> r == s
    &&& forall|n: u64, r: M::Real, s: M::Real| #[trigger]
        call_ensures(M::whole, (math, n), r) && #[trigger] call_ensures(M::whole, (math, n), s) ==> r == s
    &&& forall|x: M::Real, y: M::Real, r: M::Real, s: M::Real| #[trigger]
        call_ensures(M::plus, (math, x, y), r) && #[trigger] call_ensures(M::plus, (math, x, y), s) ==> r == s
    &&& forall|x: M::Real, y: M::Real, r: M::Real, s: M::Real| #[trigger]
        call_ensures(M::minus, (math, x, y), r) && #[trigger] call_ensures(M::minus, (math, x, y), s) ==> r == s
    &&& forall|x: M::Real, y: M::Real, r: M::Real, s: M::Real| #[trigger]
        call_ensures(M::times, (math, x, y), r) && #[trigger] call_ensures(M::times, (math, x, y), s) ==> r == s
    &&& forall|x: M::Real, y: M::Real, r: M::Real, s: M::Real| #[trigger]
        call_ensures(M::over, (math, x, y), r) && #[trigger] call_ensures(M::over, (math, x, y), s) ==> r == s
    &&& forall|x: M::Real, y: M::Real, r: M::Real, s: M::Real| #[trigger]
        call_ensures(M::remainder, (math, x, y), r) && #[trigger] call_ensures(M::remainder, (math, x, y), s) ==> r == s
    &&& forall|x: M::Real, y: M::Real, r: M::Real, s: M::Real| #[trigger]
        call_ensures(M::greater, (math, x, y), r) && #[trigger] call_ensures(M::greater, (math, x, y), s) ==> r == s
    &&& forall|x: M::Real, y: M::Real, r: M::Real, s: M::Real| #[trigger]
        call_ensures(M::lesser, (math, x, y), r) && #[trigger] call_ensures(M::lesser, (math, x, y), s) ==> r == s
    &&& forall|x: M::Real, y: M::Real, r: M::Real, s: M::Real| #[trigger]
        call_ensures(M::angle, (math, x, y), r) && #[trigger] call_ensures(M::angle, (math, x, y), s) ==> r == s
    &&& forall|x: M::Real, r: M::Real, s: M::Real| #[trigger]
        call_ensures(M::absolute, (math, x), r) && #[trigger] call_ensures(M::absolute, (math, x), s) ==> r == s
    &&& forall|x: M::Real, r: M::Real, s: M::Real| #[trigger]
        call_ensures(M::rounded, (math, x), r) && #[trigger] call_ensures(M::rounded, (math, x), s) ==> r == s
    &&& forall|x: M::Real, r: M::Real, s: M::Real| #[trigger]
        call_ensures(M::cosine, (math, x), r) && #[trigger] call_ensures(M::cosine, (math, x), s) ==> r == s
    &&& forall|x: M::Real, r: M::Real, s: M::Real| #[trigger]
        call_ensures(M::sine, (math, x), r) && #[trigger] call_ensures(M::sine, (math, x), s) ==> r == s
    &&& forall|x: M::Real, r: M::Real, s: M::Real| #[trigger]
        call_ensures(M::logarithm, (math, x), r) && #[trigger] call_ensures(M::logarithm, (math, x), s) ==> r == s
    &&& forall|x: M::Real, y: M::Real, z: M::Real, r: M::Real, s: M::Real| #[trigger]
        call_ensures(M::limited, (math, x, y, z), r) && #[trigger] call_ensures(M::limited, (math, x, y, z), s) ==> r == s
    &&& forall|x: M::Iq, r: M::Real, s: M::Real| #[trigger]
        call_ensures(M::real_part, (math, x), r) && #[trigger] call_ensures(M::real_part, (math, x), s) ==> r == s
    &&& forall|x: M::Iq, r: M::Real, s: M::Real| #[trigger]
        call_ensures(M::imaginary_part, (math, x), r) && #[trigger] call_ensures(M::imaginary_part, (math, x), s) ==> r == s
    &&& forall|x: M::Iq, r: M::Real, s: M::Real| #[trigger]
        call_ensures(M::norm, (math, x), r) && #[trigger] call_ensures(M::norm, (math, x), s) ==> r == s
    &&& forall|x: M::Iq, r: M::Real, s: M::Real| #[trigger]
        call_ensures(M::norm_sqr, (math, x), r) && #[trigger] call_ensures(M::norm_sqr, (math, x), s) ==> r == s
    &&& forall|x: M::Real, y: M::Real, r: M::Iq, s: M::Iq| #[trigger]
        call_ensures(M::iq, (math, x, y), r) && #[trigger] call_ensures(M::iq, (math, x, y), s) ==> r == s
    &&& forall|x: M::Iq, r: M::Iq, s: M::Iq| #[trigger]
        call_ensures(M::conjugate, (math, x), r) && #[trigger] call_ensures(M::conjugate, (math, x), s) ==> r == s
    &&& forall|x: M::Iq, y: M::Iq, r: M::Iq, s: M::Iq| #[trigger]
        call_ensures(M::iq_plus, (math, x, y), r) && #[trigger] call_ensures(M::iq_plus, (math, x, y), s) ==> r == s
    &&& forall|x: M::Iq, y: M::Iq, r: M::Iq, s: M::Iq| #[trigger]
        call_ensures(M::iq_times, (math, x, y), r) && #[trigger] call_ensures(M::iq_times, (math, x, y), s) ==> r == s
    &&& forall|x: M::Iq, y: M::Real, r: M::Iq, s: M::Iq| #[trigger]
        call_ensures(M::iq_scaled, (math, x, y), r) && #[trigger] call_ensures(M::iq_scaled, (math, x, y), s) ==> r == s
    &&& forall|x: M::Iq, y: M::Real, r: M::Iq, s: M::Iq| #[trigger]
        call_ensures(M::iq_over, (math, x, y), r) && #[trigger] call_ensures(M::iq_over, (math, x, y), s) ==> r == s
    &&& forall|n: u64, r: M::Real, s: M::Real| #[trigger]
        call_ensures(M::double, (math, n), r) && #[trigger] call_ensures(M::double, (math, n), s) ==> r == s
    &&& forall|x: M::Real, y: M::Real, r: bool, s: bool| #[trigger]
        call_ensures(M::below, (math, x, y), r) && #[trigger] call_ensures(M::below, (math, x, y), s) ==> r == s
    &&& forall|x: M::Real, y: M::Real, r: bool, s: bool| #[trigger]
        call_ensures(M::at_least, (math, x, y), r) && #[trigger] call_ensures(M::at_least, (math, x, y), s) ==> r == s
    &&& forall|x: M::Real, r: i16, s: i16| #[trigger]
        call_ensures(M::to_i16, (math, x), r) && #[trigger] call_ensures(M::to_i16, (math, x), s) ==> r == s
    &&& forall|x: M::Real, r: i64, s: i64| #[trigger]
        call_ensures(M::to_i64, (math, x), r) && #[trigger] call_ensures(M::to_i64, (math, x), s) ==> r == s
    &&& forall|x: [M::Iq; FFT_SIZE], r: [M::Iq; FFT_SIZE], s: [M::Iq; FFT_SIZE]| #[trigger]
        call_ensures(M::forward, (math, x), r) && #[trigger] call_ensures(M::forward, (math, x), s) ==> r == s
}

/// Where every operation gives one result, a formula has at most one: what is stated by a
/// formula is then stated exactly.
pub proof fn law_one_result<M: SampleMath>(
    math: &M,
    f: Formula<M::Real, M::Iq>,
    r: M::Real,
    s: M::Real,
)
    requires
        is_determined(math),
        evaluates(math, f, r),
        evaluates(math, f, s),
    ensures
        r == s,
    decreases f,
{
    match f {
        Formula::Known(_) => {},
        Formula::Single(_) => {},
        Formula::Whole(_) => {},
        Formula::Plus(a, b) => {
            let (x1, y1) = choose|x: M::Real, y: M::Real| #[trigger]
                call_ensures(M::plus, (math, x, y), r) && evaluates(math, *a, x) && evaluates(math, *b, y);
            let (x2, y2) = choose|x: M::Real, y: M::Real| #[trigger]
                call_ensures(M::plus, (math, x, y), s) && evaluates(math, *a, x) && evaluates(math, *b, y);
            law_one_result(math, *a, x1, x2);
            law_one_result(math, *b, y1, y2);
        },
        Formula::Minus(a, b) => {
            let (x1, y1) = choose|x: M::Real, y: M::Real| #[trigger]
                call_ensures(M::minus, (math, x, y), r) && evaluates(math, *a, x) && evaluates(math, *b, y);
            let (x2, y2) = choose|x: M::Real, y: M::Real| #[trigger]
                call_ensures(M::minus, (math, x, y), s) && evaluates(math, *a, x) && evaluates(math, *b, y);
            law_one_result(math, *a, x1, x2);
            law_one_result(math, *b, y1, y2);
        },
        Formula::Times(a, b) => {
            let (x1, y1) = choose|x: M::Real, y: M::Real| #[trigger]
                call_ensures(M::times, (math, x, y), r) && evaluates(math, *a, x) && evaluates(math, *b, y);
            let (x2, y2) = choose|x: M::Real, y: M::Real| #[trigger]
                call_ensures(M::times, (math, x, y), s) && evaluates(math, *a, x) && evaluates(math, *b, y);
            law_one_result(math, *a, x1, x2);
            law_one_result(math, *b, y1, y2);
        },
        Formula::Over(a, b) => {
            let (x1, y1) = choose|x: M::Real, y: M::Real| #[trigger]
                call_ensures(M::over, (math, x, y), r) && evaluates(math, *a, x) && evaluates(math, *b, y);
            let (x2, y2) = choose|x: M::Real, y: M::Real| #[trigger]
                call_ensures(M::over, (math, x, y), s) && evaluates(math, *a, x) && evaluates(math, *b, y);
            law_one_result(math, *a, x1, x2);
            law_one_result(math, *b, y1, y2);
        },
        Formula::Remainder(a, b) => {
            let (x1, y1) = choose|x: M::Real, y: M::Real| #[trigger]
                call_ensures(M::remainder, (math, x, y), r) && evaluates(math, *a, x) && evaluates(math, *b, y);
            let (x2, y2) = choose|x: M::Real, y: M::Real| #[trigger]
                call_ensures(M::remainder, (math, x, y), s) && evaluates(math, *a, x) && evaluates(math, *b, y);
            law_one_result(math, *a, x1, x2);
            law_one_result(math, *b, y1, y2);
        },
        Formula::Greater(a, b) => {
            let (x1, y1) = choose|x: M::Real, y: M::Real| #[trigger]
                call_ensures(M::greater, (math, x, y), r) && evaluates(math, *a, x) && evaluates(math, *b, y);
            let (x2, y2) = choose|x: M::Real, y: M::Real| #[trigger]
                call_ensures(M::greater, (math, x, y), s) && evaluates(math, *a, x) && evaluates(math, *b, y);
            law_one_result(math, *a, x1, x2);
            law_one_result(math, *b, y1, y2);
        },
        Formula::Lesser(a, b) => {
            let (x1, y1) = choose|x: M::Real, y: M::Real| #[trigger]
                call_ensures(M::lesser, (math, x, y), r) && evaluates(math, *a, x) && evaluates(math, *b, y);
            let (x2, y2) = choose|x: M::Real, y: M::Real| #[trigger]
                call_ensures(M::lesser, (math, x, y), s) && evaluates(math, *a, x) && evaluates(math, *b, y);
            law_one_result(math, *a, x1, x2);
            law_one_result(math, *b, y1, y2);
        },
        Formula::Angle(a, b) => {
            let (x1, y1) = choose|x: M::Real, y: M::Real| #[trigger]
                call_ensures(M::angle, (math, x, y), r) && evaluates(math, *a, x) && evaluates(math, *b, y);
            let (x2, y2) = choose|x: M::Real, y: M::Real| #[trigger]
                call_ensures(M::angle, (math, x, y), s) && evaluates(math, *a, x) && evaluates(math, *b, y);
            law_one_result(math, *a, x1, x2);
            law_one_result(math, *b, y1, y2);
        },
        Formula::Absolute(a) => {
            let x1 = choose|x: M::Real| #[trigger]
                call_ensures(M::absolute, (math, x), r) && evaluates(math, *a, x);
            let x2 = choose|x: M::Real| #[trigger]
                call_ensures(M::absolute, (math, x), s) && evaluates(math, *a, x);
            law_one_result(math, *a, x1, x2);
        },
        Formula::Rounded(a) => {
            let x1 = choose|x: M::Real| #[trigger]
                call_ensures(M::rounded, (math, x), r) && evaluates(math, *a, x);
            let x2 = choose|x: M::Real| #[trigger]
                call_ensures(M::rounded, (math, x), s) && evaluates(math, *a, x);
            law_one_result(math, *a, x1, x2);
        },
        Formula::Cosine(a) => {
            let x1 = choose|x: M::Real| #[trigger]
                call_ensures(M::cosine, (math, x), r) && evaluates(math, *a, x);
            let x2 = choose|x: M::Real| #[trigger]
                call_ensures(M::cosine, (math, x), s) && evaluates(math, *a, x);
            law_one_result(math, *a, x1, x2);
        },
        Formula::Sine(a) => {
            let x1 = choose|x: M::Real| #[trigger]
                call_ensures(M::sine, (math, x), r) && evaluates(math, *a, x);
            let x2 = choose|x: M::Real| #[trigger]
                call_ensures(M::sine, (math, x), s) && evaluates(math, *a, x);
            law_one_result(math, *a, x1, x2);
        },
        Formula::Logarithm(a) => {
            let x1 = choose|x: M::Real| #[trigger]
                call_ensures(M::logarithm, (math, x), r) && evaluates(math, *a, x);
            let x2 = choose|x: M::Real| #[trigger]
                call_ensures(M::logarithm, (math, x), s) && evaluates(math, *a, x);
            law_one_result(math, *a, x1, x2);
        },
        Formula::Limited(a, low, high) => {
            let (x1, y1, z1) = choose|x: M::Real, y: M::Real, z: M::Real| #[trigger]
                call_ensures(M::limited, (math, x, y, z), r) && evaluates(math, *a, x) && evaluates(math, *low, y) && evaluates(math, *high, z);
            let (x2, y2, z2) = choose|x: M::Real, y: M::Real, z: M::Real| #[trigger]
                call_ensures(M::limited, (math, x, y, z), s) && evaluates(math, *a, x) && evaluates(math, *low, y) && evaluates(math, *high, z);
            law_one_result(math, *a, x1, x2);
            law_one_result(math, *low, y1, y2);
            law_one_result(math, *high, z1, z2);
        },
        Formula::RealPart(a) => {
            let x1 = choose|x: M::Iq| #[trigger]
                call_ensures(M::real_part, (math, x), r) && iq_evaluates(math, *a, x);
            let x2 = choose|x: M::Iq| #[trigger]
                call_ensures(M::real_part, (math, x), s) && iq_evaluates(math, *a, x);
            law_one_iq_result(math, *a, x1, x2);
        },
        Formula::ImaginaryPart(a) => {
            let x1 = choose|x: M::Iq| #[trigger]
                call_ensures(M::imaginary_part, (math, x), r) && iq_evaluates(math, *a, x);
            let x2 = choose|x: M::Iq| #[trigger]
                call_ensures(M::imaginary_part, (math, x), s) && iq_evaluates(math, *a, x);
            law_one_iq_result(math, *a, x1, x2);
        },
        Formula::Norm(a) => {
            let x1 = choose|x: M::Iq| #[trigger]
                call_ensures(M::norm, (math, x), r) && iq_evaluates(math, *a, x);
            let x2 = choose|x: M::Iq| #[trigger]
                call_ensures(M::norm, (math, x), s) && iq_evaluates(math, *a, x);
            law_one_iq_result(math, *a, x1, x2);
        },
        Formula::NormSqr(a) => {
            let x1 = choose|x: M::Iq| #[trigger]
                call_ensures(M::norm_sqr, (math, x), r) && iq_evaluates(math, *a, x);
            let x2 = choose|x: M::Iq| #[trigger]
                call_ensures(M::norm_sqr, (math, x), s) && iq_evaluates(math, *a, x);
            law_one_iq_result(math, *a, x1, x2);
        },
    }
}

/// The same for a formula for a complex number.
pub proof fn law_one_iq_result<M: SampleMath>(
    math: &M,
    f: IqFormula<M::Real, M::Iq>,
    r: M::Iq,
    s: M::Iq,
)
    requires
        is_determined(math),
        iq_evaluates(math, f, r),
        iq_evaluates(math, f, s),
    ensures
        r == s,
    decreases f,
{
    match f {
        IqFormula::Known(_) => {},
        IqFormula::Iq(a, b) => {
            let (x1, y1) = choose|x: M::Real, y: M::Real| #[trigger]
                call_ensures(M::iq, (math, x, y), r) && evaluates(math, *a, x) && evaluates(math, *b, y);
            let (x2, y2) = choose|x: M::Real, y: M::Real| #[trigger]
                call_ensures(M::iq, (math, x, y), s) && evaluates(math, *a, x) && evaluates(math, *b, y);
            law_one_result(math, *a, x1, x2);
            law_one_result(math, *b, y1, y2);
        },
        IqFormula::Conjugate(a) => {
            let x1 = choose|x: M::Iq| #[trigger]
                call_ensures(M::conjugate, (math, x), r) && iq_evaluates(math, *a, x);
            let x2 = choose|x: M::Iq| #[trigger]
                call_ensures(M::conjugate, (math, x), s) && iq_evaluates(math, *a, x);
            law_one_iq_result(math, *a, x1, x2);
        },
        IqFormula::Plus(a, b) => {
            let (x1, y1) = choose|x: M::Iq, y: M::Iq| #[trigger]
                call_ensures(M::iq_plus, (math, x, y), r) && iq_evaluates(math, *a, x) && iq_evaluates(math, *b, y);
            let (x2, y2) = choose|x: M::Iq, y: M::Iq| #[trigger]
                call_ensures(M::iq_plus, (math, x, y), s) && iq_evaluates(math, *a, x) && iq_evaluates(math, *b, y);
            law_one_iq_result(math, *a, x1, x2);
            law_one_iq_result(math, *b, y1, y2);
        },
        IqFormula::Times(a, b) => {
            let (x1, y1) = choose|x: M::Iq, y: M::Iq| #[trigger]
                call_ensures(M::iq_times, (math, x, y), r) && iq_evaluates(math, *a, x) && iq_evaluates(math, *b, y);
            let (x2, y2) = choose|x: M::Iq, y: M::Iq| #[trigger]
                call_ensures(M::iq_times, (math, x, y), s) && iq_evaluates(math, *a, x) && iq_evaluates(math, *b, y);
            law_one_iq_result(math, *a, x1, x2);
            law_one_iq_result(math, *b, y1, y2);
        },
        IqFormula::Scaled(a, b) => {
            let (x1, y1) = choose|x: M::Iq, y: M::Real| #[trigger]
                call_ensures(M::iq_scaled, (math, x, y), r) && iq_evaluates(math, *a, x) && evaluates(math, *b, y);
            let (x2, y2) = choose|x: M::Iq, y: M::Real| #[trigger]
                call_ensures(M::iq_scaled, (math, x, y), s) && iq_evaluates(math, *a, x) && evaluates(math, *b, y);
            law_one_iq_result(math, *a, x1, x2);
            law_one_result(math, *b, y1, y2);
        },
        IqFormula::Over(a, b) => {
            let (x1, y1) = choose|x: M::Iq, y: M::Real| #[trigger]
                call_ensures(M::iq_over, (math, x, y), r) && iq_evaluates(math, *a, x) && evaluates(math, *b, y);
            let (x2, y2) = choose|x: M::Iq, y: M::Real| #[trigger]
                call_ensures(M::iq_over, (math, x, y), s) && iq_evaluates(math, *a, x) && evaluates(math, *b, y);
            law_one_iq_result(math, *a, x1, x2);
            law_one_result(math, *b, y1, y2);
        },
    }
}

/// The 16-bit value of a formula is one.
pub proof fn lemma_one_i16<M: SampleMath>(math: &M, f: Formula<M::Real, M::Iq>, v: i16, w: i16)
    requires
        is_determined(math),
        is_i16(math, f, v),
        is_i16(math, f, w),
    ensures
        v == w,
{
    let x = choose|x: M::Real| #[trigger]
        call_ensures(M::to_i16, (math, x), v) && evaluates(math, f, x);
    let y = choose|x: M::Real| #[trigger]
        call_ensures(M::to_i16, (math, x), w) && evaluates(math, f, x);
    law_one_result(math, f, x, y);
}

} // verus!
