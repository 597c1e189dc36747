//! Measures: what the numbers that the arithmetic works on stand for. Under one, laws can be
//! stated of arithmetic that does not round, or that rounds by little.

use crate::formula::{ONE, PI, ZERO};
use crate::frame::{HIGHEST_I16, LOWEST_I16};
use crate::math::SampleMath;
use crate::reals::square;
use vstd::prelude::*;

verus! {

/// The real numbers that the numbers of some arithmetic stand for.
#[verifier::reject_recursive_types(R)]
#[verifier::reject_recursive_types(C)]
pub struct Measure<R, C> {
    /// What a number stands for.
    pub value: spec_fn(R) -> real,
    /// What the real part of a sample stands for.
    pub re: spec_fn(C) -> real,
    /// What the imaginary part of a sample stands for.
    pub im: spec_fn(C) -> real,
    /// What the constant with a single-precision bit pattern stands for.
    pub constant: spec_fn(u32) -> real,
}

/// The operations of `math` on numbers do not round.
pub open spec fn is_exact<M: SampleMath>(math: &M, m: Measure<M::Real, M::Iq>) -> bool {
    &&& (m.constant)(ZERO) == 0real
    &&& (m.constant)(ONE) == 1real
    &&& forall|bits: u32, r: M::Real| #[trigger]
        call_ensures(M::single, (math, bits), r) ==> (m.value)(r) == (m.constant)(bits)
    &&& forall|n: u64, r: M::Real| #[trigger]
        call_ensures(M::whole, (math, n), r) ==> (m.value)(r) == n as real
    &&& forall|x: M::Real, y: M::Real, r: M::Real| #[trigger]
        call_ensures(M::plus, (math, x, y), r) ==> (m.value)(r) == (m.value)(x) + (m.value)(y)
    &&& forall|x: M::Real, y: M::Real, r: M::Real| #[trigger]
        call_ensures(M::minus, (math, x, y), r) ==> (m.value)(r) == (m.value)(x) - (m.value)(y)
    &&& forall|x: M::Real, y: M::Real, r: M::Real| #[trigger]
        call_ensures(M::times, (math, x, y), r) ==> (m.value)(r) == (m.value)(x) * (m.value)(y)
    &&& forall|x: M::Real, y: M::Real, r: M::Real| #[trigger]
        call_ensures(M::over, (math, x, y), r) && (m.value)(y) != 0real ==> (m.value)(r)
            == (m.value)(x) / (m.value)(y)
    &&& forall|x: M::Real, c: M::Real, s: M::Real| #[trigger]
        call_ensures(M::cosine, (math, x), c) && #[trigger] call_ensures(M::sine, (math, x), s)
            ==> (m.value)(c) * (m.value)(c) + (m.value)(s) * (m.value)(s) == 1real
}

/// The operations of `math` on samples do not round.
pub open spec fn is_iq_exact<M: SampleMath>(math: &M, m: Measure<M::Real, M::Iq>) -> bool {
    &&& forall|x: M::Real, y: M::Real, z: M::Iq| #[trigger]
        call_ensures(M::iq, (math, x, y), z) ==> (m.re)(z) == (m.value)(x) && (m.im)(z)
            == (m.value)(y)
    &&& forall|z: M::Iq, r: M::Real| #[trigger]
        call_ensures(M::real_part, (math, z), r) ==> (m.value)(r) == (m.re)(z)
    &&& forall|z: M::Iq, r: M::Real| #[trigger]
        call_ensures(M::imaginary_part, (math, z), r) ==> (m.value)(r) == (m.im)(z)
    &&& forall|z: M::Iq, r: M::Iq| #[trigger]
        call_ensures(M::conjugate, (math, z), r) ==> (m.re)(r) == (m.re)(z) && (m.im)(r)
            == -(m.im)(z)
    &&& forall|z: M::Iq, w: M::Iq, r: M::Iq| #[trigger]
        call_ensures(M::iq_plus, (math, z, w), r) ==> (m.re)(r) == (m.re)(z) + (m.re)(w)
            && (m.im)(r) == (m.im)(z) + (m.im)(w)
    &&& forall|z: M::Iq, w: M::Iq, r: M::Iq| #[trigger]
        call_ensures(M::iq_times, (math, z, w), r) ==> (m.re)(r) == (m.re)(z) * (m.re)(w)
            - (m.im)(z) * (m.im)(w) && (m.im)(r) == (m.re)(z) * (m.im)(w) + (m.im)(z) * (m.re)(w)
    &&& forall|z: M::Iq, x: M::Real, r: M::Iq| #[trigger]
        call_ensures(M::iq_over, (math, z, x), r) && (m.value)(x) != 0real ==> (m.re)(r) == (m.re)(
            z,
        ) / (m.value)(x) && (m.im)(r) == (m.im)(z) / (m.value)(x)
}

/// Angles lie between -pi and pi, with pi as the constant of that name.
pub open spec fn angles_are_bounded<M: SampleMath>(math: &M, m: Measure<M::Real, M::Iq>) -> bool {
    forall|y: M::Real, x: M::Real, r: M::Real| #[trigger]
        call_ensures(M::angle, (math, y, x), r) ==> within((m.value)(r), (m.constant)(PI))
}

/// `b` is `factor` times `a`.
pub open spec fn is_scaled(factor: real, a: real, b: real) -> bool {
    b == factor * a
}

/// The angle of a point does not depend on how far off the point is.
pub open spec fn angles_ignore_distance<M: SampleMath>(
    math: &M,
    m: Measure<M::Real, M::Iq>,
) -> bool {
    forall|
        y: M::Real,
        x: M::Real,
        r: M::Real,
        y2: M::Real,
        x2: M::Real,
        r2: M::Real,
        factor: real,
    |
        #![trigger call_ensures(M::angle, (math, y, x), r), call_ensures(M::angle, (math, y2, x2), r2), is_scaled(factor, (m.value)(y), (m.value)(y2))]
        call_ensures(M::angle, (math, y, x), r) && call_ensures(M::angle, (math, y2, x2), r2)
            && factor > 0real && is_scaled(factor, (m.value)(y), (m.value)(y2)) && is_scaled(
            factor,
            (m.value)(x),
            (m.value)(x2),
        ) ==> (m.value)(r) == (m.value)(r2)
}

/// The square of the absolute value of a sample.
pub open spec fn power_of<R, C>(m: Measure<R, C>, z: C) -> real {
    square((m.re)(z)) + square((m.im)(z))
}

/// `values`, each negated.
pub open spec fn negated<R>(values: Seq<R>, negate: spec_fn(R) -> R) -> Seq<R> {
    Seq::new(values.len(), |i: int| negate(values[i]))
}

/// `x` lies between -`bound` and `bound`.
pub open spec fn within(x: real, bound: real) -> bool {
    -bound <= x <= bound
}

/// `v` is `x`, rounded toward zero.
pub open spec fn is_truncated(x: real, v: real) -> bool {
    if x >= 0real {
        0real <= v && v <= x < v + 1real
    } else {
        v <= 0real && v - 1real < x <= v
    }
}

/// On the scale of 16-bit PCM `math` rounds by little: a sample within full scale is scaled to
/// within a hundredth of a step, and not beyond full scale; what is within limits is left as it
/// is; and a number of that scale is made an integer by rounding it toward zero.
pub open spec fn packs_closely<M: SampleMath>(math: &M, m: Measure<M::Real, M::Iq>) -> bool {
    &&& (m.constant)(HIGHEST_I16) == 32767real
    &&& (m.constant)(LOWEST_I16) == -32768real
    &&& forall|bits: u32, r: M::Real| #[trigger]
        call_ensures(M::single, (math, bits), r) ==> (m.value)(r) == (m.constant)(bits)
    &&& forall|x: M::Real, y: M::Real, r: M::Real| #[trigger]
        call_ensures(M::times, (math, x, y), r) && within((m.value)(x), 1real) && (m.value)(y)
            == 32767real ==> within((m.value)(r), 32767real) && within(
            100real * ((m.value)(r) - 32767real * (m.value)(x)),
            1real,
        )
    &&& forall|x: M::Real, low: M::Real, high: M::Real, r: M::Real| #[trigger]
        call_ensures(M::limited, (math, x, low, high), r) && (m.value)(low) <= (m.value)(x)
            <= (m.value)(high) ==> r == x
    &&& forall|x: M::Real, v: i16| #[trigger]
        call_ensures(M::to_i16, (math, x), v) && within((m.value)(x), 32767real) ==> is_truncated(
            (m.value)(x),
            v as real,
        )
}

/// On the scale of 16-bit PCM `math` treats `x` and `negate(x)` alike but for the sign.
pub open spec fn packs_symmetrically<M: SampleMath>(
    math: &M,
    m: Measure<M::Real, M::Iq>,
    negate: spec_fn(M::Real) -> M::Real,
) -> bool {
    &&& forall|x: M::Real| (m.value)(#[trigger] negate(x)) == -(m.value)(x)
    &&& forall|x: M::Real, low: M::Real, high: M::Real| #[trigger]
        call_ensures(M::limited, (math, x, low, high), x) && (m.value)(low) <= -(m.value)(x)
            <= (m.value)(high) ==> call_ensures(
            M::limited,
            (math, negate(x), low, high),
            negate(x),
        )
    &&& forall|x: M::Real, v: i16| #[trigger]
        call_ensures(M::to_i16, (math, x), v) && within((m.value)(x), 32767real) ==> v
            > i16::MIN && call_ensures(M::to_i16, (math, negate(x)), (-v) as i16)
}

/// What comes of no number is no number, and as an integer it is 0.
pub open spec fn no_number_stays<M: SampleMath>(
    math: &M,
    no_number: spec_fn(M::Real) -> bool,
) -> bool {
    &&& forall|x: M::Real, y: M::Real, r: M::Real| #[trigger]
        call_ensures(M::times, (math, x, y), r) && no_number(x) ==> no_number(r)
    &&& forall|x: M::Real, low: M::Real, high: M::Real, r: M::Real| #[trigger]
        call_ensures(M::limited, (math, x, low, high), r) && no_number(x) ==> no_number(r)
    &&& forall|x: M::Real, v: i16| #[trigger]
        call_ensures(M::to_i16, (math, x), v) && no_number(x) ==> v == 0
}

/// The greater of `x` and `y`.
pub open spec fn larger(x: real, y: real) -> real {
    if x >= y {
        x
    } else {
        y
    }
}

/// The lesser of `x` and `y`.
pub open spec fn smaller(x: real, y: real) -> real {
    if x <= y {
        x
    } else {
        y
    }
}

/// The absolute value of `x`.
pub open spec fn size(x: real) -> real {
    if x >= 0real {
        x
    } else {
        -x
    }
}

/// `math` compares numbers by what they stand for.
pub open spec fn is_ordered<M: SampleMath>(math: &M, m: Measure<M::Real, M::Iq>) -> bool {
    &&& forall|x: M::Real, y: M::Real, r: M::Real| #[trigger]
        call_ensures(M::greater, (math, x, y), r) ==> (m.value)(r) == larger(
            (m.value)(x),
            (m.value)(y),
        )
    &&& forall|x: M::Real, y: M::Real, r: M::Real| #[trigger]
        call_ensures(M::lesser, (math, x, y), r) ==> (m.value)(r) == smaller(
            (m.value)(x),
            (m.value)(y),
        )
    &&& forall|x: M::Real, y: M::Real, b: bool| #[trigger]
        call_ensures(M::below, (math, x, y), b) ==> b == ((m.value)(x) < (m.value)(y))
    &&& forall|x: M::Real, y: M::Real, b: bool| #[trigger]
        call_ensures(M::at_least, (math, x, y), b) ==> b == ((m.value)(x) >= (m.value)(y))
    &&& forall|x: M::Real, r: M::Real| #[trigger]
        call_ensures(M::absolute, (math, x), r) ==> (m.value)(r) == size((m.value)(x))
}

/// `v` is `x`, rounded toward zero and limited to the range of `i64`.
pub open spec fn is_whole_part(x: real, v: i64) -> bool {
    if x > i64::MAX as real {
        v == i64::MAX
    } else if x < i64::MIN as real {
        v == i64::MIN
    } else {
        is_truncated(x, v as real)
    }
}

/// `math` makes a number an integer by rounding it toward zero.
pub open spec fn takes_whole_part<M: SampleMath>(math: &M, m: Measure<M::Real, M::Iq>) -> bool {
    forall|x: M::Real, v: i64| #[trigger]
        call_ensures(M::to_i64, (math, x), v) ==> is_whole_part((m.value)(x), v)
}

/// `y` is `x` and some whole turns of `turn`.
pub open spec fn turned_by(x: real, y: real, turn: real, turns: int) -> bool {
    y == x + turns as real * turn
}

/// The remainder of a division by a positive number lies below that number and differs from the
/// dividend by a whole multiple of it.
pub open spec fn leaves_remainders<M: SampleMath>(math: &M, m: Measure<M::Real, M::Iq>) -> bool {
    forall|x: M::Real, y: M::Real, r: M::Real| #[trigger]
        call_ensures(M::remainder, (math, x, y), r) && (m.value)(y) > 0real ==> {
            &&& 0real <= (m.value)(r) < (m.value)(y)
            &&& exists|turns: int| #[trigger]
                turned_by((m.value)(x), (m.value)(r), (m.value)(y), turns)
        }
}

} // verus!
