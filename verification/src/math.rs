//! The arithmetic that the signal path is computed in.
//!
//! The signal path is written over two kinds of value, real numbers and complex samples, and
//! over the operations below. Its formulas, its constants and its decisions stand in the
//! library; how a single operation computes, in which precision, is up to the type that
//! implements it. An operation may give any result: nothing is taken for granted of one, and
//! what the library states of a signal is of which operations' results it is made.
//! `call_ensures(M::plus, (math, a, b), r)` reads "`r` is a result of `a + b`".

use vstd::prelude::*;

verus! {

/// Number of points of the spectrum transform.
pub const FFT_SIZE: usize = 2048;

/// Number of transforms averaged for one spectrum. With it a buffer divides evenly by the
/// decimation factors at 2 MSPS: 20480 / 5 / 8 = 512 and 20480 / 8 / 5 = 512.
pub const FFT_AVERAGES: usize = 10;

/// Number of bins of the spectrum that is sent.
pub const OUTPUT_BINS: usize = 1024;

/// The operations of the signal path.
pub trait SampleMath: Sized {
    /// A real number.
    type Real: Copy;

    /// A complex sample.
    type Iq: Copy;

    /// The real number with the single-precision bit pattern `bits`.
    fn single(&self, bits: u32) -> Self::Real;

    /// The real number with the double-precision bit pattern `bits`.
    fn double(&self, bits: u64) -> Self::Real;

    /// The whole number `n`.
    fn whole(&self, n: u64) -> Self::Real;

    /// `a + b`.
    fn plus(&self, a: Self::Real, b: Self::Real) -> Self::Real;

    /// `a - b`.
    fn minus(&self, a: Self::Real, b: Self::Real) -> Self::Real;

    /// `a * b`.
    fn times(&self, a: Self::Real, b: Self::Real) -> Self::Real;

    /// `a / b`.
    fn over(&self, a: Self::Real, b: Self::Real) -> Self::Real;

    /// The remainder of `a` divided by `b`, not negative.
    fn remainder(&self, a: Self::Real, b: Self::Real) -> Self::Real;

    /// The greater of `a` and `b`.
    fn greater(&self, a: Self::Real, b: Self::Real) -> Self::Real;

    /// The lesser of `a` and `b`.
    fn lesser(&self, a: Self::Real, b: Self::Real) -> Self::Real;

    /// The angle of the point with the coordinates `x` and `y`.
    fn angle(&self, y: Self::Real, x: Self::Real) -> Self::Real;

    /// The absolute value of `a`.
    fn absolute(&self, a: Self::Real) -> Self::Real;

    /// The whole number nearest to `a`.
    fn rounded(&self, a: Self::Real) -> Self::Real;

    /// The cosine of `a`.
    fn cosine(&self, a: Self::Real) -> Self::Real;

    /// The sine of `a`.
    fn sine(&self, a: Self::Real) -> Self::Real;

    /// The decimal logarithm of `a`.
    fn logarithm(&self, a: Self::Real) -> Self::Real;

    /// `a`, limited to the range from `low` to `high`.
    fn limited(&self, a: Self::Real, low: Self::Real, high: Self::Real) -> Self::Real;

    /// Whether `a < b`.
    fn below(&self, a: Self::Real, b: Self::Real) -> bool;

    /// Whether `a >= b`.
    fn at_least(&self, a: Self::Real, b: Self::Real) -> bool;

    /// `a` rounded toward zero and limited to the range of the type; 0 when it is no number.
    fn to_i16(&self, a: Self::Real) -> i16;

    /// `a` rounded toward zero and limited to the range of the type; 0 when it is no number.
    fn to_i64(&self, a: Self::Real) -> i64;

    /// The complex number with the given parts.
    fn iq(&self, re: Self::Real, im: Self::Real) -> Self::Iq;

    /// The real part of `z`.
    fn real_part(&self, z: Self::Iq) -> Self::Real;

    /// The imaginary part of `z`.
    fn imaginary_part(&self, z: Self::Iq) -> Self::Real;

    /// The absolute value of `z`.
    fn norm(&self, z: Self::Iq) -> Self::Real;

    /// The square of the absolute value of `z`.
    fn norm_sqr(&self, z: Self::Iq) -> Self::Real;

    /// The conjugate of `z`.
    fn conjugate(&self, z: Self::Iq) -> Self::Iq;

    /// `z + w`.
    fn iq_plus(&self, z: Self::Iq, w: Self::Iq) -> Self::Iq;

    /// `z * w`.
    fn iq_times(&self, z: Self::Iq, w: Self::Iq) -> Self::Iq;

    /// `z * a`.
    fn iq_scaled(&self, z: Self::Iq, a: Self::Real) -> Self::Iq;

    /// `z / a`.
    fn iq_over(&self, z: Self::Iq, a: Self::Real) -> Self::Iq;

    /// The forward Fourier transform of `frame`.
    fn forward(&self, frame: [Self::Iq; FFT_SIZE]) -> [Self::Iq; FFT_SIZE];
}

} // verus!
