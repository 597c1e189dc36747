//! Raw samples as the radio delivers them: two bytes each, one for either channel.

use crate::formula::{evaluates, Formula};
use crate::math::SampleMath;
use vstd::prelude::*;

verus! {

/// The bit pattern of 127.5, the middle of the range of a byte.
pub const MIDDLE: u32 = 0x42FF_0000;

/// The bit pattern of 32768, the scale of raw samples.
pub const RAW_SCALE: u32 = 0x4700_0000;

/// The level that the raw byte `byte` stands for.
pub open spec fn raw_level<R, C>(byte: u8) -> Formula<R, C> {
    Formula::Whole(byte as u64).minus(Formula::Single(MIDDLE)).over(Formula::Single(RAW_SCALE))
}

/// The level that the raw byte `byte` stands for.
pub fn level<M: SampleMath>(math: &M, byte: u8) -> (r: M::Real)
    ensures
        evaluates(math, raw_level(byte), r),
{
    let r = math.over(math.minus(math.whole(byte as u64), math.single(MIDDLE)), math.single(RAW_SCALE));
    proof {
        reveal_with_fuel(evaluates, 4);
    }
    r
}

} // verus!
