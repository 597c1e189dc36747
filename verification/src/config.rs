//! What the user has chosen to listen to.
//!
//! The offset and the threshold are double-precision values, carried as their IEEE 754 bit
//! patterns.

use vstd::prelude::*;

verus! {

/// The bit pattern of 0.
pub const ZERO: u64 = 0;

/// The bit pattern of -70.
pub const MINUS_70: u64 = 0xC051_8000_0000_0000;

/// The bit pattern of -100: the squelch threshold at which the squelch is always open.
pub const MINUS_100: u64 = 0xC059_0000_0000_0000;

/// A demodulator.
#[derive(Debug, Clone, Copy, PartialEq, Eq, Structural)]
pub enum DemodMode {
    NBFM,
    WBFM,
    AM,
}

/// The demodulator chosen, its place in the band and its squelch.
#[derive(Debug, Clone, Copy)]
pub struct DemodConfig {
    /// `None` when no audio is wanted.
    pub mode: Option<DemodMode>,
    /// Offset from the centre frequency in Hz, bit pattern of a double.
    pub offset_hz: u64,
    /// Power threshold in dBFS, bit pattern of a double; -100 means that the squelch is
    /// always open.
    pub squelch_db: u64,
}

/// The choice before the user has made one.
pub open spec fn default_config() -> DemodConfig {
    DemodConfig { mode: None, offset_hz: ZERO, squelch_db: MINUS_70 }
}

impl Default for DemodConfig {
    fn default() -> (r: Self)
        ensures
            r == default_config(),
    {
        DemodConfig { mode: None, offset_hz: ZERO, squelch_db: MINUS_70 }
    }
}

/// Whether two choices of a demodulator are the same.
pub fn same_mode(a: Option<DemodMode>, b: Option<DemodMode>) -> (r: bool)
    ensures
        r == (a == b),
{
    match (a, b) {
        (None, None) => true,
        (Some(x), Some(y)) => x == y,
        _ => false,
    }
}

/// Before the user has made a choice nothing is demodulated, the offset is 0 and the threshold
/// -70.
pub proof fn law_default_config()
    ensures
        default_config().mode is None,
        default_config().offset_hz == 0,
        default_config().squelch_db == 0xC051_8000_0000_0000,
{
}

} // verus!
