//! Fixed-point signal values and the per-format sample codec.
//!
//! A signal value is an `i32` holding the real value scaled by `FRAC_ONE`
//! (`2^20`), so `1.0` is `FRAC_ONE` and `-1.0` is `-FRAC_ONE`.  Stored sample
//! formats are converted to and from this representation by [`Sample`].

use vstd::prelude::*;
use crate::arith::{spec_round_div, spec_sat32, round_div128, sat32, lemma_round_div_bound,
    lemma_abs_mul_le};

verus! {

/// The fixed-point representation of the value `1.0` (`2^20`).
pub const FRAC_ONE: i32 = 1048576;

/// The fixed-point representation of the value `0.5` (`2^19`).
pub const FRAC_HALF: i32 = 524288;

/// Full scale of a 16-bit sample: stored value 32767 means `1.0`.
pub const I16_SCALE: i32 = 32767;

/// Stored value of the signal center in the offset-encoded 16-bit format.
pub const U16_OFFSET: i32 = 32768;

/// A convolution accumulator scaled back down to a signal value:
/// `acc / FRAC_ONE` rounded to nearest, clamped into the `i32` range.
pub open spec fn spec_requant(acc: int) -> i32 {
    spec_sat32(spec_round_div(acc, FRAC_ONE as int))
}

/// Scale a raw convolution accumulator down by `FRAC_ONE`, rounding to
/// nearest and saturating into the signal range.
pub fn requant(acc: i128) -> (r: i32)
    requires
        -0x1000_0000_0000_0000_0000_0000_0000_0000 <= acc
            <= 0x1000_0000_0000_0000_0000_0000_0000_0000,
    ensures
        r == spec_requant(acc as int),
{
    let q = round_div128(acc, FRAC_ONE as i128);
    sat32(q)
}

/// Clamp a mathematical integer into the `i16` range.
pub open spec fn spec_sat_i16(x: int) -> i16 {
    if x > i16::MAX {
        i16::MAX
    } else if x < i16::MIN {
        i16::MIN
    } else {
        x as i16
    }
}

/// Clamp a mathematical integer into the `u16` range.
pub open spec fn spec_sat_u16(x: int) -> u16 {
    if x > u16::MAX {
        u16::MAX
    } else if x < 0 {
        0u16
    } else {
        x as u16
    }
}

/// A stored sample representation that can be mapped to and from the
/// fixed-point signal domain.  The conversions are pure; `offset` is the
/// stored value of the signal center, used to synthesize silence.
pub trait Sample: Sized {
    /// The value of this sample in the fixed-point signal domain.
    spec fn spec_normailze(self) -> i32;

    /// The stored sample that a fixed-point signal value maps back to.
    spec fn spec_full(v: i32) -> Self;

    /// The stored value of the signal center.
    spec fn spec_offset() -> Self;

    /// Scale the sample into the fixed-point signal range.
    fn normailze(self) -> (r: i32)
        ensures
            r == self.spec_normailze(),
    ;

    /// Scale a fixed-point signal value to the full range of the type,
    /// rounding to nearest and saturating at the type's bounds.
    fn full(v: i32) -> (r: Self)
        ensures
            r == Self::spec_full(v),
    ;

    /// The sample value that corresponds to the signal center.
    fn offset() -> (r: Self)
        ensures
            r == Self::spec_offset(),
    ;
}

impl Sample for i16 {
    open spec fn spec_normailze(self) -> i32 {
        spec_sat32(spec_round_div(self * FRAC_ONE, I16_SCALE as int))
    }

    open spec fn spec_full(v: i32) -> i16 {
        spec_sat_i16(spec_round_div(v * I16_SCALE, FRAC_ONE as int))
    }

    open spec fn spec_offset() -> i16 {
        0i16
    }

    fn normailze(self) -> (r: i32)
        ensures
            r == self.spec_normailze(),
    {
        proof {
            lemma_abs_mul_le(self as int, FRAC_ONE as int, 0x8000, FRAC_ONE as int);
        }
        let q = round_div128(self as i128 * FRAC_ONE as i128, I16_SCALE as i128);
        sat32(q)
    }

    fn full(v: i32) -> (r: i16)
        ensures
            r == Self::spec_full(v),
    {
        proof {
            lemma_abs_mul_le(v as int, I16_SCALE as int, 0x8000_0000, I16_SCALE as int);
        }
        let q = round_div128(v as i128 * I16_SCALE as i128, FRAC_ONE as i128);
        if q > i16::MAX as i128 {
            i16::MAX
        } else if q < i16::MIN as i128 {
            i16::MIN
        } else {
            q as i16
        }
    }

    fn offset() -> (r: i16) {
        0i16
    }
}

impl Sample for u16 {
    open spec fn spec_normailze(self) -> i32 {
        spec_sat32(spec_round_div((self - U16_OFFSET) * FRAC_ONE, I16_SCALE as int))
    }

    open spec fn spec_full(v: i32) -> u16 {
        spec_sat_u16(spec_round_div(v * I16_SCALE, FRAC_ONE as int) + U16_OFFSET)
    }

    open spec fn spec_offset() -> u16 {
        32768u16
    }

    fn normailze(self) -> (r: i32)
        ensures
            r == self.spec_normailze(),
    {
        let centered: i128 = self as i128 - U16_OFFSET as i128;
        proof {
            lemma_abs_mul_le(centered as int, FRAC_ONE as int, 0x10000, FRAC_ONE as int);
        }
        let q = round_div128(centered * FRAC_ONE as i128, I16_SCALE as i128);
        sat32(q)
    }

    fn full(v: i32) -> (r: u16)
        ensures
            r == Self::spec_full(v),
    {
        proof {
            lemma_abs_mul_le(v as int, I16_SCALE as int, 0x8000_0000, I16_SCALE as int);
            lemma_round_div_bound(
                v as int * I16_SCALE as int,
                FRAC_ONE as int,
                0x8000_0000,
            );
        }
        let q = round_div128(v as i128 * I16_SCALE as i128, FRAC_ONE as i128)
            + U16_OFFSET as i128;
        if q > u16::MAX as i128 {
            u16::MAX
        } else if q < 0 {
            0u16
        } else {
            q as u16
        }
    }

    fn offset() -> (r: u16) {
        32768u16
    }
}

/// The signal center of every format normalizes to fixed-point zero.
pub proof fn lemma_offset_is_silence()
    ensures
        (0i16).spec_normailze() == 0i32,
        (32768u16).spec_normailze() == 0i32,
{
    lemma_round_div_bound(0, I16_SCALE as int, 0);
}

} // verus!
