//! The bits of the binary32 numbers that the formulas hold.
use vstd::prelude::*;

verus! {

/// 0
pub const ZERO: u32 = 0x0000_0000;

/// 1/4
pub const QUARTER: u32 = 0x3e80_0000;

/// 1/2
pub const HALF: u32 = 0x3f00_0000;

/// 1
pub const ONE: u32 = 0x3f80_0000;

/// 2
pub const TWO: u32 = 0x4000_0000;

/// 4
pub const FOUR: u32 = 0x4080_0000;

/// 12
pub const TWELVE: u32 = 0x4140_0000;

/// 16
pub const SIXTEEN: u32 = 0x4180_0000;

/// 255, the largest value of a channel
pub const CHANNEL_MAX: u32 = 0x437f_0000;

/// 360, the degrees of a turn
pub const TURN: u32 = 0x43b4_0000;

/// 8192, the largest side of a canvas
pub const LARGEST_SIDE: u32 = 0x4600_0000;

/// The degrees of a radian, 57.29578
pub const DEGREES_PER_RADIAN: u32 = 0x4265_2ee1;

/// 10^-9
pub const BILLIONTH: u32 = 0x3089_705f;

/// 10^-12
pub const TRILLIONTH: u32 = 0x2b8c_bccc;

/// 0.3, the weight of red in the luminosity
pub const RED_WEIGHT: u32 = 0x3e99_999a;

/// 0.59, the weight of green in the luminosity
pub const GREEN_WEIGHT: u32 = 0x3f17_0a3d;

/// 0.11, the weight of blue in the luminosity
pub const BLUE_WEIGHT: u32 = 0x3de1_47ae;

} // verus!
