//! Single-precision constants, by their bits.
use vstd::prelude::*;

verus! {

/// 0.1.
pub const TENTH: u32 = 0x3dcc_cccd;

/// 500.
pub const FIVE_HUNDRED: u32 = 0x43fa_0000;

/// 1000.
pub const THOUSAND: u32 = 0x447a_0000;

/// 20000.
pub const TWENTY_THOUSAND: u32 = 0x469c_4000;

/// 18.
pub const EIGHTEEN: u32 = 0x4190_0000;

/// -20.
pub const MINUS_TWENTY: u32 = 0xc1a0_0000;

/// -80.
pub const MINUS_EIGHTY: u32 = 0xc2a0_0000;

/// 0.001.
pub const THOUSANDTH: u32 = 0x3a83_126f;

/// 0.05.
pub const TWENTIETH: u32 = 0x3d4c_cccd;

/// 0.5.
pub const HALF: u32 = 0x3f00_0000;

/// The share of the last sample that an underrun keeps: 0.9.
pub const FADE: u32 = 0x3f66_6666;

/// 2.
pub const TWO: u32 = 0x4000_0000;

/// 3.
pub const THREE: u32 = 0x4040_0000;

/// 5.
pub const FIVE: u32 = 0x40a0_0000;

/// 10.
pub const TEN: u32 = 0x4120_0000;

/// 20.
pub const TWENTY: u32 = 0x41a0_0000;

/// 40.
pub const FORTY: u32 = 0x4220_0000;

/// 50.
pub const FIFTY: u32 = 0x4248_0000;

/// 80.
pub const EIGHTY: u32 = 0x42a0_0000;

/// 100.
pub const HUNDRED: u32 = 0x42c8_0000;

/// 120.
pub const HUNDRED_TWENTY: u32 = 0x42f0_0000;

/// 150.
pub const HUNDRED_FIFTY: u32 = 0x4316_0000;

/// 200.
pub const TWO_HUNDRED: u32 = 0x4348_0000;

/// 300.
pub const THREE_HUNDRED: u32 = 0x4396_0000;

/// 3000.
pub const THREE_THOUSAND: u32 = 0x453b_8000;

/// 8000.
pub const EIGHT_THOUSAND: u32 = 0x45fa_0000;

/// 48000.
pub const FORTY_EIGHT_THOUSAND: u32 = 0x473b_8000;

/// 0.7.
pub const SEVEN_TENTHS: u32 = 0x3f33_3333;

/// The Q that is kept for shelves: 0.707.
pub const SHELF_Q: u32 = 0x3f34_fdf4;

/// -1.
pub const MINUS_ONE: u32 = 0xbf80_0000;

/// -2.
pub const MINUS_TWO: u32 = 0xc000_0000;

/// -3.
pub const MINUS_THREE: u32 = 0xc040_0000;

/// -6.
pub const MINUS_SIX: u32 = 0xc0c0_0000;

/// -18.
pub const MINUS_EIGHTEEN: u32 = 0xc190_0000;

/// -40.
pub const MINUS_FORTY: u32 = 0xc220_0000;

/// -60.
pub const MINUS_SIXTY: u32 = 0xc270_0000;

/// The level in dB up to which the meter is labelled as silent: -119.
pub const MINUS_INF_LABEL_DB: u32 = 0xc2ee_0000;

/// The level in dB that stands for silence: -120.
pub const MINUS_INF_DB: u32 = 0xc2f0_0000;

/// The ratio of a circle's circumference to its diameter.
pub const PI: u32 = 0x4049_0fdb;

/// The square root of two.
pub const SQRT_TWO: u32 = 0x3fb5_04f3;

/// The square root of one half.
pub const SQRT_HALF: u32 = 0x3f35_04f3;

} // verus!
