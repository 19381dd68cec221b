use vstd::prelude::*;

verus! {

// Bit patterns of binary64 numbers.

/// 0.0
pub const ZERO: u64 = 0x0000_0000_0000_0000;

/// 0.5
pub const HALF: u64 = 0x3fe0_0000_0000_0000;

/// 0.75
pub const THREE_QUARTERS: u64 = 0x3fe8_0000_0000_0000;

/// 1.0
pub const ONE: u64 = 0x3ff0_0000_0000_0000;

/// 1.5
pub const ONE_AND_A_HALF: u64 = 0x3ff8_0000_0000_0000;

/// 2.0
pub const TWO: u64 = 0x4000_0000_0000_0000;

/// 2.5
pub const TWO_AND_A_HALF: u64 = 0x4004_0000_0000_0000;

/// 3.0
pub const THREE: u64 = 0x4008_0000_0000_0000;

/// 4.0
pub const FOUR: u64 = 0x4010_0000_0000_0000;

/// 5.0
pub const FIVE: u64 = 0x4014_0000_0000_0000;

/// 6.0
pub const SIX: u64 = 0x4018_0000_0000_0000;

/// 8.0
pub const EIGHT: u64 = 0x4020_0000_0000_0000;

/// 10.0
pub const TEN: u64 = 0x4024_0000_0000_0000;

/// 25.0
pub const TWENTY_FIVE: u64 = 0x4039_0000_0000_0000;

/// 30.0
pub const THIRTY: u64 = 0x403e_0000_0000_0000;

/// 60.0
pub const SIXTY: u64 = 0x404e_0000_0000_0000;

/// 80.0
pub const EIGHTY: u64 = 0x4054_0000_0000_0000;

/// 120.0
pub const HUNDRED_TWENTY: u64 = 0x405e_0000_0000_0000;

/// 160.0
pub const HUNDRED_SIXTY: u64 = 0x4064_0000_0000_0000;

/// 420.0
pub const FOUR_HUNDRED_TWENTY: u64 = 0x407a_4000_0000_0000;

/// 1e-12
pub const PICO_1: u64 = 0x3d71_9799_812d_ea11;

/// 1e-9
pub const NANO_1: u64 = 0x3e11_2e0b_e826_d695;

/// 1e-6
pub const MICRO_1: u64 = 0x3eb0_c6f7_a0b5_ed8d;

/// 0.0001
pub const MICRO_100: u64 = 0x3f1a_36e2_eb1c_432d;

/// 0.001
pub const MILLI_1: u64 = 0x3f50_624d_d2f1_a9fc;

/// 0.002
pub const MILLI_2: u64 = 0x3f60_624d_d2f1_a9fc;

/// 0.005
pub const MILLI_5: u64 = 0x3f74_7ae1_47ae_147b;

/// 0.01
pub const CENTI_1: u64 = 0x3f84_7ae1_47ae_147b;

/// 0.02
pub const CENTI_2: u64 = 0x3f94_7ae1_47ae_147b;

/// 0.03
pub const CENTI_3: u64 = 0x3f9e_b851_eb85_1eb8;

/// 0.05
pub const CENTI_5: u64 = 0x3fa9_9999_9999_999a;

/// 0.08
pub const CENTI_8: u64 = 0x3fb4_7ae1_47ae_147b;

/// 0.1
pub const CENTI_10: u64 = 0x3fb9_9999_9999_999a;

/// -0.01
pub const MINUS_CENTI_1: u64 = 0xbf84_7ae1_47ae_147b;

/// -0.03
pub const MINUS_CENTI_3: u64 = 0xbf9e_b851_eb85_1eb8;

/// -0.05
pub const MINUS_CENTI_5: u64 = 0xbfa9_9999_9999_999a;

} // verus!
