//! Fixed numbers that the estimators use.

use crate::double::Double;
use vstd::prelude::*;

verus! {

/// Minus one.
#[verifier::allow_in_spec]
pub fn neg_one() -> (x: Double)
    returns
        (Double { bits: 0xbff0_0000_0000_0000 }),
{
    Double { bits: 0xbff0_0000_0000_0000 }
}

/// One half.
#[verifier::allow_in_spec]
pub fn half() -> (x: Double)
    returns
        (Double { bits: 0x3fe0_0000_0000_0000 }),
{
    Double { bits: 0x3fe0_0000_0000_0000 }
}

/// Minus one half.
#[verifier::allow_in_spec]
pub fn neg_half() -> (x: Double)
    returns
        (Double { bits: 0xbfe0_0000_0000_0000 }),
{
    Double { bits: 0xbfe0_0000_0000_0000 }
}

/// One quarter.
#[verifier::allow_in_spec]
pub fn quarter() -> (x: Double)
    returns
        (Double { bits: 0x3fd0_0000_0000_0000 }),
{
    Double { bits: 0x3fd0_0000_0000_0000 }
}

/// Three quarters.
#[verifier::allow_in_spec]
pub fn three_quarters() -> (x: Double)
    returns
        (Double { bits: 0x3fe8_0000_0000_0000 }),
{
    Double { bits: 0x3fe8_0000_0000_0000 }
}

/// Two.
#[verifier::allow_in_spec]
pub fn two() -> (x: Double)
    returns
        (Double { bits: 0x4000_0000_0000_0000 }),
{
    Double { bits: 0x4000_0000_0000_0000 }
}

/// Three.
#[verifier::allow_in_spec]
pub fn three() -> (x: Double)
    returns
        (Double { bits: 0x4008_0000_0000_0000 }),
{
    Double { bits: 0x4008_0000_0000_0000 }
}

/// Four.
#[verifier::allow_in_spec]
pub fn four() -> (x: Double)
    returns
        (Double { bits: 0x4010_0000_0000_0000 }),
{
    Double { bits: 0x4010_0000_0000_0000 }
}

/// Five.
#[verifier::allow_in_spec]
pub fn five() -> (x: Double)
    returns
        (Double { bits: 0x4014_0000_0000_0000 }),
{
    Double { bits: 0x4014_0000_0000_0000 }
}

/// Six.
#[verifier::allow_in_spec]
pub fn six() -> (x: Double)
    returns
        (Double { bits: 0x4018_0000_0000_0000 }),
{
    Double { bits: 0x4018_0000_0000_0000 }
}

/// Ten.
#[verifier::allow_in_spec]
pub fn ten() -> (x: Double)
    returns
        (Double { bits: 0x4024_0000_0000_0000 }),
{
    Double { bits: 0x4024_0000_0000_0000 }
}

/// One thousand.
#[verifier::allow_in_spec]
pub fn thousand() -> (x: Double)
    returns
        (Double { bits: 0x408f_4000_0000_0000 }),
{
    Double { bits: 0x408f_4000_0000_0000 }
}

/// One tenth, rounded.
#[verifier::allow_in_spec]
pub fn tenth() -> (x: Double)
    returns
        (Double { bits: 0x3fb9_9999_9999_999a }),
{
    Double { bits: 0x3fb9_9999_9999_999a }
}

/// One fifth, rounded.
#[verifier::allow_in_spec]
pub fn fifth() -> (x: Double)
    returns
        (Double { bits: 0x3fc9_9999_9999_999a }),
{
    Double { bits: 0x3fc9_9999_9999_999a }
}

/// One hundredth, rounded.
#[verifier::allow_in_spec]
pub fn hundredth() -> (x: Double)
    returns
        (Double { bits: 0x3f84_7ae1_47ae_147b }),
{
    Double { bits: 0x3f84_7ae1_47ae_147b }
}

/// One twentieth, rounded.
#[verifier::allow_in_spec]
pub fn twentieth() -> (x: Double)
    returns
        (Double { bits: 0x3fa9_9999_9999_999a }),
{
    Double { bits: 0x3fa9_9999_9999_999a }
}

/// 0.15, rounded.
#[verifier::allow_in_spec]
pub fn decimal_15() -> (x: Double)
    returns
        (Double { bits: 0x3fc3_3333_3333_3333 }),
{
    Double { bits: 0x3fc3_3333_3333_3333 }
}

/// 0.3, rounded.
#[verifier::allow_in_spec]
pub fn decimal_3() -> (x: Double)
    returns
        (Double { bits: 0x3fd3_3333_3333_3333 }),
{
    Double { bits: 0x3fd3_3333_3333_3333 }
}

/// 0.6, rounded.
#[verifier::allow_in_spec]
pub fn decimal_6() -> (x: Double)
    returns
        (Double { bits: 0x3fe3_3333_3333_3333 }),
{
    Double { bits: 0x3fe3_3333_3333_3333 }
}

/// 0.8, rounded.
#[verifier::allow_in_spec]
pub fn decimal_8() -> (x: Double)
    returns
        (Double { bits: 0x3fe9_9999_9999_999a }),
{
    Double { bits: 0x3fe9_9999_9999_999a }
}

/// 0.9, rounded.
#[verifier::allow_in_spec]
pub fn decimal_9() -> (x: Double)
    returns
        (Double { bits: 0x3fec_cccc_cccc_cccd }),
{
    Double { bits: 0x3fec_cccc_cccc_cccd }
}

/// 0.95, rounded.
#[verifier::allow_in_spec]
pub fn decimal_95() -> (x: Double)
    returns
        (Double { bits: 0x3fee_6666_6666_6666 }),
{
    Double { bits: 0x3fee_6666_6666_6666 }
}

/// 0.99, rounded.
#[verifier::allow_in_spec]
pub fn decimal_99() -> (x: Double)
    returns
        (Double { bits: 0x3fef_ae14_7ae1_47ae }),
{
    Double { bits: 0x3fef_ae14_7ae1_47ae }
}

/// Five quarters.
#[verifier::allow_in_spec]
pub fn five_quarters() -> (x: Double)
    returns
        (Double { bits: 0x3ff4_0000_0000_0000 }),
{
    Double { bits: 0x3ff4_0000_0000_0000 }
}

/// Three halves.
#[verifier::allow_in_spec]
pub fn three_halves() -> (x: Double)
    returns
        (Double { bits: 0x3ff8_0000_0000_0000 }),
{
    Double { bits: 0x3ff8_0000_0000_0000 }
}

/// 0.002, rounded.
#[verifier::allow_in_spec]
pub fn decimal_002() -> (x: Double)
    returns
        (Double { bits: 0x3f60_624d_d2f1_a9fc }),
{
    Double { bits: 0x3f60_624d_d2f1_a9fc }
}

/// 0.005, rounded.
#[verifier::allow_in_spec]
pub fn decimal_005() -> (x: Double)
    returns
        (Double { bits: 0x3f74_7ae1_47ae_147b }),
{
    Double { bits: 0x3f74_7ae1_47ae_147b }
}

/// 1e-3, rounded.
#[verifier::allow_in_spec]
pub fn ten_to_minus_3() -> (x: Double)
    returns
        (Double { bits: 0x3f50_624d_d2f1_a9fc }),
{
    Double { bits: 0x3f50_624d_d2f1_a9fc }
}

/// 1e-6, rounded.
#[verifier::allow_in_spec]
pub fn ten_to_minus_6() -> (x: Double)
    returns
        (Double { bits: 0x3eb0_c6f7_a0b5_ed8d }),
{
    Double { bits: 0x3eb0_c6f7_a0b5_ed8d }
}

/// 1e-7, rounded.
#[verifier::allow_in_spec]
pub fn ten_to_minus_7() -> (x: Double)
    returns
        (Double { bits: 0x3e7a_d7f2_9abc_af48 }),
{
    Double { bits: 0x3e7a_d7f2_9abc_af48 }
}

/// 1e-9, rounded.
#[verifier::allow_in_spec]
pub fn ten_to_minus_9() -> (x: Double)
    returns
        (Double { bits: 0x3e11_2e0b_e826_d695 }),
{
    Double { bits: 0x3e11_2e0b_e826_d695 }
}

/// 1e-12, rounded.
#[verifier::allow_in_spec]
pub fn ten_to_minus_12() -> (x: Double)
    returns
        (Double { bits: 0x3d71_9799_812d_ea11 }),
{
    Double { bits: 0x3d71_9799_812d_ea11 }
}

/// 1e-15, rounded.
#[verifier::allow_in_spec]
pub fn ten_to_minus_15() -> (x: Double)
    returns
        (Double { bits: 0x3cd2_03af_9ee7_5616 }),
{
    Double { bits: 0x3cd2_03af_9ee7_5616 }
}

/// 1e-16, rounded.
#[verifier::allow_in_spec]
pub fn ten_to_minus_16() -> (x: Double)
    returns
        (Double { bits: 0x3c9c_d2b2_97d8_89bc }),
{
    Double { bits: 0x3c9c_d2b2_97d8_89bc }
}

/// 1e-18, rounded.
#[verifier::allow_in_spec]
pub fn ten_to_minus_18() -> (x: Double)
    returns
        (Double { bits: 0x3c32_725d_d1d2_43ac }),
{
    Double { bits: 0x3c32_725d_d1d2_43ac }
}

/// 1 - 1e-12, rounded.
#[verifier::allow_in_spec]
pub fn below_one() -> (x: Double)
    returns
        (Double { bits: 0x3fef_ffff_ffff_dcd1 }),
{
    Double { bits: 0x3fef_ffff_ffff_dcd1 }
}

/// Fifty.
#[verifier::allow_in_spec]
pub fn fifty() -> (x: Double)
    returns
        (Double { bits: 0x4049_0000_0000_0000 }),
{
    Double { bits: 0x4049_0000_0000_0000 }
}

/// The share of rows that a bootstrap keeps, rounded.
#[verifier::allow_in_spec]
pub fn decimal_632() -> (x: Double)
    returns
        (Double { bits: 0x3fe4_3958_1062_4dd3 }),
{
    Double { bits: 0x3fe4_3958_1062_4dd3 }
}

} // verus!
