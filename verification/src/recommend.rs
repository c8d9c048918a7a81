//! The recommendation heuristic: a pure threshold function of the usage.
//!
//! Usage arrives as the bit pattern of a non-negative, non-NaN IEEE-754
//! double. For such doubles the numeric order coincides with the unsigned
//! order of their bit patterns, so the thresholds are plain integer
//! comparisons against the bit patterns of the two boundary values.

use vstd::prelude::*;
use vstd::string::StringSliceAdditionalSpecFns;
use vstd::string::StrSliceExecFns;

verus! {

/// Bit pattern of the double ten: usage strictly above it is high.
pub const HIGH_THRESHOLD_BITS: u64 = 0x4024000000000000;

/// Bit pattern of the double five: usage strictly above it is moderate.
pub const MODERATE_THRESHOLD_BITS: u64 = 0x4014000000000000;

/// Bit pattern of positive infinity: every valid usage is at most this,
/// which rules out NaN patterns and every sign-bit-set pattern.
pub const INFINITY_BITS: u64 = 0x7ff0000000000000;

/// A usage value the service accepts: non-negative and not NaN.
pub open spec fn valid_usage_bits(bits: u64) -> bool {
    bits <= INFINITY_BITS
}

/// The three usage tiers.
#[derive(Clone, Copy, Debug, PartialEq, Eq, Structural)]
pub enum UsageTier {
    Low,
    Moderate,
    High,
}

/// The tier of a usage value: strictly above ten is high, strictly above
/// five is moderate, anything else is low.
pub open spec fn spec_tier(bits: u64) -> UsageTier {
    if bits > HIGH_THRESHOLD_BITS {
        UsageTier::High
    } else if bits > MODERATE_THRESHOLD_BITS {
        UsageTier::Moderate
    } else {
        UsageTier::Low
    }
}

/// Classifies a usage value into its tier.
pub fn usage_tier(bits: u64) -> (r: UsageTier)
    ensures
        r == spec_tier(bits),
{
    if bits > HIGH_THRESHOLD_BITS {
        UsageTier::High
    } else if bits > MODERATE_THRESHOLD_BITS {
        UsageTier::Moderate
    } else {
        UsageTier::Low
    }
}

/// The recommendation text of a tier, as UTF-8 bytes.
pub open spec fn spec_message(tier: UsageTier) -> Seq<u8> {
    match tier {
        UsageTier::High => (
        "High energy usage detected. Consider reducing the number of devices or optimizing usage."
        ).spec_bytes(),
        UsageTier::Moderate => ("Moderate energy usage. Consider using energy-efficient devices.").spec_bytes(),
        UsageTier::Low => ("Low energy usage. Keep up the good work!").spec_bytes(),
    }
}

/// Builds the recommendation text of a tier.
pub fn recommendation_message(tier: UsageTier) -> (r: Vec<u8>)
    ensures
        r@ == spec_message(tier),
{
    match tier {
        UsageTier::High => (
        "High energy usage detected. Consider reducing the number of devices or optimizing usage."
        ).as_bytes_vec(),
        UsageTier::Moderate => (
        "Moderate energy usage. Consider using energy-efficient devices."
        ).as_bytes_vec(),
        UsageTier::Low => ("Low energy usage. Keep up the good work!").as_bytes_vec(),
    }
}

} // verus!
