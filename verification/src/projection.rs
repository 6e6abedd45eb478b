//! The precision policy of a projection to `f64`, and the order-preserving numbering
//! of finite `f64` bit patterns.
use crate::id::AbsoluteBits;
use vstd::prelude::*;

verus! {

/// The sign bit of an `f64` bit pattern.
pub const SIGN_MASK: u64 = 0x8000_0000_0000_0000;

/// The bit pattern of the largest finite `f64`.
pub const MAX_FINITE_BITS: u64 = 0x7fef_ffff_ffff_ffff;

/// The complement of the first negative key.
pub const NEGATIVE_KEY_START: u64 = 0x0010_0000_0000_0000;

/// How many finite negative `f64` values there are (negative zero excluded).
pub const NEGATIVE_COUNT: u64 = 0x7fef_ffff_ffff_ffff;

/// The number of the largest finite `f64`.
pub const LAST_ORDERED: u64 = 0xffdf_ffff_ffff_fffe;

/// The bit pattern numbered `ordered`: negative patterns count down from the largest
/// magnitude, nonnegative ones count up from zero.
pub open spec fn ordered_bits(ordered: u64) -> u64 {
    if ordered < NEGATIVE_COUNT {
        (SIGN_MASK + (MAX_FINITE_BITS - ordered)) as u64
    } else {
        (ordered - NEGATIVE_COUNT) as u64
    }
}

/// The bit pattern of the finite `f64` numbered `ordered` in increasing order of value:
/// the negative values from `-MAX` up to the smallest negative subnormal first, then
/// zero and the positive values up to `MAX`.
pub fn ordered_to_bits(ordered: u64) -> (r: u64)
    ensures
        r == ordered_bits(ordered),
{
    if ordered < NEGATIVE_COUNT {
        let key = NEGATIVE_KEY_START + ordered;
        proof {
            assert(!key == 0xffff_ffff_ffff_ffffu64 - key) by (bit_vector);
        }
        !key
    } else {
        ordered - NEGATIVE_COUNT
    }
}

/// The value order of finite `f64` bit patterns: sign and magnitude, with the
/// magnitude bits ordered as integers.
pub open spec fn signed_magnitude(bits: u64) -> int {
    if bits >= SIGN_MASK {
        -(bits - SIGN_MASK)
    } else {
        bits as int
    }
}

/// Numbering preserves order: a larger number names a strictly larger value.
pub proof fn lemma_ordered_monotonic(first: u64, second: u64)
    requires
        first < second <= LAST_ORDERED,
    ensures
        signed_magnitude(ordered_bits(first)) < signed_magnitude(ordered_bits(second)),
{
}

/// The precision policy of a projection: the absolute bits it certifies.
#[derive(Clone, Copy, Debug, Eq, PartialEq, Structural)]
pub struct ProjectionPolicy {
    absolute_bits: AbsoluteBits,
}

impl View for ProjectionPolicy {
    type V = AbsoluteBits;

    closed spec fn view(&self) -> AbsoluteBits {
        self.absolute_bits
    }
}

impl ProjectionPolicy {
    /// The policy certifying `absolute_bits` absolute bits.
    pub fn new(absolute_bits: AbsoluteBits) -> (r: Self)
        ensures
            r@ == absolute_bits,
    {
        ProjectionPolicy { absolute_bits }
    }

    /// The absolute bits certified.
    pub fn absolute_bits(self) -> (r: AbsoluteBits)
        ensures
            r == self@,
    {
        self.absolute_bits
    }
}

} // verus!
