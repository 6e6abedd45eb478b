//! Failures of the arbitrary-precision arithmetic.
use crate::natural::BigUint;
use vstd::prelude::*;

verus! {

/// Why an arbitrary-precision operation did not produce a value.
#[derive(Debug, Eq, PartialEq)]
pub enum BigintError {
    CapacityOverflow,
    AllocationFailure { requested_limbs: usize },
    UnsignedUnderflow,
    DivisionByZero,
    NonExactDivision,
    ZeroDenominator,
    NonFiniteFloat,
    FloatOutOfRange,
    InvalidInterval,
    ExponentOverflow { required: BigUint, maximum: u32 },
}

/// The fixed description of each failure.
pub open spec fn bigint_error_text(error: BigintError) -> Seq<char> {
    match error {
        BigintError::CapacityOverflow => "required limb capacity exceeds usize"@,
        BigintError::AllocationFailure { .. } => "limb allocation failed"@,
        BigintError::UnsignedUnderflow => "unsigned subtraction underflow"@,
        BigintError::DivisionByZero => "division by zero"@,
        BigintError::NonExactDivision => "division has a nonzero remainder"@,
        BigintError::ZeroDenominator => "rational denominator is zero"@,
        BigintError::NonFiniteFloat => "floating-point value is not finite"@,
        BigintError::FloatOutOfRange => "exact value is outside finite f64 range"@,
        BigintError::InvalidInterval => "dyadic enclosure endpoints are reversed"@,
        BigintError::ExponentOverflow { .. } => "dyadic exponent exceeds u32"@,
    }
}

impl BigintError {
    /// The human-readable description of this failure.
    pub fn message(&self) -> (text: &'static str)
        ensures
            text@ == bigint_error_text(*self),
    {
        match self {
            BigintError::CapacityOverflow => "required limb capacity exceeds usize",
            BigintError::AllocationFailure { .. } => "limb allocation failed",
            BigintError::UnsignedUnderflow => "unsigned subtraction underflow",
            BigintError::DivisionByZero => "division by zero",
            BigintError::NonExactDivision => "division has a nonzero remainder",
            BigintError::ZeroDenominator => "rational denominator is zero",
            BigintError::NonFiniteFloat => "floating-point value is not finite",
            BigintError::FloatOutOfRange => "exact value is outside finite f64 range",
            BigintError::InvalidInterval => "dyadic enclosure endpoints are reversed",
            BigintError::ExponentOverflow { .. } => "dyadic exponent exceeds u32",
        }
    }

    /// The description as an owned string (the text of `to_string`).
    pub fn to_string(&self) -> (text: String)
        ensures
            text@ == bigint_error_text(*self),
    {
        String::from_str(self.message())
    }
}

} // verus!
