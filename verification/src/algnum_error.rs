//! Failures of the polynomial and algebraic-number layer.
use crate::error::BigintError;
use crate::natural::BigUint;
use vstd::prelude::*;

verus! {

/// A quantity whose representation has a limit.
#[derive(Clone, Copy, Debug, Eq, Hash, Ord, PartialEq, PartialOrd, Structural)]
pub enum RepresentationResource {
    RootDegree,
    PolynomialDegree,
    CoefficientCount,
    SylvesterDimension,
    SylvesterElementCount,
}

/// The fixed description of a representation resource.
pub open spec fn representation_text(resource: RepresentationResource) -> Seq<char> {
    match resource {
        RepresentationResource::RootDegree => "root degree"@,
        RepresentationResource::PolynomialDegree => "polynomial degree"@,
        RepresentationResource::CoefficientCount => "coefficient count"@,
        RepresentationResource::SylvesterDimension => "Sylvester dimension"@,
        RepresentationResource::SylvesterElementCount => "Sylvester element count"@,
    }
}

impl RepresentationResource {
    /// The human-readable name.
    pub fn message(&self) -> (text: &'static str)
        ensures
            text@ == representation_text(*self),
    {
        match self {
            RepresentationResource::RootDegree => "root degree",
            RepresentationResource::PolynomialDegree => "polynomial degree",
            RepresentationResource::CoefficientCount => "coefficient count",
            RepresentationResource::SylvesterDimension => "Sylvester dimension",
            RepresentationResource::SylvesterElementCount => "Sylvester element count",
        }
    }

    /// The name as an owned string (the text of `to_string`).
    pub fn to_string(&self) -> (text: String)
        ensures
            text@ == representation_text(*self),
    {
        String::from_str(self.message())
    }
}

/// A container whose growth can fail.
#[derive(Clone, Copy, Debug, Eq, Hash, Ord, PartialEq, PartialOrd, Structural)]
pub enum AllocationResource {
    PolynomialCoefficients,
    RationalCoefficients,
    EvaluationPoints,
    Divisors,
    ProductDigits,
    FactorCandidates,
    Factors,
    SturmSequence,
    RootIntervals,
    SylvesterElements,
    Permutation,
    ResultantCoefficients,
    RootCandidates,
}

/// The fixed description of an allocation resource.
pub open spec fn allocation_text(resource: AllocationResource) -> Seq<char> {
    match resource {
        AllocationResource::PolynomialCoefficients => "polynomial coefficients"@,
        AllocationResource::RationalCoefficients => "rational coefficients"@,
        AllocationResource::EvaluationPoints => "evaluation points"@,
        AllocationResource::Divisors => "divisors"@,
        AllocationResource::ProductDigits => "product digits"@,
        AllocationResource::FactorCandidates => "factor candidates"@,
        AllocationResource::Factors => "factors"@,
        AllocationResource::SturmSequence => "Sturm sequence"@,
        AllocationResource::RootIntervals => "root intervals"@,
        AllocationResource::SylvesterElements => "Sylvester elements"@,
        AllocationResource::Permutation => "permutation"@,
        AllocationResource::ResultantCoefficients => "resultant coefficients"@,
        AllocationResource::RootCandidates => "root candidates"@,
    }
}

impl AllocationResource {
    /// The human-readable name.
    pub fn message(&self) -> (text: &'static str)
        ensures
            text@ == allocation_text(*self),
    {
        match self {
            AllocationResource::PolynomialCoefficients => "polynomial coefficients",
            AllocationResource::RationalCoefficients => "rational coefficients",
            AllocationResource::EvaluationPoints => "evaluation points",
            AllocationResource::Divisors => "divisors",
            AllocationResource::ProductDigits => "product digits",
            AllocationResource::FactorCandidates => "factor candidates",
            AllocationResource::Factors => "factors",
            AllocationResource::SturmSequence => "Sturm sequence",
            AllocationResource::RootIntervals => "root intervals",
            AllocationResource::SylvesterElements => "Sylvester elements",
            AllocationResource::Permutation => "permutation",
            AllocationResource::ResultantCoefficients => "resultant coefficients",
            AllocationResource::RootCandidates => "root candidates",
        }
    }

    /// The name as an owned string (the text of `to_string`).
    pub fn to_string(&self) -> (text: String)
        ensures
            text@ == allocation_text(*self),
    {
        String::from_str(self.message())
    }
}

/// Why a polynomial or algebraic-number operation did not produce a value.
#[derive(Debug, Eq, PartialEq)]
pub enum AlgnumError {
    ZeroPolynomial,
    InvalidIsolation,
    NoTargetRoot,
    MultipleTargetRoots,
    DivisionByZero,
    UndefinedZeroPower,
    ZeroToNegativePower,
    ZeroRootDegree,
    EvenRootOfNegative,
    RepresentationLimit {
        resource: RepresentationResource,
        required: BigUint,
        maximum: BigUint,
    },
    AllocationLimit { resource: AllocationResource, required: BigUint, maximum: BigUint },
    AllocationFailure { resource: AllocationResource, requested: usize },
    Bigint(BigintError),
}

impl From<BigintError> for AlgnumError {
    fn from(error: BigintError) -> (r: Self)
        ensures
            r == AlgnumError::Bigint(error),
    {
        AlgnumError::Bigint(error)
    }
}

impl vstd::std_specs::convert::FromSpecImpl<BigintError> for AlgnumError {
    open spec fn obeys_from_spec() -> bool {
        true
    }

    open spec fn from_spec(v: BigintError) -> Self {
        AlgnumError::Bigint(v)
    }
}

/// A failure for want of resources: of the integer layer, of an allocation, or of a
/// size past what can be represented or allocated.
pub open spec fn resource_failure(e: AlgnumError) -> bool {
    ||| e matches AlgnumError::Bigint(b) && (b is AllocationFailure || b is CapacityOverflow)
    ||| e is AllocationFailure
    ||| e is AllocationLimit
    ||| e is RepresentationLimit
}

/// Makes room for `total` values in all; the allocator may refuse.
pub fn reserve_elements<T>(values: &mut Vec<T>, total: usize, resource: AllocationResource) -> (r:
    Result<(), AlgnumError>)
    requires
        old(values)@.len() <= total,
    ensures
        final(values)@ == old(values)@,
        r is Ok || r == Err::<(), AlgnumError>(
            AlgnumError::AllocationFailure { resource, requested: total },
        ),
{
    let additional = total - values.len();
    match values.try_reserve(additional) {
        Ok(()) => Ok(()),
        Err(_) => Err(AlgnumError::AllocationFailure { resource, requested: total }),
    }
}

/// A total of elements to hold, as a `usize`; a total past `usize::MAX` is refused.
pub fn allocation_total_to_usize(required: &BigUint, resource: AllocationResource) -> (r: Result<
    usize,
    AlgnumError,
>)
    ensures
        match r {
            Ok(count) => count == required@,
            Err(e) => (e matches AlgnumError::Bigint(b) && (b is AllocationFailure || b is CapacityOverflow)) || (required@
                > usize::MAX && (e matches AlgnumError::AllocationLimit {
                resource: found,
                required: total,
                maximum,
            } && found == resource && total@ == required@ && maximum@ == usize::MAX)),
        },
{
    let maximum = match BigUint::try_from(usize::MAX) {
        Ok(value) => value,
        Err(error) => return Err(AlgnumError::Bigint(error)),
    };
    if maximum.less_than(required) {
        let total = match required.try_clone() {
            Ok(value) => value,
            Err(error) => return Err(AlgnumError::Bigint(error)),
        };
        return Err(AlgnumError::AllocationLimit { resource, required: total, maximum });
    }
    Ok(required.to_usize_within())
}

} // verus!
