use neco::{AllocationResource, RepresentationResource};

const ALLOCATION_RESOURCES: [AllocationResource; 13] = [
    AllocationResource::PolynomialCoefficients,
    AllocationResource::RationalCoefficients,
    AllocationResource::EvaluationPoints,
    AllocationResource::Divisors,
    AllocationResource::ProductDigits,
    AllocationResource::FactorCandidates,
    AllocationResource::Factors,
    AllocationResource::SturmSequence,
    AllocationResource::RootIntervals,
    AllocationResource::SylvesterElements,
    AllocationResource::Permutation,
    AllocationResource::ResultantCoefficients,
    AllocationResource::RootCandidates,
];

#[test]
fn resource_display_is_complete_and_stable() {
    let representation = [
        (RepresentationResource::RootDegree, "root degree"),
        (
            RepresentationResource::PolynomialDegree,
            "polynomial degree",
        ),
        (
            RepresentationResource::CoefficientCount,
            "coefficient count",
        ),
        (
            RepresentationResource::SylvesterDimension,
            "Sylvester dimension",
        ),
        (
            RepresentationResource::SylvesterElementCount,
            "Sylvester element count",
        ),
    ];
    for (resource, expected) in representation {
        assert_eq!(resource.to_string(), expected);
    }

    let allocation = [
        "polynomial coefficients",
        "rational coefficients",
        "evaluation points",
        "divisors",
        "product digits",
        "factor candidates",
        "factors",
        "Sturm sequence",
        "root intervals",
        "Sylvester elements",
        "permutation",
        "resultant coefficients",
        "root candidates",
    ];
    for (resource, expected) in ALLOCATION_RESOURCES.into_iter().zip(allocation) {
        assert_eq!(resource.to_string(), expected);
    }
}
