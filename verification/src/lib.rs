//! Exact arithmetic and exact-computation containers: arbitrary-precision naturals,
//! integers, rationals and dyadic numbers; complex numbers over any component type;
//! integer and rational polynomials with division, resultants, square-free parts,
//! Kronecker factorization and Sturm root isolation; and the identifiers, keyed stores
//! and expression graphs built on them.
pub mod algebraic;
pub mod algebraic_arith;
pub mod algebraic_order;
pub mod algnum_error;
pub mod coprime;
pub mod complex;
pub mod division;
pub mod dyadic;
pub mod error;
pub mod evaluation;
pub mod expr_error;
pub mod factor;
pub mod factorization;
pub mod graph;
pub mod id;
pub mod integer;
pub mod interpolation;
pub mod isolation;
pub mod isolation_cache;
pub mod limbs;
pub mod natural;
pub mod polynomial;
pub mod product;
pub mod projection;
pub mod rational;
pub mod resultant;
pub mod storage;
pub mod sturm;
pub mod substitution;

pub use algebraic::{
    CertifiedAlgebraic, GeneratorRepresentative, IsolatingInterval, MinimalPolynomial,
    PolynomialQuotient, RationalCoefficientConversion, RealAlgebraic, RootIndex,
};
pub use algnum_error::{AlgnumError, AllocationResource, RepresentationResource};
pub use complex::Complex;
pub use dyadic::{Dyadic, DyadicEnclosure};
pub use factorization::IrreduciblePolynomial;
pub use error::BigintError;
pub use expr_error::{
    EvalError, FailureLocation, FailureOperation, GraphError, InsertError, NecoFailure,
    StorageError, StorageFailurePayload,
};
pub use isolation_cache::IsolationCache;
pub use graph::{ExactLayer, ExprGraph, ExprNode};
pub use id::{AbsoluteBits, AtomId, ConsumerId, ExprId};
pub use integer::{BigInt, ExtendedGcd, Sign};
pub use natural::BigUint;
pub use product::{
    ExactDecisionAssignment, ExactDecisionKind, ExactDecisionRequest, ExactDecisionValue,
    ExactExpressionRequirement, ExactInput, ExactNumericAllocation, ExactOperation,
    NecoImplementationSource, NecoObservedCapability, NumericalBudgetComponent,
    NumericalErrorBudget, NumericalOperation, NumericalOwner, Resolver,
};
pub use polynomial::{CandidatePolynomial, Polynomial, RationalPolynomial, SquareFreePolynomial};
pub use projection::ProjectionPolicy;
pub use rational::{RationalReduction, RawRational, ReducedRational};
pub use storage::{Assignments, PrecisionRequirements, StorageResource};
