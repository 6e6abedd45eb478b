//! Failures of the expression containers, and where a failure happened.
use crate::error::BigintError;
use crate::id::{AtomId, ConsumerId, ExprId};
use crate::storage::StorageResource;
use vstd::prelude::*;

verus! {

/// A container could not grow.
#[derive(Clone, Copy, Debug, Eq, PartialEq, Structural)]
pub enum StorageError {
    CapacityOverflow { resource: StorageResource },
    AllocationFailure { resource: StorageResource, requested_elements: usize },
}

/// Why an expression could not be evaluated or copied.
#[derive(Debug, Eq, PartialEq)]
pub enum EvalError {
    DivisionByZero,
    UndefinedZeroPower,
    ZeroToNegativePower,
    EvenRootOfNegative,
    Bigint(BigintError),
}

/// Why a node could not be added to, or copied with, an expression graph.
#[derive(Debug, Eq, PartialEq)]
pub enum GraphError {
    IdExhausted,
    InvalidChildId { child: ExprId, next: ExprId },
    Node(EvalError),
    Storage(StorageError),
}

/// Why an entry could not be added to a keyed store.
#[derive(Debug, Eq, PartialEq)]
pub enum InsertError {
    DuplicateId { resource: StorageResource, id: u32 },
    Value(EvalError),
    Storage(StorageError),
}

impl From<BigintError> for EvalError {
    fn from(error: BigintError) -> (r: Self)
        ensures
            r == EvalError::Bigint(error),
    {
        EvalError::Bigint(error)
    }
}

impl vstd::std_specs::convert::FromSpecImpl<BigintError> for EvalError {
    open spec fn obeys_from_spec() -> bool {
        true
    }

    open spec fn from_spec(v: BigintError) -> Self {
        EvalError::Bigint(v)
    }
}

impl From<StorageError> for InsertError {
    fn from(error: StorageError) -> (r: Self)
        ensures
            r == InsertError::Storage(error),
    {
        InsertError::Storage(error)
    }
}

impl vstd::std_specs::convert::FromSpecImpl<StorageError> for InsertError {
    open spec fn obeys_from_spec() -> bool {
        true
    }

    open spec fn from_spec(v: StorageError) -> Self {
        InsertError::Storage(v)
    }
}

/// The stage of the exact-computation pipeline at which a failure happened.
#[derive(Clone, Copy, Debug, Eq, Hash, Ord, PartialEq, PartialOrd, Structural)]
pub enum FailureOperation {
    Read,
    Allocate,
    Normalize,
    Decide,
    Resolve,
    Assemble,
}

/// Where a failure happened: the operation, and the consumer, expression, atom and
/// decision involved, where known.
#[derive(Clone, Copy, Debug, Eq, PartialEq, Structural)]
pub struct FailureLocation {
    operation: FailureOperation,
    consumer: Option<ConsumerId>,
    expr: Option<ExprId>,
    atom: Option<AtomId>,
    decision: Option<u32>,
}

impl View for FailureLocation {
    type V = (FailureOperation, Option<ConsumerId>, Option<ExprId>, Option<AtomId>, Option<u32>);

    closed spec fn view(&self) -> Self::V {
        (self.operation, self.consumer, self.expr, self.atom, self.decision)
    }
}

impl FailureLocation {
    /// A location with only its operation known.
    pub fn operation(operation: FailureOperation) -> (r: Self)
        ensures
            r@ == (operation, None::<ConsumerId>, None::<ExprId>, None::<AtomId>, None::<u32>),
    {
        FailureLocation { operation, consumer: None, expr: None, atom: None, decision: None }
    }

    /// This location with its consumer set.
    pub fn with_consumer(self, consumer: ConsumerId) -> (r: Self)
        ensures
            r@ == (self@.0, Some(consumer), self@.2, self@.3, self@.4),
    {
        let mut location = self;
        location.consumer = Some(consumer);
        location
    }

    /// This location with its expression set.
    pub fn with_expr(self, expr: ExprId) -> (r: Self)
        ensures
            r@ == (self@.0, self@.1, Some(expr), self@.3, self@.4),
            r == self.with_expr_spec(expr),
    {
        let mut location = self;
        location.expr = Some(expr);
        location
    }

    /// This location with its expression set, in specifications.
    pub closed spec fn with_expr_spec(self, expr: ExprId) -> Self {
        FailureLocation { expr: Some(expr), ..self }
    }

    /// This location with its atom set.
    pub fn with_atom(self, atom: AtomId) -> (r: Self)
        ensures
            r@ == (self@.0, self@.1, self@.2, Some(atom), self@.4),
    {
        let mut location = self;
        location.atom = Some(atom);
        location
    }

    /// This location with its decision index set.
    pub fn with_decision(self, decision: u32) -> (r: Self)
        ensures
            r@ == (self@.0, self@.1, self@.2, self@.3, Some(decision)),
    {
        let mut location = self;
        location.decision = Some(decision);
        location
    }

    /// The operation.
    pub fn operation_kind(&self) -> (r: FailureOperation)
        ensures
            r == self@.0,
    {
        self.operation
    }

    /// The consumer, if known.
    pub fn consumer(&self) -> (r: Option<ConsumerId>)
        ensures
            r == self@.1,
    {
        self.consumer
    }

    /// The expression, if known.
    pub fn expr(&self) -> (r: Option<ExprId>)
        ensures
            r == self@.2,
    {
        self.expr
    }

    /// The atom, if known.
    pub fn atom(&self) -> (r: Option<AtomId>)
        ensures
            r == self@.3,
    {
        self.atom
    }

    /// The decision index, if known.
    pub fn decision(&self) -> (r: Option<u32>)
        ensures
            r == self@.4,
    {
        self.decision
    }
}

/// What a storage failure of the exact-computation pipeline carries.
#[derive(Debug, Eq, PartialEq)]
pub enum StorageFailurePayload {
    Storage(StorageError),
    GraphIdExhausted,
    DuplicateId { resource: StorageResource, id: u32 },
    Bigint(BigintError),
}

/// A failure of the exact-computation pipeline, with where it happened.
#[derive(Debug, Eq, PartialEq)]
pub enum NecoFailure {
    MissingAssignment { location: FailureLocation },
    UnknownExpression { location: FailureLocation },
    UnknownAtom { location: FailureLocation },
    DivisionByZero { location: FailureLocation },
    UndefinedPower { location: FailureLocation },
    EvenRootOfNegative { location: FailureLocation },
    InvalidIsolation { location: FailureLocation },
    MultipleTargetRoots { location: FailureLocation },
    FloatOutOfRange { location: FailureLocation },
    StorageFailure { location: FailureLocation, payload: StorageFailurePayload },
}

/// The location of a failure.
pub open spec fn failure_location(failure: NecoFailure) -> FailureLocation {
    match failure {
        NecoFailure::MissingAssignment { location } => location,
        NecoFailure::UnknownExpression { location } => location,
        NecoFailure::UnknownAtom { location } => location,
        NecoFailure::DivisionByZero { location } => location,
        NecoFailure::UndefinedPower { location } => location,
        NecoFailure::EvenRootOfNegative { location } => location,
        NecoFailure::InvalidIsolation { location } => location,
        NecoFailure::MultipleTargetRoots { location } => location,
        NecoFailure::FloatOutOfRange { location } => location,
        NecoFailure::StorageFailure { location, .. } => location,
    }
}

impl NecoFailure {
    /// Where the failure happened.
    pub fn location(&self) -> (r: &FailureLocation)
        ensures
            *r == failure_location(*self),
    {
        match self {
            NecoFailure::MissingAssignment { location }
            | NecoFailure::UnknownExpression { location }
            | NecoFailure::UnknownAtom { location }
            | NecoFailure::DivisionByZero { location }
            | NecoFailure::UndefinedPower { location }
            | NecoFailure::EvenRootOfNegative { location }
            | NecoFailure::InvalidIsolation { location }
            | NecoFailure::MultipleTargetRoots { location }
            | NecoFailure::FloatOutOfRange { location }
            | NecoFailure::StorageFailure { location, .. } => location,
        }
    }
}

/// A container failure at `location`.
pub fn map_storage_failure(location: FailureLocation, error: StorageError) -> (r: NecoFailure)
    ensures
        r == (NecoFailure::StorageFailure { location, payload: StorageFailurePayload::Storage(error) }),
{
    NecoFailure::StorageFailure { location, payload: StorageFailurePayload::Storage(error) }
}

/// A graph failure at `location`: an exhausted id space is a storage failure, an
/// invalid child an unknown expression, and a node or container failure keeps its payload.
pub fn map_graph_failure(location: FailureLocation, error: GraphError) -> (r: NecoFailure)
    ensures
        match error {
            GraphError::IdExhausted => r == (NecoFailure::StorageFailure {
                location,
                payload: StorageFailurePayload::GraphIdExhausted,
            }),
            GraphError::InvalidChildId { child, .. } => r == (NecoFailure::UnknownExpression {
                location: location.with_expr_spec(child),
            }),
            GraphError::Node(e) => r == map_eval_failure_spec(location, e),
            GraphError::Storage(e) => r == (NecoFailure::StorageFailure {
                location,
                payload: StorageFailurePayload::Storage(e),
            }),
        },
{
    match error {
        GraphError::IdExhausted => NecoFailure::StorageFailure {
            location,
            payload: StorageFailurePayload::GraphIdExhausted,
        },
        GraphError::InvalidChildId { child, .. } => NecoFailure::UnknownExpression {
            location: location.with_expr(child),
        },
        GraphError::Node(error) => map_eval_failure(location, error),
        GraphError::Storage(error) => map_storage_failure(location, error),
    }
}

/// An evaluation failure at `location`.
pub open spec fn map_eval_failure_spec(location: FailureLocation, error: EvalError) -> NecoFailure {
    match error {
        EvalError::DivisionByZero => NecoFailure::DivisionByZero { location },
        EvalError::UndefinedZeroPower => NecoFailure::UndefinedPower { location },
        EvalError::ZeroToNegativePower => NecoFailure::UndefinedPower { location },
        EvalError::EvenRootOfNegative => NecoFailure::EvenRootOfNegative { location },
        EvalError::Bigint(e) => NecoFailure::StorageFailure {
            location,
            payload: StorageFailurePayload::Bigint(e),
        },
    }
}

/// An evaluation failure at `location`.
pub fn map_eval_failure(location: FailureLocation, error: EvalError) -> (r: NecoFailure)
    ensures
        r == map_eval_failure_spec(location, error),
{
    match error {
        EvalError::DivisionByZero => NecoFailure::DivisionByZero { location },
        EvalError::UndefinedZeroPower => NecoFailure::UndefinedPower { location },
        EvalError::ZeroToNegativePower => NecoFailure::UndefinedPower { location },
        EvalError::EvenRootOfNegative => NecoFailure::EvenRootOfNegative { location },
        EvalError::Bigint(error) => NecoFailure::StorageFailure {
            location,
            payload: StorageFailurePayload::Bigint(error),
        },
    }
}

/// A store failure at `location`.
pub fn map_insert_failure(location: FailureLocation, error: InsertError) -> (r: NecoFailure)
    ensures
        match error {
            InsertError::DuplicateId { resource, id } => r == (NecoFailure::StorageFailure {
                location,
                payload: StorageFailurePayload::DuplicateId { resource, id },
            }),
            InsertError::Value(e) => r == map_eval_failure_spec(location, e),
            InsertError::Storage(e) => r == (NecoFailure::StorageFailure {
                location,
                payload: StorageFailurePayload::Storage(e),
            }),
        },
{
    match error {
        InsertError::DuplicateId { resource, id } => NecoFailure::StorageFailure {
            location,
            payload: StorageFailurePayload::DuplicateId { resource, id },
        },
        InsertError::Value(error) => map_eval_failure(location, error),
        InsertError::Storage(error) => map_storage_failure(location, error),
    }
}

} // verus!
