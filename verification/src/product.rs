//! The vocabulary of the exact-computation product: decisions, inputs, operations,
//! error budgets, requirements and the identity of the implementation.
use crate::expr_error::{
    failure_location, map_storage_failure, FailureLocation, FailureOperation, NecoFailure,
};
use crate::id::{AbsoluteBits, ConsumerId, ExprId};
use crate::storage::{reserve_entries, StorageResource};
use vstd::prelude::*;

verus! {

/// The revision of this implementation.
pub const IMPLEMENTATION_REVISION: &'static str = "64f179e915c48a32c9652c1be0a91748045dfd4d";

/// The identity of the public interface.
pub const PUBLIC_API_IDENTITY: &'static str = "neco-expr-exact-computation-v1";

/// The kind of an exact decision.
#[derive(Clone, Copy, Debug, Eq, Hash, Ord, PartialEq, PartialOrd, Structural)]
pub enum ExactDecisionKind {
    Zero,
    Equality,
    Sign,
    Degeneracy,
}

/// The outcome of an exact decision.
#[derive(Clone, Copy, Debug, Eq, Hash, Ord, PartialEq, PartialOrd, Structural)]
pub enum ExactDecisionValue {
    Zero,
    NonZero,
    Equal,
    NotEqual,
    Negative,
    Positive,
    Degenerate,
    NonDegenerate,
}

/// An exact decision asked of one or two expressions.
#[derive(Clone, Copy, Debug, Eq, Hash, Ord, PartialEq, PartialOrd, Structural)]
pub enum ExactDecisionRequest {
    Zero(ExprId),
    Equality(ExprId, ExprId),
    Sign(ExprId),
    Degeneracy(ExprId),
}

impl ExactDecisionRequest {
    /// The kind of decision asked.
    pub fn kind(self) -> (r: ExactDecisionKind)
        ensures
            r == (match self {
                ExactDecisionRequest::Zero(_) => ExactDecisionKind::Zero,
                ExactDecisionRequest::Equality(_, _) => ExactDecisionKind::Equality,
                ExactDecisionRequest::Sign(_) => ExactDecisionKind::Sign,
                ExactDecisionRequest::Degeneracy(_) => ExactDecisionKind::Degeneracy,
            }),
    {
        match self {
            ExactDecisionRequest::Zero(_) => ExactDecisionKind::Zero,
            ExactDecisionRequest::Equality(_, _) => ExactDecisionKind::Equality,
            ExactDecisionRequest::Sign(_) => ExactDecisionKind::Sign,
            ExactDecisionRequest::Degeneracy(_) => ExactDecisionKind::Degeneracy,
        }
    }
}

/// The expressions a decision is asked of.
pub open spec fn decision_operands(decision: ExactDecisionRequest) -> Seq<ExprId> {
    match decision {
        ExactDecisionRequest::Zero(e) => seq![e],
        ExactDecisionRequest::Equality(l, r) => seq![l, r],
        ExactDecisionRequest::Sign(e) => seq![e],
        ExactDecisionRequest::Degeneracy(e) => seq![e],
    }
}

/// The owner of a numerical computation.
#[derive(Clone, Copy, Debug, Eq, Hash, Ord, PartialEq, PartialOrd, Structural)]
pub enum NumericalOwner {
    ModalFieldProjection,
    Wavesim,
}

/// An exact input of the computation.
#[derive(Clone, Copy, Debug, Eq, Hash, Ord, PartialEq, PartialOrd, Structural)]
pub enum ExactInput {
    GeometryIdentity,
    GeometryDimension,
    SourceNode,
    ReceiverNode,
    FrequencyBandEndpoints,
    ModeLimit,
    SamplingCount,
    SamplingRate,
    ModeIndexOrdering,
    ModeRowCardinality,
    ModeRowWidth,
    DampingDefinition,
    SystemIdentity,
    SubsystemIdentity,
    StateShape,
    StateExtents,
    InitialStateIndex,
    TimeDomainEndpoints,
    CalibrationInterval,
    HeldOutInterval,
    ConditionIdentity,
    CouplingTopology,
    CouplingSelector,
    ComparatorDirection,
    AcceptanceDomainBound,
}

/// An exact decision assigned to the computation.
#[derive(Clone, Copy, Debug, Eq, Hash, Ord, PartialEq, PartialOrd, Structural)]
pub enum ExactDecisionAssignment {
    ProvenanceNonempty,
    SourceReceiverIdentityValidity,
    ModeSetNonempty,
    ModeIdentityEqualityOrdering,
    ModeShapeCardinalityAxisEquality,
    SamplingDomainValidity,
    ZeroDivisionGuard,
    Rt60RoundTripEquality,
    MfpBranchIdentity,
    StateShapeEquality,
    CalibrationHeldOutDisjointness,
    ConditionSetCompleteness,
    SubsystemIdentityEquality,
    FiniteNonNegative,
    EnergyBalance,
    SingularityZeroDenominator,
    PredictionIndependenceEquality,
    R2LowerBound,
    AssemblyFailureSetEmptiness,
}

/// A numerical operation of the computation.
#[derive(Clone, Copy, Debug, Eq, Hash, Ord, PartialEq, PartialOrd, Structural)]
pub enum NumericalOperation {
    ModeFrequencyEvaluation,
    ModeShapeEvaluation,
    DampingRateCalculation,
    ModeContributionCalculation,
    ModeSum,
    ReceivedSeriesSamplingAccumulation,
    TranscendentalEvaluationFem,
    ModalRhsEvaluation,
    InitialStateNumericalConstruction,
    OdeIntegration,
    EnergyObservation,
    DddRegressionEstimation,
    SeaRegressionEstimation,
    HeldOutPredictionComparison,
}

/// An exact operation this implementation may support.
#[derive(Clone, Copy, Debug, Eq, Hash, Ord, PartialEq, PartialOrd, Structural)]
pub enum ExactOperation {
    NormalizeMonomial,
    NormalizeFormSum,
    NormalizeAlgebraic,
    DecideZero,
    DecideEquality,
    DecideSign,
    DecideDegeneracy,
    ResolveCertifiedF64,
}

/// The position of an operation in declaration order.
pub open spec fn operation_rank(operation: ExactOperation) -> nat {
    match operation {
        ExactOperation::NormalizeMonomial => 0,
        ExactOperation::NormalizeFormSum => 1,
        ExactOperation::NormalizeAlgebraic => 2,
        ExactOperation::DecideZero => 3,
        ExactOperation::DecideEquality => 4,
        ExactOperation::DecideSign => 5,
        ExactOperation::DecideDegeneracy => 6,
        ExactOperation::ResolveCertifiedF64 => 7,
    }
}

fn operation_position(operation: ExactOperation) -> (r: u8)
    ensures
        r == operation_rank(operation),
{
    match operation {
        ExactOperation::NormalizeMonomial => 0,
        ExactOperation::NormalizeFormSum => 1,
        ExactOperation::NormalizeAlgebraic => 2,
        ExactOperation::DecideZero => 3,
        ExactOperation::DecideEquality => 4,
        ExactOperation::DecideSign => 5,
        ExactOperation::DecideDegeneracy => 6,
        ExactOperation::ResolveCertifiedF64 => 7,
    }
}

/// A component of a numerical error budget.
#[derive(Clone, Copy, Debug, Eq, Hash, Ord, PartialEq, PartialOrd, Structural)]
pub enum NumericalBudgetComponent {
    ModeTruncation,
    ModeShapeEvaluation,
    DampingRt60Conversion,
    ModeSumAccumulation,
    ReceivedSeriesSamplingAccumulation,
    SolverTolerance,
    MaximumStepDiscretization,
    OdeIntegration,
    EnergyBalanceTolerance,
    SmoothingRequirement,
    DddRegressionEstimation,
    SeaRegressionEstimation,
    HeldOutComparatorTolerance,
    R2AcceptanceMargin,
}

/// A numerical error budget of one owner and consumer.
#[derive(Debug, Eq, PartialEq, Structural)]
pub struct NumericalErrorBudget {
    owner: NumericalOwner,
    consumer_id: ConsumerId,
    component: NumericalBudgetComponent,
    requirement_or_bound: AbsoluteBits,
}

impl View for NumericalErrorBudget {
    type V = (NumericalOwner, ConsumerId, NumericalBudgetComponent, AbsoluteBits);

    closed spec fn view(&self) -> Self::V {
        (self.owner, self.consumer_id, self.component, self.requirement_or_bound)
    }
}

impl NumericalErrorBudget {
    /// The budget with these parts.
    pub fn new(
        owner: NumericalOwner,
        consumer_id: ConsumerId,
        component: NumericalBudgetComponent,
        requirement_or_bound: AbsoluteBits,
    ) -> (r: Self)
        ensures
            r@ == (owner, consumer_id, component, requirement_or_bound),
    {
        NumericalErrorBudget { owner, consumer_id, component, requirement_or_bound }
    }

    /// The owner.
    pub fn owner(&self) -> (r: NumericalOwner)
        ensures
            r == self@.0,
    {
        self.owner
    }

    /// The consumer.
    pub fn consumer_id(&self) -> (r: ConsumerId)
        ensures
            r == self@.1,
    {
        self.consumer_id
    }

    /// The budget component.
    pub fn component(&self) -> (r: NumericalBudgetComponent)
        ensures
            r == self@.2,
    {
        self.component
    }

    /// The required precision or bound.
    pub fn requirement_or_bound(&self) -> (r: AbsoluteBits)
        ensures
            r == self@.3,
    {
        self.requirement_or_bound
    }
}

/// The identifiers of `s` strictly increase.
pub open spec fn ids_sorted(s: Seq<ExprId>) -> bool {
    forall|i: int, j: int| 0 <= i < j < s.len() ==> s[i]@ < s[j]@
}

/// The location of a failure to allocate a requirement of `consumer`.
pub open spec fn allocate_location(consumer: ConsumerId) -> (
    FailureOperation,
    Option<ConsumerId>,
    Option<ExprId>,
    Option<crate::id::AtomId>,
    Option<u32>,
) {
    (FailureOperation::Allocate, Some(consumer), None, None, None)
}

/// What a consumer requires: the expressions it reads, one exact decision on them,
/// and a precision.
#[derive(Debug, Eq, PartialEq)]
pub struct ExactExpressionRequirement {
    consumer_id: ConsumerId,
    expressions: Vec<ExprId>,
    decision: ExactDecisionRequest,
    precision: AbsoluteBits,
}

impl View for ExactExpressionRequirement {
    type V = (ConsumerId, Seq<ExprId>, ExactDecisionRequest, AbsoluteBits);

    closed spec fn view(&self) -> Self::V {
        (self.consumer_id, self.expressions@, self.decision, self.precision)
    }
}

/// Inserting into a sequence adds exactly the inserted element to what it contains.
pub proof fn lemma_insert_contains<A>(before: Seq<A>, index: int, value: A)
    requires
        0 <= index <= before.len(),
    ensures
        forall|x: A| #[trigger] before.insert(index, value).contains(x) <==> (before.contains(x)
            || x == value),
{
    let after = before.insert(index, value);
    assert forall|x: A| after.contains(x) <==> (before.contains(x) || x == value) by {
        if after.contains(x) {
            let k = choose|k: int| 0 <= k < after.len() && after[k] == x;
            if k < index {
                assert(before[k] == x);
            } else if k > index {
                assert(before[k - 1] == x);
            }
        }
        if before.contains(x) {
            let k = choose|k: int| 0 <= k < before.len() && before[k] == x;
            if k < index {
                assert(after[k] == x);
            } else {
                assert(after[k + 1] == x);
            }
        }
        if x == value {
            assert(after[index] == x);
        }
    }
}

/// Inserts `expression` into the sorted `owned` unless it is there already.
fn insert_expression(owned: &mut Vec<ExprId>, expression: ExprId)
    requires
        ids_sorted(old(owned)@),
    ensures
        ids_sorted(final(owned)@),
        forall|x: ExprId| final(owned)@.contains(x) <==> (old(owned)@.contains(x) || x == expression),
{
    let target = expression.get();
    let mut index: usize = 0;
    while index < owned.len()
        invariant
            index <= owned@.len(),
            ids_sorted(owned@),
            target == expression@,
            forall|j: int| 0 <= j < index ==> owned@[j]@ < target,
            owned@ == old(owned)@,
        ensures
            owned@ == old(owned)@,
            index <= owned@.len(),
            ids_sorted(owned@),
            forall|j: int| 0 <= j < index ==> owned@[j]@ < target,
            index < owned@.len() ==> owned@[index as int]@ > target,
        decreases owned@.len() - index,
    {
        let current = owned[index].get();
        if current == target {
            proof {
                ExprId::lemma_view_injective(owned@[index as int], expression);
                assert forall|x: ExprId| owned@.contains(x) <==> (owned@.contains(x) || x == expression) by {
                    if x == expression {
                        assert(owned@[index as int] == x);
                    }
                }
            }
            return;
        }
        if current > target {
            break;
        }
        index = index + 1;
    }
    let ghost before = owned@;
    owned.insert(index, expression);
    proof {
        assert forall|a: int, b: int| 0 <= a < b < owned@.len() implies owned@[a]@ < owned@[b]@ by {
            if b < index {
            } else if b == index {
            } else if a < index {
                assert(before[b - 1]@ > target || b - 1 >= index);
            } else if a == index {
            } else {
            }
        }
        lemma_insert_contains(before, index as int, expression);
    }
}

/// Whether `expressions` holds `expression`.
fn contains_expression(expressions: &[ExprId], expression: ExprId) -> (r: bool)
    ensures
        r == expressions@.contains(expression),
{
    let mut index: usize = 0;
    while index < expressions.len()
        invariant
            index <= expressions@.len(),
            forall|j: int| 0 <= j < index ==> expressions@[j] != expression,
        decreases expressions@.len() - index,
    {
        if expressions[index].get() == expression.get() {
            proof {
                ExprId::lemma_view_injective(expressions@[index as int], expression);
            }
            return true;
        }
        index = index + 1;
    }
    false
}

/// Whether `expressions` holds every operand of `decision`.
fn holds_operands(expressions: &[ExprId], decision: ExactDecisionRequest) -> (r: bool)
    ensures
        r == (forall|i: int|
            0 <= i < decision_operands(decision).len() ==> expressions@.contains(
                #[trigger] decision_operands(decision)[i],
            )),
{
    match decision {
        ExactDecisionRequest::Zero(expr) | ExactDecisionRequest::Sign(expr)
        | ExactDecisionRequest::Degeneracy(expr) => {
            let r = contains_expression(expressions, expr);
            proof {
                assert(decision_operands(decision)[0] == expr);
            }
            r
        },
        ExactDecisionRequest::Equality(left, right) => {
            let l = contains_expression(expressions, left);
            let r = contains_expression(expressions, right);
            proof {
                assert(decision_operands(decision)[0] == left);
                assert(decision_operands(decision)[1] == right);
            }
            l && r
        },
    }
}

impl ExactExpressionRequirement {
    /// The requirement of `consumer_id` on the given expressions, kept sorted without
    /// repeats; an empty list, or one missing an operand of the decision, is refused.
    pub fn new(
        consumer_id: ConsumerId,
        expressions: &[ExprId],
        decision: ExactDecisionRequest,
        precision: AbsoluteBits,
    ) -> (r: Result<Self, NecoFailure>)
        ensures
            expressions@.len() == 0 ==> (r matches Err(NecoFailure::MissingAssignment { location })
                && location@ == allocate_location(consumer_id)),
            expressions@.len() > 0 && !(forall|i: int|
                0 <= i < decision_operands(decision).len() ==> expressions@.contains(
                    #[trigger] decision_operands(decision)[i],
                )) ==> (r matches Err(NecoFailure::MissingAssignment { location }) && location@
                == allocate_location(consumer_id)),
            match r {
                Ok(v) => v@.0 == consumer_id && v@.2 == decision && v@.3 == precision && ids_sorted(
                    v@.1,
                ) && (forall|x: ExprId| v@.1.contains(x) <==> expressions@.contains(x)),
                Err(e) => failure_location(e)@ == allocate_location(consumer_id),
            },
    {
        let location = FailureLocation::operation(FailureOperation::Allocate).with_consumer(
            consumer_id,
        );
        if expressions.len() == 0 {
            return Err(NecoFailure::MissingAssignment { location });
        }
        if !holds_operands(expressions, decision) {
            return Err(NecoFailure::MissingAssignment { location });
        }
        let mut owned: Vec<ExprId> = Vec::new();
        match reserve_entries(&mut owned, expressions.len(), StorageResource::ProductEntries) {
            Ok(()) => {},
            Err(error) => return Err(map_storage_failure(location, error)),
        }
        let mut index: usize = 0;
        while index < expressions.len()
            invariant
                index <= expressions@.len(),
                ids_sorted(owned@),
                forall|x: ExprId| owned@.contains(x) <==> expressions@.subrange(0, index as int).contains(x),
            decreases expressions@.len() - index,
        {
            let ghost before = owned@;
            insert_expression(&mut owned, expressions[index]);
            proof {
                let prefix = expressions@.subrange(0, index as int);
                let next = expressions@.subrange(0, index + 1);
                assert forall|x: ExprId| owned@.contains(x) <==> next.contains(x) by {
                    if next.contains(x) {
                        let k = choose|k: int| 0 <= k < next.len() && next[k] == x;
                        if k < index {
                            assert(prefix[k] == x);
                        }
                    }
                    if prefix.contains(x) {
                        let k = choose|k: int| 0 <= k < prefix.len() && prefix[k] == x;
                        assert(next[k] == x);
                    }
                    if x == expressions@[index as int] {
                        assert(next[index as int] == x);
                    }
                }
            }
            index = index + 1;
        }
        proof {
            assert(expressions@.subrange(0, expressions@.len() as int) =~= expressions@);
        }
        Ok(ExactExpressionRequirement { consumer_id, expressions: owned, decision, precision })
    }

    /// The consumer.
    pub fn consumer_id(&self) -> (r: ConsumerId)
        ensures
            r == self@.0,
    {
        self.consumer_id
    }

    /// The expressions, sorted without repeats.
    pub fn expressions(&self) -> (r: &[ExprId])
        ensures
            r@ == self@.1,
    {
        self.expressions.as_slice()
    }

    /// The decision asked.
    pub fn decision(&self) -> (r: ExactDecisionRequest)
        ensures
            r == self@.2,
    {
        self.decision
    }

    /// The precision required.
    pub fn precision(&self) -> (r: AbsoluteBits)
        ensures
            r == self@.3,
    {
        self.precision
    }
}

/// The operations of `s` strictly increase in declaration order.
pub open spec fn operations_sorted(s: Seq<ExactOperation>) -> bool {
    forall|i: int, j: int| 0 <= i < j < s.len() ==> operation_rank(s[i]) < operation_rank(s[j])
}

/// Inserts `operation` into the sorted `owned` unless it is there already.
fn insert_operation(owned: &mut Vec<ExactOperation>, operation: ExactOperation)
    requires
        operations_sorted(old(owned)@),
    ensures
        operations_sorted(final(owned)@),
        forall|x: ExactOperation| final(owned)@.contains(x) <==> (old(owned)@.contains(x) || x
            == operation),
{
    let target = operation_position(operation);
    let mut index: usize = 0;
    while index < owned.len()
        invariant
            index <= owned@.len(),
            operations_sorted(owned@),
            target == operation_rank(operation),
            forall|j: int| 0 <= j < index ==> operation_rank(owned@[j]) < target,
            owned@ == old(owned)@,
        ensures
            owned@ == old(owned)@,
            index <= owned@.len(),
            operations_sorted(owned@),
            forall|j: int| 0 <= j < index ==> operation_rank(owned@[j]) < target,
            index < owned@.len() ==> operation_rank(owned@[index as int]) > target,
        decreases owned@.len() - index,
    {
        let current = operation_position(owned[index]);
        if current == target {
            proof {
                assert(owned@[index as int] == operation);
            }
            return;
        }
        if current > target {
            break;
        }
        index = index + 1;
    }
    let ghost before = owned@;
    owned.insert(index, operation);
    proof {
        assert forall|a: int, b: int| 0 <= a < b < owned@.len() implies operation_rank(owned@[a])
            < operation_rank(owned@[b]) by {
            if b < index {
            } else if b == index {
            } else if a < index {
                assert(operation_rank(before[b - 1]) > target || b - 1 >= index);
            } else if a == index {
            } else {
            }
        }
        lemma_insert_contains(before, index as int, operation);
    }
}

/// The operations an implementation was observed to support, sorted without repeats.
#[derive(Debug, Eq, PartialEq)]
pub struct NecoObservedCapability {
    source_identity: &'static str,
    supported_operations: Vec<ExactOperation>,
}

impl View for NecoObservedCapability {
    type V = (Seq<char>, Seq<ExactOperation>);

    closed spec fn view(&self) -> Self::V {
        (self.source_identity@, self.supported_operations@)
    }
}

impl NecoObservedCapability {
    /// The capability observed of this implementation.
    pub fn current(supported_operations: &[ExactOperation]) -> (r: Result<Self, NecoFailure>)
        ensures
            match r {
                Ok(v) => v@.0 == IMPLEMENTATION_REVISION@ && operations_sorted(v@.1) && (forall|
                    x: ExactOperation,
                | v@.1.contains(x) <==> supported_operations@.contains(x)),
                Err(e) => e is StorageFailure && failure_location(e)@ == (
                    FailureOperation::Read,
                    None::<ConsumerId>,
                    None::<ExprId>,
                    None::<crate::id::AtomId>,
                    None::<u32>,
                ),
            },
    {
        Self::new(IMPLEMENTATION_REVISION, supported_operations)
    }

    /// The capability with this source identity and these operations, sorted
    /// without repeats.
    pub fn new(source_identity: &'static str, supported_operations: &[ExactOperation]) -> (r:
        Result<Self, NecoFailure>)
        ensures
            match r {
                Ok(v) => v@.0 == source_identity@ && operations_sorted(v@.1) && (forall|
                    x: ExactOperation,
                | v@.1.contains(x) <==> supported_operations@.contains(x)),
                Err(e) => e is StorageFailure && failure_location(e)@ == (
                    FailureOperation::Read,
                    None::<ConsumerId>,
                    None::<ExprId>,
                    None::<crate::id::AtomId>,
                    None::<u32>,
                ),
            },
    {
        let location = FailureLocation::operation(FailureOperation::Read);
        let mut supported: Vec<ExactOperation> = Vec::new();
        match reserve_entries(
            &mut supported,
            supported_operations.len(),
            StorageResource::ProductEntries,
        ) {
            Ok(()) => {},
            Err(error) => return Err(map_storage_failure(location, error)),
        }
        let mut index: usize = 0;
        while index < supported_operations.len()
            invariant
                index <= supported_operations@.len(),
                operations_sorted(supported@),
                forall|x: ExactOperation| supported@.contains(x) <==> supported_operations@.subrange(
                    0,
                    index as int,
                ).contains(x),
            decreases supported_operations@.len() - index,
        {
            insert_operation(&mut supported, supported_operations[index]);
            proof {
                let prefix = supported_operations@.subrange(0, index as int);
                let next = supported_operations@.subrange(0, index + 1);
                assert forall|x: ExactOperation| supported@.contains(x) <==> next.contains(x) by {
                    if next.contains(x) {
                        let k = choose|k: int| 0 <= k < next.len() && next[k] == x;
                        if k < index {
                            assert(prefix[k] == x);
                        }
                    }
                    if prefix.contains(x) {
                        let k = choose|k: int| 0 <= k < prefix.len() && prefix[k] == x;
                        assert(next[k] == x);
                    }
                    if x == supported_operations@[index as int] {
                        assert(next[index as int] == x);
                    }
                }
            }
            index = index + 1;
        }
        proof {
            assert(supported_operations@.subrange(0, supported_operations@.len() as int)
                =~= supported_operations@);
        }
        Ok(NecoObservedCapability { source_identity, supported_operations: supported })
    }

    /// The source identity.
    pub fn source_identity(&self) -> (r: &'static str)
        ensures
            r@ == self@.0,
    {
        self.source_identity
    }

    /// The supported operations, sorted without repeats.
    pub fn supported_operations(&self) -> (r: &[ExactOperation])
        ensures
            r@ == self@.1,
    {
        self.supported_operations.as_slice()
    }
}

/// The identity of an implementation: its revision and its public interface.
#[derive(Debug, Eq, PartialEq)]
pub struct NecoImplementationSource {
    revision_identity: &'static str,
    public_api_identity: &'static str,
}

impl View for NecoImplementationSource {
    type V = (Seq<char>, Seq<char>);

    closed spec fn view(&self) -> Self::V {
        (self.revision_identity@, self.public_api_identity@)
    }
}

impl NecoImplementationSource {
    /// The identity with these parts.
    pub fn new(revision_identity: &'static str, public_api_identity: &'static str) -> (r: Self)
        ensures
            r@ == (revision_identity@, public_api_identity@),
    {
        NecoImplementationSource { revision_identity, public_api_identity }
    }

    /// The identity of this implementation.
    pub fn current() -> (r: Self)
        ensures
            r@ == (IMPLEMENTATION_REVISION@, PUBLIC_API_IDENTITY@),
    {
        Self::new(IMPLEMENTATION_REVISION, PUBLIC_API_IDENTITY)
    }

    /// The revision.
    pub fn revision_identity(&self) -> (r: &'static str)
        ensures
            r@ == self@.0,
    {
        self.revision_identity
    }

    /// The public interface identity.
    pub fn public_api_identity(&self) -> (r: &'static str)
        ensures
            r@ == self@.1,
    {
        self.public_api_identity
    }
}

/// The allocation of an exact computation: its exact inputs and decisions, its
/// numerical operations, the consumers that descend to numbers, and their budgets.
#[derive(Debug, Eq, PartialEq)]
pub struct ExactNumericAllocation {
    exact_inputs: Vec<ExactInput>,
    exact_decisions: Vec<ExactDecisionAssignment>,
    numerical_operations: Vec<NumericalOperation>,
    descent_consumers: Vec<ConsumerId>,
    numerical_error_budgets: Vec<NumericalErrorBudget>,
}

impl View for ExactNumericAllocation {
    type V = (
        Seq<ExactInput>,
        Seq<ExactDecisionAssignment>,
        Seq<NumericalOperation>,
        Seq<ConsumerId>,
        Seq<NumericalErrorBudget>,
    );

    closed spec fn view(&self) -> Self::V {
        (
            self.exact_inputs@,
            self.exact_decisions@,
            self.numerical_operations@,
            self.descent_consumers@,
            self.numerical_error_budgets@,
        )
    }
}

impl ExactNumericAllocation {
    /// The exact inputs.
    pub fn exact_inputs(&self) -> (r: &[ExactInput])
        ensures
            r@ == self@.0,
    {
        self.exact_inputs.as_slice()
    }

    /// The exact decisions.
    pub fn exact_decisions(&self) -> (r: &[ExactDecisionAssignment])
        ensures
            r@ == self@.1,
    {
        self.exact_decisions.as_slice()
    }

    /// The numerical operations.
    pub fn numerical_operations(&self) -> (r: &[NumericalOperation])
        ensures
            r@ == self@.2,
    {
        self.numerical_operations.as_slice()
    }

    /// The consumers that descend to numbers.
    pub fn descent_consumers(&self) -> (r: &[ConsumerId])
        ensures
            r@ == self@.3,
    {
        self.descent_consumers.as_slice()
    }

    /// The numerical error budgets.
    pub fn numerical_error_budgets(&self) -> (r: &[NumericalErrorBudget])
        ensures
            r@ == self@.4,
    {
        self.numerical_error_budgets.as_slice()
    }
}

/// Resolves the certified values of an expression graph's consumers.
#[derive(Debug, Eq, PartialEq, Structural)]
pub struct Resolver;

impl Resolver {
    /// The resolver.
    pub fn new() -> (r: Self)
        ensures
            r == Resolver,
    {
        Resolver
    }
}

} // verus!
