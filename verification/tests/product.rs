use neco::{
    AbsoluteBits, AtomId, ConsumerId, ExactDecisionKind, ExactDecisionRequest,
    ExactExpressionRequirement, ExactOperation, ExprId, FailureLocation, FailureOperation,
    NecoFailure, NecoImplementationSource, NecoObservedCapability, NumericalBudgetComponent,
    NumericalErrorBudget, NumericalOwner, Resolver,
};

#[test]
fn failure_locations_record_each_part() {
    let location = FailureLocation::operation(FailureOperation::Decide)
        .with_consumer(ConsumerId::new(3))
        .with_expr(ExprId::new(4))
        .with_atom(AtomId::new(5))
        .with_decision(6);
    assert_eq!(location.operation_kind(), FailureOperation::Decide);
    assert_eq!(location.consumer(), Some(ConsumerId::new(3)));
    assert_eq!(location.expr(), Some(ExprId::new(4)));
    assert_eq!(location.atom(), Some(AtomId::new(5)));
    assert_eq!(location.decision(), Some(6));
    let bare = FailureLocation::operation(FailureOperation::Read);
    assert_eq!(bare.consumer(), None);
    assert_eq!(bare.decision(), None);
}

#[test]
fn requirements_sort_and_deduplicate_their_expressions() {
    let requirement = ExactExpressionRequirement::new(
        ConsumerId::new(1),
        &[ExprId::new(5), ExprId::new(2), ExprId::new(5), ExprId::new(0)],
        ExactDecisionRequest::Equality(ExprId::new(2), ExprId::new(5)),
        AbsoluteBits::new(30),
    )
    .unwrap();
    assert_eq!(
        requirement.expressions(),
        &[ExprId::new(0), ExprId::new(2), ExprId::new(5)]
    );
    assert_eq!(requirement.consumer_id(), ConsumerId::new(1));
    assert_eq!(requirement.precision(), AbsoluteBits::new(30));
    assert_eq!(requirement.decision().kind(), ExactDecisionKind::Equality);
}

#[test]
fn requirements_reject_empty_and_missing_operands() {
    let expected = FailureLocation::operation(FailureOperation::Allocate)
        .with_consumer(ConsumerId::new(7));
    assert_eq!(
        ExactExpressionRequirement::new(
            ConsumerId::new(7),
            &[],
            ExactDecisionRequest::Zero(ExprId::new(0)),
            AbsoluteBits::new(1),
        ),
        Err(NecoFailure::MissingAssignment { location: expected })
    );
    let missing = ExactExpressionRequirement::new(
        ConsumerId::new(7),
        &[ExprId::new(1)],
        ExactDecisionRequest::Sign(ExprId::new(2)),
        AbsoluteBits::new(1),
    )
    .unwrap_err();
    assert_eq!(missing.location(), &expected);
}

#[test]
fn capabilities_are_sorted_without_repeats() {
    let capability = NecoObservedCapability::new(
        "source",
        &[
            ExactOperation::DecideSign,
            ExactOperation::NormalizeMonomial,
            ExactOperation::DecideSign,
            ExactOperation::ResolveCertifiedF64,
        ],
    )
    .unwrap();
    assert_eq!(capability.source_identity(), "source");
    assert_eq!(
        capability.supported_operations(),
        &[
            ExactOperation::NormalizeMonomial,
            ExactOperation::DecideSign,
            ExactOperation::ResolveCertifiedF64,
        ]
    );
    let current = NecoObservedCapability::current(&[]).unwrap();
    assert_eq!(
        current.source_identity(),
        NecoImplementationSource::current().revision_identity()
    );
}

#[test]
fn budgets_and_identities_keep_their_parts() {
    let budget = NumericalErrorBudget::new(
        NumericalOwner::Wavesim,
        ConsumerId::new(2),
        NumericalBudgetComponent::OdeIntegration,
        AbsoluteBits::new(40),
    );
    assert_eq!(budget.owner(), NumericalOwner::Wavesim);
    assert_eq!(budget.consumer_id(), ConsumerId::new(2));
    assert_eq!(budget.component(), NumericalBudgetComponent::OdeIntegration);
    assert_eq!(budget.requirement_or_bound(), AbsoluteBits::new(40));
    let source = NecoImplementationSource::new("revision", "api");
    assert_eq!(source.revision_identity(), "revision");
    assert_eq!(source.public_api_identity(), "api");
    assert_eq!(
        NecoImplementationSource::current().public_api_identity(),
        "neco-expr-exact-computation-v1"
    );
    assert_eq!(Resolver::new(), Resolver::new());
    assert_eq!(
        ExactDecisionRequest::Degeneracy(ExprId::new(0)).kind(),
        ExactDecisionKind::Degeneracy
    );
}
