use neco::storage::required_elements;
use neco::{
    AbsoluteBits, Assignments, ConsumerId, ExprId, InsertError, PrecisionRequirements,
    StorageError, StorageResource,
};

const RESOURCES: [StorageResource; 7] = [
    StorageResource::GraphNodes,
    StorageResource::AtomEntries,
    StorageResource::PrecisionEntries,
    StorageResource::AssignmentEntries,
    StorageResource::EvaluationEntries,
    StorageResource::IsolationEntries,
    StorageResource::ResolvedEntries,
];

#[test]
fn required_total_rejects_capacity_overflow() {
    for resource in RESOURCES {
        assert_eq!(
            required_elements(usize::MAX, resource),
            Err(StorageError::CapacityOverflow { resource })
        );
    }
}

#[test]
fn storage_resource_inventory_is_complete_and_ordered() {
    let resources = [
        StorageResource::GraphNodes,
        StorageResource::AtomEntries,
        StorageResource::PrecisionEntries,
        StorageResource::AssignmentEntries,
        StorageResource::EvaluationEntries,
        StorageResource::IsolationEntries,
        StorageResource::ResolvedEntries,
        StorageResource::ProductEntries,
        StorageResource::ProductResolutionEntries,
    ];
    assert!(resources.windows(2).all(|pair| pair[0] < pair[1]));
    for resource in resources {
        let described = format!("{resource:?}");
        assert!(!described.is_empty());
    }
}

#[test]
fn precision_map_is_sorted_and_duplicate_preserves_the_value() {
    let mut left = PrecisionRequirements::new();
    left.insert(ConsumerId::new(2), AbsoluteBits::new(20))
        .unwrap();
    left.insert(ConsumerId::new(1), AbsoluteBits::new(10))
        .unwrap();
    let before = left.try_clone().unwrap();
    assert_eq!(
        left.insert(ConsumerId::new(1), AbsoluteBits::new(99)),
        Err(InsertError::DuplicateId {
            resource: StorageResource::PrecisionEntries,
            id: 1,
        })
    );
    assert_eq!(left, before);

    let mut right = PrecisionRequirements::new();
    right
        .insert(ConsumerId::new(1), AbsoluteBits::new(10))
        .unwrap();
    right
        .insert(ConsumerId::new(2), AbsoluteBits::new(20))
        .unwrap();
    assert_eq!(left, right);
    left.set(ConsumerId::new(2), AbsoluteBits::new(30)).unwrap();
    assert_eq!(left.get(ConsumerId::new(2)), Some(AbsoluteBits::new(30)));
    left.set(ConsumerId::new(5), AbsoluteBits::new(50)).unwrap();
    assert_eq!(left.get(ConsumerId::new(5)), Some(AbsoluteBits::new(50)));
    assert_eq!(left.get(ConsumerId::new(4)), None);
    assert_eq!(left.len(), 3);
}

#[test]
fn assignment_map_is_sorted_and_duplicate_preserves_the_value() {
    let mut left = Assignments::new();
    left.insert(ConsumerId::new(8), ExprId::new(80)).unwrap();
    left.insert(ConsumerId::new(3), ExprId::new(30)).unwrap();
    let before = left.try_clone().unwrap();
    assert_eq!(
        left.insert(ConsumerId::new(3), ExprId::new(31)),
        Err(InsertError::DuplicateId {
            resource: StorageResource::AssignmentEntries,
            id: 3,
        })
    );
    assert_eq!(left, before);

    let mut right = Assignments::new();
    right.insert(ConsumerId::new(3), ExprId::new(30)).unwrap();
    right.insert(ConsumerId::new(8), ExprId::new(80)).unwrap();
    assert_eq!(left, right);
    left.set(ConsumerId::new(3), ExprId::new(32)).unwrap();
    assert_eq!(left.get(ConsumerId::new(3)), Some(ExprId::new(32)));
}

#[test]
fn assignments_keep_the_first_value_and_count_consumers() {
    let mut left = Assignments::new();
    left.insert(ConsumerId::new(9), ExprId::new(3)).unwrap();
    left.insert(ConsumerId::new(4), ExprId::new(1)).unwrap();
    assert_eq!(
        left.insert(ConsumerId::new(9), ExprId::new(7)),
        Err(InsertError::DuplicateId {
            resource: StorageResource::AssignmentEntries,
            id: 9,
        })
    );
    assert_eq!(left.get(ConsumerId::new(9)), Some(ExprId::new(3)));
    let mut right = Assignments::new();
    right.insert(ConsumerId::new(4), ExprId::new(1)).unwrap();
    right.insert(ConsumerId::new(9), ExprId::new(3)).unwrap();
    assert_eq!(left, right);
    assert_eq!(left.try_clone().unwrap(), right);
    left.set(ConsumerId::new(4), ExprId::new(8)).unwrap();
    assert_eq!(left.get(ConsumerId::new(4)), Some(ExprId::new(8)));
    assert_eq!(left.len(), 2);
}
