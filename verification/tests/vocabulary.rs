use phonograph::constraint::{ConstraintViolation, ViolationSubject};
use phonograph::error::{InferenceError, NotFoundError, SchemaError, StorageErrorKind};
use phonograph::inference::{InferenceMode, InferredEntity, MaterializedMapping, ProvenanceRecord};
use phonograph::types::{EdgeId, NodeId, PropertyKeyId, TypeId, TypeKind, ValueTypeDescriptor};

#[test]
fn storage_error_kind_display_non_empty() {
    let variants = [
        StorageErrorKind::OutOfBounds,
        StorageErrorKind::Io,
        StorageErrorKind::ReadOnly,
        StorageErrorKind::StorageFull,
        StorageErrorKind::MediaCorruption,
        StorageErrorKind::Interrupted,
        StorageErrorKind::LockContention,
        StorageErrorKind::Other,
    ];
    for v in &variants {
        let s = v.to_string();
        assert!(!s.is_empty(), "{v:?} has empty Display");
    }
}

#[test]
fn storage_error_kind_equality() {
    assert_eq!(StorageErrorKind::Io, StorageErrorKind::Io);
    assert_ne!(StorageErrorKind::Io, StorageErrorKind::ReadOnly);
}

#[test]
fn storage_error_kind_clone() {
    let a = StorageErrorKind::OutOfBounds;
    let b = a;
    assert_eq!(a, b);
}

#[test]
fn storage_error_kind_texts() {
    assert_eq!(StorageErrorKind::OutOfBounds.to_string(), "out of bounds");
    assert_eq!(StorageErrorKind::Io.to_string(), "I/O error");
    assert_eq!(StorageErrorKind::MediaCorruption.to_string(), "media corruption");
    assert_eq!(StorageErrorKind::Other.to_string(), "other error");
}

#[test]
fn constraint_violation_construction() {
    let v = ConstraintViolation {
        violation_kind: "test".into(),
        message: "test message".into(),
        subject: Some(ViolationSubject::Node(NodeId(1))),
    };
    assert_eq!(v.violation_kind, "test");
    assert_eq!(v.subject, Some(ViolationSubject::Node(NodeId(1))));

    let v2 = ConstraintViolation {
        violation_kind: "test".into(),
        message: "no subject".into(),
        subject: None,
    };
    assert!(v2.subject.is_none());
}

#[test]
fn violation_subject_eq() {
    assert_eq!(ViolationSubject::Node(NodeId(1)), ViolationSubject::Node(NodeId(1)));
    assert_ne!(ViolationSubject::Node(NodeId(1)), ViolationSubject::Edge(EdgeId(1)));
}

#[test]
fn schema_error_variants() {
    let _ = SchemaError::DuplicateTypeName { name: "Person".into(), kind: TypeKind::Node };
    let _ = SchemaError::TypeNotFound(TypeId(1));
    let _ = SchemaError::CycleDetected { child: TypeId(1), would_be_parent: TypeId(2) };
    let _ = SchemaError::SupertypeNotFound(TypeId(3));
    let _ = SchemaError::KindMismatch { expected: TypeKind::Node, found: TypeKind::Edge };
    let _ = SchemaError::DuplicatePropertyKey { name: "name".into() };
    let _ = SchemaError::PropertyKeyNotFound(PropertyKeyId(1));
}

#[test]
fn schema_error_display() {
    let e = SchemaError::DuplicateTypeName { name: "Person".into(), kind: TypeKind::Node };
    let s = e.to_string();
    assert!(s.contains("Person"));
    assert!(s.contains("Node"));

    let e2 = SchemaError::TypeNotFound(TypeId(42));
    assert!(e2.to_string().contains("42"));
}

#[test]
fn not_found_error_variants() {
    let _ = NotFoundError::Node(NodeId(1));
    let _ = NotFoundError::Edge(EdgeId(2));
    let _ = NotFoundError::Type(TypeId(3));
    let _ = NotFoundError::PropertyKey(PropertyKeyId(4));
}

#[test]
fn not_found_error_display() {
    let e = NotFoundError::Node(NodeId(42));
    assert!(e.to_string().contains("42"));
}

#[test]
fn not_found_error_exact_text() {
    assert_eq!(NotFoundError::Node(NodeId(42)).to_string(), "node with id 42 not found");
    assert_eq!(NotFoundError::PropertyKey(PropertyKeyId(7)).to_string(), "property key with id 7 not found");
}

#[test]
fn inference_error_display() {
    let e = InferenceError::RuleNotFound("my_rule".into());
    assert!(e.to_string().contains("my_rule"));

    let e2 = InferenceError::InvalidFact { rule_name: "r1".into(), message: "bad node ref".into() };
    assert!(e2.to_string().contains("r1"));
    assert!(e2.to_string().contains("bad node ref"));
}

#[test]
fn inference_mode_eq() {
    assert_eq!(InferenceMode::Ephemeral, InferenceMode::Ephemeral);
    assert_eq!(InferenceMode::Materialized, InferenceMode::Materialized);
    assert_ne!(InferenceMode::Ephemeral, InferenceMode::Materialized);
}

#[test]
fn provenance_record_eq() {
    let a = ProvenanceRecord { rule_name: "rule_a".into(), materialized_at: 100 };
    let b = ProvenanceRecord { rule_name: "rule_a".into(), materialized_at: 100 };
    assert_eq!(a, b);
}

#[test]
fn inferred_entity_ordering() {
    assert!(InferredEntity::Node(NodeId(1)) < InferredEntity::Node(NodeId(2)));
    assert!(InferredEntity::Node(NodeId(1)) < InferredEntity::Edge(EdgeId(1)));
}

#[test]
fn materialized_mapping_construction() {
    let mapping = MaterializedMapping {
        new_node_ids: vec![(0, NodeId(100)), (2, NodeId(101))],
        new_edge_ids: vec![(1, EdgeId(200))],
    };
    assert_eq!(mapping.new_node_ids.len(), 2);
    assert_eq!(mapping.new_edge_ids.len(), 1);
}

#[test]
fn value_type_descriptor_eq() {
    let a = ValueTypeDescriptor::I64;
    let b = ValueTypeDescriptor::I64;
    assert_eq!(a, b);

    let c = ValueTypeDescriptor::List(Box::new(ValueTypeDescriptor::String));
    let d = ValueTypeDescriptor::List(Box::new(ValueTypeDescriptor::String));
    assert_eq!(c, d);
}

#[test]
fn value_type_descriptor_clone_is_equal() {
    let c = ValueTypeDescriptor::List(Box::new(ValueTypeDescriptor::List(Box::new(ValueTypeDescriptor::Bytes))));
    assert_eq!(c.clone(), c);
}

#[test]
fn type_kind_display() {
    assert_eq!(TypeKind::Node.to_string(), "Node");
    assert_eq!(TypeKind::Edge.to_string(), "Edge");
}

#[test]
fn id_null_sentinels() {
    assert!(NodeId::null().is_null());
    assert!(!NodeId(3).is_null());
    assert!(EdgeId(0).is_null());
    assert!(TypeId::null().is_null());
    assert!(!PropertyKeyId(9).is_null());
    assert_eq!(NodeId(17).to_string(), "17");
}

#[test]
fn inferred_entity_as_btreemap_key() {
    let mut map = std::collections::BTreeMap::new();
    map.insert(InferredEntity::Node(NodeId(1)), ProvenanceRecord { rule_name: "r1".into(), materialized_at: 1 });
    map.insert(
        InferredEntity::EdgeProperty { edge: EdgeId(2), key: PropertyKeyId(3) },
        ProvenanceRecord { rule_name: "r2".into(), materialized_at: 2 },
    );
    assert_eq!(map.len(), 2);
    assert!(map.contains_key(&InferredEntity::Node(NodeId(1))));
}
