use phonograph::constraint::ConstraintViolation;
use phonograph::error::{Error, InferenceError, NotFoundError, SchemaError, StorageError, TransactionError};
use phonograph::types::{NodeId, TypeId};

#[test]
fn storage_error_display() {
    let e = StorageError { message: "disk full".into(), source: None };
    let s = e.to_string();
    assert!(s.contains("disk full"));
}

#[test]
fn storage_error_with_source() {
    let io_err = std::io::Error::new(std::io::ErrorKind::NotFound, "file gone");
    let e = StorageError { message: "read failed".into(), source: Some(io_err) };
    let s = e.to_string();
    assert!(s.contains("read failed"));
    assert!(s.contains("file gone"));
    assert!(e.source().is_some());
}

#[test]
fn storage_error_exact_text() {
    let e = StorageError::new("disk full");
    assert_eq!(e.to_string(), "storage error: disk full");
    assert!(e.source().is_none());
}

#[test]
fn transaction_error_display() {
    assert!(TransactionError::ReadOnly.to_string().contains("read-only"));
    assert!(TransactionError::AlreadyFinished.to_string().contains("already"));
    assert!(TransactionError::WriteLockTimeout.to_string().contains("timed out"));
}

#[test]
fn from_schema_error() {
    let e: Error = SchemaError::TypeNotFound(TypeId(1)).into();
    assert!(matches!(e, Error::Schema(_)));
}

#[test]
fn from_not_found_error() {
    let e: Error = NotFoundError::Node(NodeId(1)).into();
    assert!(matches!(e, Error::NotFound(_)));
}

#[test]
fn from_storage_error() {
    let se = StorageError { message: "test".into(), source: None };
    let e: Error = se.into();
    assert!(matches!(e, Error::Storage(_)));
}

#[test]
fn from_transaction_error() {
    let e: Error = TransactionError::ReadOnly.into();
    assert!(matches!(e, Error::Transaction(TransactionError::ReadOnly)));
}

#[test]
fn from_inference_error() {
    let e: Error = InferenceError::RuleNotFound("x".into()).into();
    assert!(matches!(e, Error::Inference(_)));
}

#[test]
fn error_display() {
    let e = Error::ConstraintViolation(vec![ConstraintViolation {
        violation_kind: "test".into(),
        message: "msg".into(),
        subject: None,
    }]);
    assert!(e.to_string().contains("1 constraint violation"));
}

#[test]
fn error_std_source() {
    let e: Error = SchemaError::TypeNotFound(TypeId(1)).into();
    assert!(e.source().is_some());

    let e2 = Error::ConstraintViolation(vec![]);
    assert!(e2.source().is_none());
}

#[test]
fn error_display_delegates() {
    let e: Error = NotFoundError::Node(NodeId(5)).into();
    assert_eq!(e.to_string(), "node with id 5 not found");
    let e2 = Error::ConstraintViolation(vec![]);
    assert_eq!(e2.to_string(), "0 constraint violation(s)");
}
