//! Error types of the database: schema, not-found and inference errors of
//! the vocabulary, storage and transaction errors of the engine, and the
//! unified [`Error`].

use vstd::prelude::*;
use vstd::string::StringExecFns;
use crate::constraint::ConstraintViolation;
use crate::text::{decimal, push_decimal, string_of};
use crate::types::{type_kind_text, EdgeId, NodeId, PropertyKeyId, TypeId, TypeKind};

verus! {

#[verifier::external_type_specification]
#[verifier::external_body]
pub struct ExIoError(std::io::Error);

/// `s` between double quotes.
pub open spec fn quoted(s: Seq<char>) -> Seq<char> {
    "\""@ + s + "\""@
}

fn push_quoted(out: &mut String, s: &String)
    ensures
        final(out)@ == old(out)@ + quoted(s@),
{
    out.append("\"");
    out.append(s.as_str());
    out.append("\"");
}

// ---------------------------------------------------------------------------
// Storage error kinds
// ---------------------------------------------------------------------------

/// Categorizes storage errors for generic error handling.
#[derive(Debug, Clone, Copy, PartialEq, Eq, Hash, Structural)]
#[non_exhaustive]
pub enum StorageErrorKind {
    /// Read or write referenced an offset beyond the current storage size.
    OutOfBounds,
    /// Underlying I/O operation failed.
    Io,
    /// Storage medium is in read-only mode and a write was attempted.
    ReadOnly,
    /// Cannot grow storage to accommodate the requested operation.
    StorageFull,
    /// Checksum mismatch or structural inconsistency in the storage medium.
    MediaCorruption,
    /// I/O operation was interrupted; the caller may retry.
    Interrupted,
    /// File is locked by another process.
    LockContention,
    /// Error not covered by the other categories.
    Other,
}

/// The display text of a storage error kind.
pub open spec fn storage_error_kind_text(k: StorageErrorKind) -> Seq<char> {
    match k {
        StorageErrorKind::OutOfBounds => "out of bounds"@,
        StorageErrorKind::Io => "I/O error"@,
        StorageErrorKind::ReadOnly => "read-only"@,
        StorageErrorKind::StorageFull => "storage full"@,
        StorageErrorKind::MediaCorruption => "media corruption"@,
        StorageErrorKind::Interrupted => "interrupted"@,
        StorageErrorKind::LockContention => "lock contention"@,
        StorageErrorKind::Other => "other error"@,
    }
}

impl StorageErrorKind {
    /// The display text of this kind (e.g. `"out of bounds"`).
    pub fn to_string(&self) -> (r: String)
        ensures
            r@ == storage_error_kind_text(*self),
    {
        match self {
            StorageErrorKind::OutOfBounds => string_of("out of bounds"),
            StorageErrorKind::Io => string_of("I/O error"),
            StorageErrorKind::ReadOnly => string_of("read-only"),
            StorageErrorKind::StorageFull => string_of("storage full"),
            StorageErrorKind::MediaCorruption => string_of("media corruption"),
            StorageErrorKind::Interrupted => string_of("interrupted"),
            StorageErrorKind::LockContention => string_of("lock contention"),
            StorageErrorKind::Other => string_of("other error"),
        }
    }
}

// ---------------------------------------------------------------------------
// Schema errors
// ---------------------------------------------------------------------------

/// Errors related to the type system and schema.
#[derive(Clone, Debug, PartialEq, Eq)]
pub enum SchemaError {
    /// A type with the same name and kind already exists.
    DuplicateTypeName {
        /// The duplicate name.
        name: String,
        /// The kind of type.
        kind: TypeKind,
    },
    /// The referenced type was not found in the registry.
    TypeNotFound(TypeId),
    /// Adding the supertype would create a cycle in the type hierarchy.
    CycleDetected {
        /// The child type that was being modified.
        child: TypeId,
        /// The supertype that would create a cycle.
        would_be_parent: TypeId,
    },
    /// A referenced supertype does not exist.
    SupertypeNotFound(TypeId),
    /// A type kind mismatch.
    KindMismatch {
        /// The expected type kind.
        expected: TypeKind,
        /// The actual type kind found.
        found: TypeKind,
    },
    /// A property key with the same name already exists.
    DuplicatePropertyKey {
        /// The duplicate property key name.
        name: String,
    },
    /// The referenced property key was not found.
    PropertyKeyNotFound(PropertyKeyId),
}

/// The display text of a schema error.
pub open spec fn schema_error_text(e: SchemaError) -> Seq<char> {
    match e {
        SchemaError::DuplicateTypeName { name, kind } => "duplicate "@ + type_kind_text(kind)
            + " type name: "@ + quoted(name@),
        SchemaError::TypeNotFound(id) => "type with id "@ + decimal(id.0 as nat) + " not found"@,
        SchemaError::CycleDetected { child, would_be_parent } => "adding supertype "@ + decimal(
            would_be_parent.0 as nat,
        ) + " to type "@ + decimal(child.0 as nat) + " would create a cycle"@,
        SchemaError::SupertypeNotFound(id) => "supertype with id "@ + decimal(id.0 as nat)
            + " not found"@,
        SchemaError::KindMismatch { expected, found } => "type kind mismatch: expected "@
            + type_kind_text(expected) + ", found "@ + type_kind_text(found),
        SchemaError::DuplicatePropertyKey { name } => "duplicate property key name: "@ + quoted(
            name@,
        ),
        SchemaError::PropertyKeyNotFound(id) => "property key with id "@ + decimal(id.0 as nat)
            + " not found"@,
    }
}

impl SchemaError {
    /// The human-readable description of this error.
    pub fn to_string(&self) -> (r: String)
        ensures
            r@ == schema_error_text(*self),
    {
        match self {
            SchemaError::DuplicateTypeName { name, kind } => {
                let mut s = string_of("duplicate ");
                let k = kind.to_string();
                s.append(k.as_str());
                s.append(" type name: ");
                push_quoted(&mut s, name);
                s
            },
            SchemaError::TypeNotFound(id) => {
                let mut s = string_of("type with id ");
                push_decimal(&mut s, id.0 as u64);
                s.append(" not found");
                s
            },
            SchemaError::CycleDetected { child, would_be_parent } => {
                let mut s = string_of("adding supertype ");
                push_decimal(&mut s, would_be_parent.0 as u64);
                s.append(" to type ");
                push_decimal(&mut s, child.0 as u64);
                s.append(" would create a cycle");
                s
            },
            SchemaError::SupertypeNotFound(id) => {
                let mut s = string_of("supertype with id ");
                push_decimal(&mut s, id.0 as u64);
                s.append(" not found");
                s
            },
            SchemaError::KindMismatch { expected, found } => {
                let mut s = string_of("type kind mismatch: expected ");
                let e = expected.to_string();
                s.append(e.as_str());
                s.append(", found ");
                let f = found.to_string();
                s.append(f.as_str());
                s
            },
            SchemaError::DuplicatePropertyKey { name } => {
                let mut s = string_of("duplicate property key name: ");
                push_quoted(&mut s, name);
                s
            },
            SchemaError::PropertyKeyNotFound(id) => {
                let mut s = string_of("property key with id ");
                push_decimal(&mut s, id.0 as u64);
                s.append(" not found");
                s
            },
        }
    }
}

// ---------------------------------------------------------------------------
// Not-found errors
// ---------------------------------------------------------------------------

/// Errors indicating a requested entity was not found.
#[derive(Clone, Copy, Debug, PartialEq, Eq, Structural)]
pub enum NotFoundError {
    /// A node with the given id was not found.
    Node(NodeId),
    /// An edge with the given id was not found.
    Edge(EdgeId),
    /// A type with the given id was not found.
    Type(TypeId),
    /// A property key with the given id was not found.
    PropertyKey(PropertyKeyId),
}

/// The display text of a not-found error.
pub open spec fn not_found_error_text(e: NotFoundError) -> Seq<char> {
    match e {
        NotFoundError::Node(id) => "node with id "@ + decimal(id.0 as nat) + " not found"@,
        NotFoundError::Edge(id) => "edge with id "@ + decimal(id.0 as nat) + " not found"@,
        NotFoundError::Type(id) => "type with id "@ + decimal(id.0 as nat) + " not found"@,
        NotFoundError::PropertyKey(id) => "property key with id "@ + decimal(id.0 as nat)
            + " not found"@,
    }
}

impl NotFoundError {
    /// The human-readable description of this error.
    pub fn to_string(&self) -> (r: String)
        ensures
            r@ == not_found_error_text(*self),
    {
        let (mut s, n) = match self {
            NotFoundError::Node(id) => (string_of("node with id "), id.0),
            NotFoundError::Edge(id) => (string_of("edge with id "), id.0),
            NotFoundError::Type(id) => (string_of("type with id "), id.0 as u64),
            NotFoundError::PropertyKey(id) => (string_of("property key with id "), id.0 as u64),
        };
        push_decimal(&mut s, n);
        s.append(" not found");
        s
    }
}

// ---------------------------------------------------------------------------
// Inference errors
// ---------------------------------------------------------------------------

/// Errors related to the inference subsystem.
#[derive(Clone, Debug)]
pub enum InferenceError {
    /// The requested inference rule was not found.
    RuleNotFound(String),
    /// An inferred fact was invalid.
    InvalidFact {
        /// The name of the rule that produced the invalid fact.
        rule_name: String,
        /// A description of why the fact is invalid.
        message: String,
    },
}

/// The display text of an inference error.
pub open spec fn inference_error_text(e: InferenceError) -> Seq<char> {
    match e {
        InferenceError::RuleNotFound(name) => "inference rule not found: "@ + quoted(name@),
        InferenceError::InvalidFact { rule_name, message } => "invalid fact from rule "@ + quoted(
            rule_name@,
        ) + ": "@ + message@,
    }
}

impl InferenceError {
    /// The human-readable description of this error.
    pub fn to_string(&self) -> (r: String)
        ensures
            r@ == inference_error_text(*self),
    {
        match self {
            InferenceError::RuleNotFound(name) => {
                let mut s = string_of("inference rule not found: ");
                push_quoted(&mut s, name);
                s
            },
            InferenceError::InvalidFact { rule_name, message } => {
                let mut s = string_of("invalid fact from rule ");
                push_quoted(&mut s, rule_name);
                s.append(": ");
                s.append(message.as_str());
                s
            },
        }
    }
}

// ---------------------------------------------------------------------------
// Storage errors
// ---------------------------------------------------------------------------

/// Errors from the storage layer.
#[derive(Debug)]
pub struct StorageError {
    /// A human-readable description of the error.
    pub message: String,
    /// The underlying I/O error, if any.
    pub source: Option<std::io::Error>,
}

impl StorageError {
    /// A storage error with the given message and no underlying I/O error.
    pub fn new(message: &str) -> (r: StorageError)
        ensures
            r.message@ == message@,
            r.source is None,
    {
        StorageError { message: string_of(message), source: None }
    }

    /// The human-readable description: `"storage error: "` and the message,
    /// followed by the underlying I/O error's own description when there is one.
    pub fn to_string(&self) -> (r: String)
        ensures
            self.source is None ==> r@ == "storage error: "@ + self.message@,
            self.source is Some ==> exists|t: String|
                r@ == "storage error: "@ + self.message@ + " (caused by: "@ + t@ + ")"@,
    {
        let mut s = string_of("storage error: ");
        s.append(self.message.as_str());
        match &self.source {
            Some(src) => {
                let t = src.to_string();
                s.append(" (caused by: ");
                s.append(t.as_str());
                s.append(")");
            },
            None => {},
        }
        s
    }

    /// The underlying I/O error, if any.
    pub fn source(&self) -> (r: Option<&std::io::Error>)
        ensures
            r is Some <==> self.source is Some,
    {
        match &self.source {
            Some(e) => Some(e),
            None => None,
        }
    }
}

// ---------------------------------------------------------------------------
// Transaction errors
// ---------------------------------------------------------------------------

/// Errors related to the transaction lifecycle.
#[derive(Clone, Copy, Debug, PartialEq, Eq, Structural)]
pub enum TransactionError {
    /// Attempted a write operation on a read-only transaction.
    ReadOnly,
    /// The transaction has already been committed or rolled back.
    AlreadyFinished,
    /// Timed out waiting to acquire the write lock.
    WriteLockTimeout,
}

/// The display text of a transaction error.
pub open spec fn transaction_error_text(e: TransactionError) -> Seq<char> {
    match e {
        TransactionError::ReadOnly => "cannot perform write operation on a read-only transaction"@,
        TransactionError::AlreadyFinished => "transaction has already been committed or rolled back"@,
        TransactionError::WriteLockTimeout => "timed out waiting to acquire the write lock"@,
    }
}

impl TransactionError {
    /// The human-readable description of this error.
    pub fn to_string(&self) -> (r: String)
        ensures
            r@ == transaction_error_text(*self),
    {
        match self {
            TransactionError::ReadOnly => string_of(
                "cannot perform write operation on a read-only transaction",
            ),
            TransactionError::AlreadyFinished => string_of(
                "transaction has already been committed or rolled back",
            ),
            TransactionError::WriteLockTimeout => string_of(
                "timed out waiting to acquire the write lock",
            ),
        }
    }
}

// ---------------------------------------------------------------------------
// The unified error
// ---------------------------------------------------------------------------

/// The unified error type for the graph database.
#[derive(Debug)]
pub enum Error {
    /// A schema/type-system error.
    Schema(SchemaError),
    /// One or more constraint violations prevented the transaction from committing.
    ConstraintViolation(Vec<ConstraintViolation>),
    /// A storage-layer error.
    Storage(StorageError),
    /// A requested entity was not found.
    NotFound(NotFoundError),
    /// A transaction lifecycle error.
    Transaction(TransactionError),
    /// An inference subsystem error.
    Inference(InferenceError),
}

/// The error that an [`Error`] wraps, when it wraps one.
#[derive(Debug)]
pub enum ErrorSource<'a> {
    /// The wrapped schema error.
    Schema(&'a SchemaError),
    /// The wrapped storage error.
    Storage(&'a StorageError),
    /// The wrapped not-found error.
    NotFound(&'a NotFoundError),
    /// The wrapped transaction error.
    Transaction(&'a TransactionError),
    /// The wrapped inference error.
    Inference(&'a InferenceError),
}

impl Error {
    /// The human-readable description: that of the wrapped error, or the
    /// number of constraint violations.
    pub fn to_string(&self) -> (r: String)
        ensures
            *self matches Error::Schema(e) ==> r@ == schema_error_text(e),
            *self matches Error::ConstraintViolation(v) ==> r@ == decimal(v@.len())
                + " constraint violation(s)"@,
            *self matches Error::NotFound(e) ==> r@ == not_found_error_text(e),
            *self matches Error::Transaction(e) ==> r@ == transaction_error_text(e),
            *self matches Error::Inference(e) ==> r@ == inference_error_text(e),
            *self matches Error::Storage(e) ==> (e.source is None ==> r@ == "storage error: "@
                + e.message@),
    {
        match self {
            Error::Schema(e) => e.to_string(),
            Error::ConstraintViolation(v) => {
                let mut s = String::new();
                push_decimal(&mut s, v.len() as u64);
                s.append(" constraint violation(s)");
                s
            },
            Error::Storage(e) => e.to_string(),
            Error::NotFound(e) => e.to_string(),
            Error::Transaction(e) => e.to_string(),
            Error::Inference(e) => e.to_string(),
        }
    }

    /// The wrapped error; `None` for constraint violations.
    pub fn source(&self) -> (r: Option<ErrorSource<'_>>)
        ensures
            r is None <==> self is ConstraintViolation,
    {
        match self {
            Error::Schema(e) => Some(ErrorSource::Schema(e)),
            Error::ConstraintViolation(_) => None,
            Error::Storage(e) => Some(ErrorSource::Storage(e)),
            Error::NotFound(e) => Some(ErrorSource::NotFound(e)),
            Error::Transaction(e) => Some(ErrorSource::Transaction(e)),
            Error::Inference(e) => Some(ErrorSource::Inference(e)),
        }
    }
}

impl From<SchemaError> for Error {
    fn from(e: SchemaError) -> (r: Error) {
        Error::Schema(e)
    }
}

impl vstd::std_specs::convert::FromSpecImpl<SchemaError> for Error {
    open spec fn obeys_from_spec() -> bool {
        true
    }

    open spec fn from_spec(v: SchemaError) -> Error {
        Error::Schema(v)
    }
}

impl From<NotFoundError> for Error {
    fn from(e: NotFoundError) -> (r: Error) {
        Error::NotFound(e)
    }
}

impl vstd::std_specs::convert::FromSpecImpl<NotFoundError> for Error {
    open spec fn obeys_from_spec() -> bool {
        true
    }

    open spec fn from_spec(v: NotFoundError) -> Error {
        Error::NotFound(v)
    }
}

impl From<StorageError> for Error {
    fn from(e: StorageError) -> (r: Error) {
        Error::Storage(e)
    }
}

impl vstd::std_specs::convert::FromSpecImpl<StorageError> for Error {
    open spec fn obeys_from_spec() -> bool {
        true
    }

    open spec fn from_spec(v: StorageError) -> Error {
        Error::Storage(v)
    }
}

impl From<TransactionError> for Error {
    fn from(e: TransactionError) -> (r: Error) {
        Error::Transaction(e)
    }
}

impl vstd::std_specs::convert::FromSpecImpl<TransactionError> for Error {
    open spec fn obeys_from_spec() -> bool {
        true
    }

    open spec fn from_spec(v: TransactionError) -> Error {
        Error::Transaction(v)
    }
}

impl From<InferenceError> for Error {
    fn from(e: InferenceError) -> (r: Error) {
        Error::Inference(e)
    }
}

impl vstd::std_specs::convert::FromSpecImpl<InferenceError> for Error {
    open spec fn obeys_from_spec() -> bool {
        true
    }

    open spec fn from_spec(v: InferenceError) -> Error {
        Error::Inference(v)
    }
}

} // verus!
