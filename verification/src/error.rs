//! The errors of the buffered store.
use vstd::prelude::*;

verus! {

/// How the persistence engine refused a request.
#[derive(Debug, Clone, PartialEq, Eq)]
pub enum EngineError {
    /// The engine holds no entry under the key.
    NotFound,
    /// Any other failure, with the engine's own message.
    Other(String),
}

/// Why an operation on a buffer failed.
#[derive(Debug, Clone, PartialEq, Eq)]
pub enum DatabaseError {
    /// An empty key was handed to a keyed operation.
    InvalidKey,
    /// A value could not be turned into bytes, or bytes into a value.
    EncodingError,
    /// The persistence engine failed.
    EngineError(EngineError),
}

/// The result of an operation on a buffer.
pub type DatabaseResult<T> = Result<T, DatabaseError>;

} // verus!
