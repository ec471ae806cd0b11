//! The failures that the library reports.

use vstd::prelude::*;

verus! {

/// Why an operation was refused.
#[derive(Debug, Clone, Copy, PartialEq, Eq, Structural)]
pub enum CoreError {
    /// An embedding was asked for before a model was loaded.
    ModelNotLoaded,
    /// There is no model file at the given place.
    ModelNotFound,
    /// A model file does not have the expected format or shapes.
    InvalidModelFile,
    /// A pixel buffer does not hold 64 x 64 values, or a dimension is outside
    /// the supported range.
    BadInputSize,
    /// Persisted anchor data could not be written, read or understood.
    IndexIOError,
    /// A vector does not have the configured number of components.
    DimensionMismatch,
    /// Image bytes could not be decoded.
    InvalidImage,
}

impl CoreError {
    /// A short description for messages and logs.
    pub fn message(&self) -> (text: String)
        ensures
            text@ == (match *self {
                CoreError::ModelNotLoaded => "model not loaded"@,
                CoreError::ModelNotFound => "model file not found"@,
                CoreError::InvalidModelFile => "invalid model file"@,
                CoreError::BadInputSize => "bad input size"@,
                CoreError::IndexIOError => "index I/O error"@,
                CoreError::DimensionMismatch => "dimension mismatch"@,
                CoreError::InvalidImage => "invalid image"@,
            }),
    {
        match self {
            CoreError::ModelNotLoaded => "model not loaded".to_string(),
            CoreError::ModelNotFound => "model file not found".to_string(),
            CoreError::InvalidModelFile => "invalid model file".to_string(),
            CoreError::BadInputSize => "bad input size".to_string(),
            CoreError::IndexIOError => "index I/O error".to_string(),
            CoreError::DimensionMismatch => "dimension mismatch".to_string(),
            CoreError::InvalidImage => "invalid image".to_string(),
        }
    }
}

} // verus!
