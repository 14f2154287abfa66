//! Errors reported by the engine.

use vstd::prelude::*;
use crate::strings::{copy_opt_string, opt_view};

verus! {

/// Category of an error.
#[derive(Debug, Clone, Copy, PartialEq, Eq, Structural)]
pub enum ErrorCode {
    /// Two entities share an identifier.
    DuplicateId,
    /// A required field is empty.
    MissingRequiredField,
    /// A time or time range is invalid.
    InvalidTimeRange,
    /// A reference points to an unknown entity.
    InvalidReference,
    /// An input value is invalid.
    InvalidInput,
    /// A quantity is invalid.
    InvalidQuantity,
}

/// An error with its category, message and the entity it concerns.
#[derive(Debug, Clone)]
pub struct UapsError {
    pub code: ErrorCode,
    pub message: String,
    pub entity_id: Option<String>,
}

/// Mathematical value of an error.
pub struct UapsErrorView {
    pub code: ErrorCode,
    pub message: Seq<char>,
    pub entity_id: Option<Seq<char>>,
}

impl View for UapsError {
    type V = UapsErrorView;

    open spec fn view(&self) -> UapsErrorView {
        UapsErrorView { code: self.code, message: self.message@, entity_id: opt_view(self.entity_id) }
    }
}

impl UapsError {
    /// An error about no particular entity.
    pub fn new(code: ErrorCode, message: String) -> (e: UapsError)
        ensures
            e@ == (UapsErrorView { code, message: message@, entity_id: None }),
    {
        UapsError { code, message, entity_id: None }
    }

    /// Names the entity the error concerns.
    pub fn with_entity(self, entity_id: &str) -> (e: UapsError)
        ensures
            e@ == (UapsErrorView { entity_id: Some(entity_id@), ..self@ }),
    {
        UapsError { entity_id: Some(String::from_str(entity_id)), ..self }
    }

    /// A field-by-field copy.
    pub fn copy(&self) -> (e: UapsError)
        ensures
            e@ == self@,
    {
        UapsError { code: self.code, message: self.message.clone(), entity_id: copy_opt_string(&self.entity_id) }
    }
}

} // verus!
