use vstd::prelude::*;

verus! {

/// Lets `std::io::Error` travel inside `GeodesyError` as an opaque value.
#[verifier::external_type_specification]
#[verifier::external_body]
pub struct ExIoError(std::io::Error);

/// The errors that building or running a pipeline can report.
pub enum GeodesyError {
    /// An error of the lookup collaborator, passed on unchanged.
    Io(std::io::Error),
    /// A general error message.
    General(&'static str),
    /// Malformed definition text; holds the offending fragment.
    Syntax(String),
    /// An operator specific failure: operator name and message.
    Operator(&'static str, &'static str),
    /// A resource whose shape differs from the one expected.
    InvalidHeader { expected: String, found: String },
    /// A name found neither among the operators nor among the definitions.
    NotFound(String),
    /// Macro expansion went deeper than the recursion ceiling.
    Recursion(String),
    Unknown,
}

/// What the contracts of this library say about an error.
pub ghost enum ErrorModel {
    Syntax(Seq<char>),
    NotFound(Seq<char>),
    Recursion(Seq<char>),
    Other,
}

impl GeodesyError {
    pub open spec fn model(&self) -> ErrorModel {
        match self {
            GeodesyError::Syntax(s) => ErrorModel::Syntax(s@),
            GeodesyError::NotFound(s) => ErrorModel::NotFound(s@),
            GeodesyError::Recursion(s) => ErrorModel::Recursion(s@),
            _ => ErrorModel::Other,
        }
    }
}

} // verus!
