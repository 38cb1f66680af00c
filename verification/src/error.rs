//! Error kinds. All failures are local, typed values; no verified function
//! of this crate panics.

use vstd::prelude::*;

verus! {

/// Top-level error of the engine.
#[derive(Debug, Clone)]
pub enum Error {
    /// A typed decode failed, or a parsed body could not be interpreted.
    DecodeError(String),
    /// A body or field could not be read by the collaborator.
    ReadError(String),
    /// Collaborator-side I/O failed.
    IOError(String),
    /// Two value shapes that the merge rules refuse.
    MergeError(String),
}

/// Failure of the streaming JSON parser.
#[derive(Debug)]
pub enum JsonError {
    /// Malformed input, with human-readable context.
    SyntaxError(String),
    /// Input ended before a root value was completed.
    NoMoreInput,
    Other(String),
}

/// Failure of the nested-key parser.
#[derive(Debug)]
pub enum QueryParserError {
    /// A key's nested path implies an array where an object exists, or vice
    /// versa; the message names the offending key.
    ParameterTypeError(String),
    InvalidParameterError(String),
    /// Nesting exceeded the configured depth limit.
    ParamsTooDeepError(String),
}

impl Error {
    /// The conversion the engine applies to a JSON-parser failure.
    pub fn from_json_error(e: JsonError) -> (r: Error)
        ensures
            match e {
                JsonError::SyntaxError(m) => r matches Error::DecodeError(s) && s@ == "Syntax error: "@ + m@,
                JsonError::NoMoreInput => r matches Error::DecodeError(s) && s@ == "Incomplete JSON input"@,
                JsonError::Other(m) => r matches Error::DecodeError(s) && s@ == m@,
            },
    {
        match e {
            JsonError::SyntaxError(m) => Error::DecodeError(
                String::from_str("Syntax error: ").concat(m.as_str()),
            ),
            JsonError::NoMoreInput => Error::DecodeError(String::from_str("Incomplete JSON input")),
            JsonError::Other(m) => Error::DecodeError(m),
        }
    }
}

impl QueryParserError {
    /// A human-readable description, in place of a `Display` rendering.
    pub fn message(&self) -> (r: String)
        ensures
            match self {
                QueryParserError::ParameterTypeError(m) => r@ == "Parameter type error: "@ + m@,
                QueryParserError::InvalidParameterError(m) => r@ == "Invalid parameter: "@ + m@,
                QueryParserError::ParamsTooDeepError(m) => r@ == "Parameters too deep: "@ + m@,
            },
    {
        match self {
            QueryParserError::ParameterTypeError(m) => String::from_str(
                "Parameter type error: ",
            ).concat(m.as_str()),
            QueryParserError::InvalidParameterError(m) => String::from_str(
                "Invalid parameter: ",
            ).concat(m.as_str()),
            QueryParserError::ParamsTooDeepError(m) => String::from_str(
                "Parameters too deep: ",
            ).concat(m.as_str()),
        }
    }
}

} // verus!
