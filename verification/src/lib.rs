//! Nested request-parameter merge engine.
//!
//! Flat `key[sub][sub2]=value` strings from URL queries, form bodies and
//! multipart fields are folded into one structured value tree, JSON bodies
//! are parsed into the same tree, and the tree is then decoded into typed
//! destinations.

pub mod decode;
mod error;
pub mod ingest;
pub mod json;
pub mod laws;
pub mod query_parser;
pub mod strutil;
pub mod value;

pub use error::{Error, JsonError, QueryParserError};
pub use json::{parse_json, unescape_json_string};
pub use query_parser::{QueryParser, DEFAULT_PARAM_DEPTH_LIMIT};
pub use value::{IntoNumber, Number, UploadFile, Value, N};

use vstd::prelude::*;

verus! {

} // verus!
