//! Key-value pairs and URL query parameters.

use vstd::prelude::*;

verus! {

/// A key and a value, such as a header or a variable.
#[derive(Clone, Debug, PartialEq, Eq)]
pub struct KeyValue {
    pub key: String,
    pub value: String,
}

/// A query parameter to be included in a URL.
#[derive(Clone, Debug, PartialEq, Eq, Default)]
pub struct URLQuery {
    /// The key or name of the query parameter.
    pub key: String,
    /// The value, or a mustache template that resolves it.
    pub value: String,
    /// Whether to leave the parameter out when its value is empty.
    pub skip_empty: Option<bool>,
}

} // verus!
