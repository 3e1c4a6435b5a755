//! The formats a configuration can be written in, and how a file name
//! tells which one it is.

use vstd::prelude::*;
use crate::strings::{copy_str, str_eq};

verus! {

/// What `str::to_lowercase` returns for a string: its lowercase equivalent
/// under Unicode's rules.
pub uninterp spec fn lowercase(s: Seq<char>) -> Seq<char>;

/// What `Path::extension` gives for a path, as a string: the part of the
/// file name after its last `.`.
pub uninterp spec fn extension_of(name: Seq<char>) -> Option<Seq<char>>;

/// The lowercase form of a string.
///
/// Calls `str::to_lowercase`; its result follows Unicode's case mapping,
/// which is named here, not stated.
#[verifier::external_body]
fn to_lowercase(s: &str) -> (r: String)
    ensures
        r@ == lowercase(s@),
{
    s.to_lowercase()
}

/// The extension of a file name.
///
/// Calls `Path::extension` on the name; the result, where it is valid
/// text, is named here, not stated.
#[verifier::external_body]
fn path_extension(name: &str) -> (r: Option<String>)
    ensures
        r matches Some(e) ==> extension_of(name@) == Some(e@),
        r is None ==> extension_of(name@) is None,
{
    std::path::Path::new(name).extension().and_then(|e| e.to_str()).map(|e| e.to_string())
}

/// A format a configuration can be written in.
#[derive(Clone, Copy, Debug, PartialEq, Eq)]
pub enum Source {
    Json,
    Yml,
    GraphQL,
}

impl Default for Source {
    fn default() -> (r: Source)
        ensures
            r == Source::GraphQL,
    {
        Source::GraphQL
    }
}

/// Why a format could not be told.
#[derive(Clone, Debug, PartialEq, Eq)]
pub enum SourceError {
    UnsupportedFileFormat(String),
    InvalidPath(String),
}

impl SourceError {
    /// The message of the error.
    pub fn message(&self) -> (r: String)
        ensures
            self matches SourceError::UnsupportedFileFormat(s) ==> (r@ == "Unsupported config extension: "@ + s@),
            self matches SourceError::InvalidPath(_) ==> r@ == "Cannot parse"@,
    {
        match self {
            SourceError::UnsupportedFileFormat(s) => crate::strings::concat_str(
                "Unsupported config extension: ",
                s.as_str(),
            ),
            SourceError::InvalidPath(_) => copy_str("Cannot parse"),
        }
    }
}

/// The format a lowercase extension names.
pub open spec fn format_of(lower: Seq<char>) -> Option<Source> {
    if lower == "json"@ {
        Some(Source::Json)
    } else if lower == "yml"@ || lower == "yaml"@ {
        Some(Source::Yml)
    } else if lower == "graphql"@ || lower == "gql"@ {
        Some(Source::GraphQL)
    } else {
        None
    }
}

/// What parsing `s`, whose lowercase form is `lower`, gives.
pub open spec fn parsed(lower: Seq<char>, s: Seq<char>, r: Result<Source, SourceError>) -> bool {
    match format_of(lower) {
        Some(f) => r == Ok::<Source, SourceError>(f),
        None => r matches Err(SourceError::UnsupportedFileFormat(x)) && x@ == s,
    }
}

/// The file extension of a format.
pub open spec fn ext_of(s: Source) -> Seq<char> {
    match s {
        Source::Json => "json"@,
        Source::Yml => "yml"@,
        Source::GraphQL => "graphql"@,
    }
}

/// The extension of every format names that format again.
pub proof fn law_ext_names_format(s: Source)
    ensures
        format_of(ext_of(s)) == Some(s),
{
    reveal_strlit("json");
    reveal_strlit("yml");
    reveal_strlit("yaml");
    reveal_strlit("graphql");
    reveal_strlit("gql");
    assert("yml"@.len() != "json"@.len());
    assert("graphql"@.len() != "json"@.len());
    assert("graphql"@.len() != "yml"@.len());
    assert("graphql"@.len() != "yaml"@.len());
}

impl Source {
    /// The file extension of the format.
    pub fn ext(&self) -> (r: &'static str)
        ensures
            r@ == ext_of(*self),
    {
        proof {
            reveal_strlit("json");
            reveal_strlit("yml");
            reveal_strlit("graphql");
        }
        match self {
            Source::Json => "json",
            Source::Yml => "yml",
            Source::GraphQL => "graphql",
        }
    }

    /// The name of the format.
    pub fn name(&self) -> (r: String)
        ensures
            r@ == (match self {
                Source::Json => "JSON"@,
                Source::Yml => "YML"@,
                Source::GraphQL => "GraphQL"@,
            }),
    {
        match self {
            Source::Json => copy_str("JSON"),
            Source::Yml => copy_str("YML"),
            Source::GraphQL => copy_str("GraphQL"),
        }
    }

    /// The format named by `lower`, the lowercase form of `s`; the error
    /// carries `s`.
    pub fn from_lowercase(lower: &str, s: &str) -> (r: Result<Source, SourceError>)
        ensures
            parsed(lower@, s@, r),
    {
        proof {
            reveal_strlit("json");
            reveal_strlit("yml");
            reveal_strlit("yaml");
            reveal_strlit("graphql");
            reveal_strlit("gql");
        }
        if str_eq(lower, "json") {
            Ok(Source::Json)
        } else if str_eq(lower, "yml") || str_eq(lower, "yaml") {
            Ok(Source::Yml)
        } else if str_eq(lower, "graphql") || str_eq(lower, "gql") {
            Ok(Source::GraphQL)
        } else {
            Err(SourceError::UnsupportedFileFormat(copy_str(s)))
        }
    }

    /// The format named by `s`, whatever its case.
    pub fn parse(s: &str) -> (r: Result<Source, SourceError>)
        ensures
            parsed(lowercase(s@), s@, r),
    {
        let lower = to_lowercase(s);
        Source::from_lowercase(lower.as_str(), s)
    }

    /// The format a file name's extension names, or `InvalidPath` when the
    /// name has no extension.
    pub fn detect(name: &str) -> (r: Result<Source, SourceError>)
        ensures
            extension_of(name@) is None ==> (r matches Err(SourceError::InvalidPath(x)) && x@ == name@),
            extension_of(name@) matches Some(e) ==> parsed(lowercase(e), e, r),
    {
        match path_extension(name) {
            None => Err(SourceError::InvalidPath(copy_str(name))),
            Some(e) => Source::parse(e.as_str()),
        }
    }
}

impl std::str::FromStr for Source {
    type Err = SourceError;

    fn from_str(s: &str) -> (r: Result<Source, SourceError>)
        ensures
            parsed(lowercase(s@), s@, r),
    {
        Source::parse(s)
    }
}

} // verus!
