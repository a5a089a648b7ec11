//! The data model of protofetch: module descriptors, lock files and the
//! errors met while reading them.
pub mod protodep;
pub mod protofetch;

use vstd::prelude::*;

use crate::toml_doc::TomlValue;

verus! {

/// What can go wrong while reading a descriptor, a lock file or one of their parts.
#[derive(Debug, PartialEq)]
pub enum ParseError {
    /// A file could not be read; the message of the system.
    Io(String),
    /// The text is not a TOML document; the message of the TOML parser.
    Toml(String),
    /// A required key is absent.
    MissingKey(String),
    /// A key holds a value of the wrong kind.
    InvalidValue(String),
    /// An allow or deny policy rule that is none of the three forms.
    ParsePolicyRuleError(String),
    /// A url that is not `forge/organization/repository`: the component and the url.
    MissingUrlComponent(String, String),
    /// A protocol other than `https` and `ssh` (lower-cased).
    InvalidProtocol(String),
    /// A lock file whose `version` is not the supported one.
    UnsupportedLockFileVersion(TomlValue),
    /// A lock file without `version`: the version it is taken to be.
    OldLockFileVersion(i64),
}

/// The content of a parse error.
pub enum ParseErrorView {
    Io(Seq<char>),
    Toml(Seq<char>),
    MissingKey(Seq<char>),
    InvalidValue(Seq<char>),
    ParsePolicyRuleError(Seq<char>),
    MissingUrlComponent(Seq<char>, Seq<char>),
    InvalidProtocol(Seq<char>),
    UnsupportedLockFileVersion(TomlValue),
    OldLockFileVersion(i64),
}

impl View for ParseError {
    type V = ParseErrorView;

    open spec fn view(&self) -> ParseErrorView {
        match self {
            ParseError::Io(m) => ParseErrorView::Io(m@),
            ParseError::Toml(m) => ParseErrorView::Toml(m@),
            ParseError::MissingKey(k) => ParseErrorView::MissingKey(k@),
            ParseError::InvalidValue(k) => ParseErrorView::InvalidValue(k@),
            ParseError::ParsePolicyRuleError(r) => ParseErrorView::ParsePolicyRuleError(r@),
            ParseError::MissingUrlComponent(c, u) => ParseErrorView::MissingUrlComponent(c@, u@),
            ParseError::InvalidProtocol(p) => ParseErrorView::InvalidProtocol(p@),
            ParseError::UnsupportedLockFileVersion(v) => ParseErrorView::UnsupportedLockFileVersion(
                *v,
            ),
            ParseError::OldLockFileVersion(n) => ParseErrorView::OldLockFileVersion(*n),
        }
    }
}

/// A parse error naming a key.
pub fn missing_key(k: &str) -> (r: ParseError)
    ensures
        r@ == ParseErrorView::MissingKey(k@),
{
    ParseError::MissingKey(String::from_str(k))
}

/// A parse error for a key holding a value of the wrong kind.
pub fn invalid_value(k: &str) -> (r: ParseError)
    ensures
        r@ == ParseErrorView::InvalidValue(k@),
{
    ParseError::InvalidValue(String::from_str(k))
}

} // verus!
