//! The errors of the library, with their details as plain values.

use vstd::prelude::*;

verus! {

/// Errors of placeholder handling.
#[derive(Debug)]
pub enum KissReplaceError {
    /// A name that is not `[a-zA-Z_][a-zA-Z0-9_]*`.
    InvalidVariableName(String),
    /// A path whose text is not UTF-8.
    InvalidUtf8,
}

/// Errors of loading and generating a template.
#[derive(Debug)]
pub enum InheritError {
    /// An I/O operation failed; the text describes it.
    Io(String),
    /// The template has no `Inherit.toml`; the text is the path looked at.
    ManifestNotFound(String),
    /// `Inherit.toml` is not a valid manifest; the text is the parser's message.
    ManifestParse(String),
    /// Required variables that have no (or an empty) value.
    MissingVariables(Vec<String>),
    /// A supplied variable whose name is not valid.
    InvalidVariable(String),
    /// A command exited unsuccessfully.
    CommandFailed { cmd: String, status: String },
    /// An error of placeholder handling.
    KissReplace(KissReplaceError),
}

/// Errors of fetching an artifact into the cache.
#[derive(Debug)]
pub enum LazyGetError {
    /// An I/O operation failed; the text describes it.
    Io(String),
    /// The fetch operation reported a failure; the text describes it.
    Fetch(String),
    /// The cache directory could not be created; the text describes why.
    CacheCreate(String),
    /// The fetched artifact could not be moved into place; the text describes why.
    AtomicRename(String),
}

} // verus!
