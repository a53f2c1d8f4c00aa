//! Errors reported while resolving references.

use vstd::prelude::*;

verus! {

/// The pattern error that `glob::glob` reports for a malformed pattern.
#[verifier::external_type_specification]
#[verifier::external_body]
pub struct ExPatternError(glob::PatternError);

/// An I/O error from the standard library.
#[verifier::external_type_specification]
#[verifier::external_body]
pub struct ExIoError(std::io::Error);

/// Errors that can occur during plugin execution.
#[derive(Debug)]
pub enum Error {
    /// Configuration error
    Config(String),
    /// Processing error during chapter transformation
    Processing { chapter: String, message: String },
    /// Reference resolution error
    Resolution { reference: String, reason: String },
    /// Invalid reference syntax
    InvalidSyntax { reference: String, reason: String },
    /// File not found when resolving glob pattern
    FileNotFound { pattern: String, reference: String },
    /// Multiple files found when expecting one
    AmbiguousReference { reference: String, files: Vec<String> },
    /// Unknown reference prefix
    UnknownPrefix { prefix: String, reference: String },
    /// Error reported by the book tool
    MdBook(String),
    /// IO error
    Io(std::io::Error),
    /// Glob pattern error
    GlobPattern(glob::PatternError),
}

/// The contents of an [`Error`], with each string read as its characters.
pub enum ErrorView {
    Config(Seq<char>),
    Processing { chapter: Seq<char>, message: Seq<char> },
    Resolution { reference: Seq<char>, reason: Seq<char> },
    InvalidSyntax { reference: Seq<char>, reason: Seq<char> },
    FileNotFound { pattern: Seq<char>, reference: Seq<char> },
    AmbiguousReference { reference: Seq<char>, files: Seq<Seq<char>> },
    UnknownPrefix { prefix: Seq<char>, reference: Seq<char> },
    MdBook(Seq<char>),
    Io,
    GlobPattern,
}

impl View for Error {
    type V = ErrorView;

    open spec fn view(&self) -> ErrorView {
        match self {
            Error::Config(m) => ErrorView::Config(m@),
            Error::Processing { chapter, message } => ErrorView::Processing {
                chapter: chapter@,
                message: message@,
            },
            Error::Resolution { reference, reason } => ErrorView::Resolution {
                reference: reference@,
                reason: reason@,
            },
            Error::InvalidSyntax { reference, reason } => ErrorView::InvalidSyntax {
                reference: reference@,
                reason: reason@,
            },
            Error::FileNotFound { pattern, reference } => ErrorView::FileNotFound {
                pattern: pattern@,
                reference: reference@,
            },
            Error::AmbiguousReference { reference, files } => ErrorView::AmbiguousReference {
                reference: reference@,
                files: files.deep_view(),
            },
            Error::UnknownPrefix { prefix, reference } => ErrorView::UnknownPrefix {
                prefix: prefix@,
                reference: reference@,
            },
            Error::MdBook(m) => ErrorView::MdBook(m@),
            Error::Io(_) => ErrorView::Io,
            Error::GlobPattern(_) => ErrorView::GlobPattern,
        }
    }
}

/// A result with its text and error read as plain values.
pub open spec fn result_view(r: Result<String, Error>) -> Result<Seq<char>, ErrorView> {
    match r {
        Ok(s) => Ok(s@),
        Err(e) => Err(e@),
    }
}

} // verus!
