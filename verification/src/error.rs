//! The error taxonomy of the pipeline: parse, typecheck, import and I/O
//! errors are ordinary, recoverable results; stage-precondition violations
//! are kept apart (see `cache::CacheError`).

use vstd::prelude::*;
use crate::position::RawSpan;

verus! {

/// The parser failed: the span points into the source the handle denotes.
#[derive(Debug, PartialEq, Clone)]
pub struct ParseError {
    pub span: RawSpan,
    pub msg: String,
}

/// The typechecker failed.
#[derive(Debug, PartialEq, Clone)]
pub enum TypecheckError {
    /// A variable is bound neither by an enclosing `let` nor by the global
    /// environment.
    UnboundIdentifier(String),
}

/// An import failed. The optional span is the position of the `import`
/// expression itself, so diagnostics can point at the import site.
#[derive(Debug, PartialEq, Clone)]
pub enum ImportError {
    /// Loading the imported file failed: (path as written, I/O message,
    /// position of the import).
    IOError(String, String, Option<RawSpan>),
    /// The imported file failed to parse.
    ParseError(ParseError, Option<RawSpan>),
}

/// Any error the pipeline driver can surface.
#[derive(Debug, PartialEq, Clone)]
pub enum Error {
    Io(String),
    Parse(ParseError),
    Typecheck(TypecheckError),
    Import(ImportError),
}

} // verus!
