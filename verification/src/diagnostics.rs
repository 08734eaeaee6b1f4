//! LSP-compatible diagnostic types shared by gram tooling.
use vstd::prelude::*;

verus! {

/// How serious a diagnostic is.
#[derive(Clone, Copy, Debug, PartialEq, Eq, Structural)]
pub enum Severity {
    Error,
    Warning,
    Information,
    Hint,
}

/// A place in a document: 0-based line and 0-based column in UTF-16 code units.
#[derive(Clone, Copy, Debug, PartialEq, Eq, Structural)]
pub struct Position {
    pub line: u32,
    pub character: u32,
}

/// A span of a document, from `start` up to `end`.
#[derive(Clone, Copy, Debug, PartialEq, Eq, Structural)]
pub struct Range {
    pub start: Position,
    pub end: Position,
}

/// One finding of a linter.
#[derive(Debug)]
pub struct Diagnostic {
    pub severity: Severity,
    pub rule: String,
    pub message: String,
    pub range: Range,
    pub code: Option<String>,
}

/// The diagnostics of one file.
#[derive(Debug)]
pub struct FileResult {
    pub path: String,
    pub diagnostics: Vec<Diagnostic>,
}

/// The envelope of a machine-readable lint report.
#[derive(Debug)]
pub struct LintResult {
    pub schema_version: u32,
    pub tool: String,
    pub files: Vec<FileResult>,
}

} // verus!
