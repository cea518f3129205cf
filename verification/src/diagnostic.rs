//! Structured diagnostics reported alongside analysis results.
use vstd::prelude::*;

use crate::source::TextRange;

verus! {

#[derive(Clone, Copy, Debug, PartialEq, Eq, Structural, Hash, PartialOrd, Ord)]
pub enum DiagnosticSeverity {
    Error,
    Warning,
}

/// A coded problem report, optionally attached to a file and a byte range.
#[derive(Clone, Debug, PartialEq, Eq)]
pub struct Diagnostic {
    pub code: String,
    pub severity: DiagnosticSeverity,
    pub message: String,
    pub path: Option<String>,
    pub range: Option<TextRange>,
}

impl Diagnostic {
    /// An error diagnostic with no location.
    pub fn error(code: &str, message: &str) -> (d: Self)
        ensures
            d.code@ == code@,
            d.severity == DiagnosticSeverity::Error,
            d.message@ == message@,
            d.path is None,
            d.range is None,
    {
        Diagnostic {
            code: code.to_owned(),
            severity: DiagnosticSeverity::Error,
            message: message.to_owned(),
            path: None,
            range: None,
        }
    }

    /// A warning diagnostic with no location.
    pub fn warning(code: &str, message: &str) -> (d: Self)
        ensures
            d.code@ == code@,
            d.severity == DiagnosticSeverity::Warning,
            d.message@ == message@,
            d.path is None,
            d.range is None,
    {
        Diagnostic {
            code: code.to_owned(),
            severity: DiagnosticSeverity::Warning,
            message: message.to_owned(),
            path: None,
            range: None,
        }
    }

    /// The same diagnostic attached to `path`.
    pub fn with_path(self, path: String) -> (d: Self)
        ensures
            d.code == self.code,
            d.severity == self.severity,
            d.message == self.message,
            d.path == Some(path),
            d.range == self.range,
    {
        Diagnostic { path: Some(path), ..self }
    }

    /// The same diagnostic attached to `range`.
    pub fn with_range(self, range: TextRange) -> (d: Self)
        ensures
            d.code == self.code,
            d.severity == self.severity,
            d.message == self.message,
            d.path == self.path,
            d.range == Some(range),
    {
        Diagnostic { range: Some(range), ..self }
    }
}

} // verus!
