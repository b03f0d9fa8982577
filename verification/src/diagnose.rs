//! Diagnostics reported while validating a notebook.

use vstd::prelude::*;

verus! {

/// How serious a diagnostic is.
#[derive(Debug, Clone, Copy, PartialEq, Eq, Structural)]
pub enum Severity {
    Error,
    Warning,
}

/// A message about the notebook, optionally attached to one cell.
#[derive(Debug, Clone)]
pub struct Diagnostic {
    pub severity: Severity,
    pub message: String,
    pub cell: Option<String>,
}

/// The plain content of a diagnostic: severity, message, cell.
pub type DiagView = (Severity, Seq<char>, Option<Seq<char>>);

impl Diagnostic {
    pub open spec fn view_of(self) -> DiagView {
        (self.severity, self.message@, match self.cell {
            Some(c) => Some(c@),
            None => None,
        })
    }

    /// An error attached to no cell.
    pub fn error(message: String) -> (d: Diagnostic)
        ensures
            d.view_of() == (Severity::Error, message@, None::<Seq<char>>),
    {
        Diagnostic { severity: Severity::Error, message, cell: None }
    }

    /// An error attached to `cell`.
    pub fn error_in(cell: &String, message: String) -> (d: Diagnostic)
        ensures
            d.view_of() == (Severity::Error, message@, Some(cell@)),
    {
        Diagnostic { severity: Severity::Error, message, cell: Some(cell.clone()) }
    }

    /// A warning attached to no cell.
    pub fn warning(message: String) -> (d: Diagnostic)
        ensures
            d.view_of() == (Severity::Warning, message@, None::<Seq<char>>),
    {
        Diagnostic { severity: Severity::Warning, message, cell: None }
    }

    /// A copy of this diagnostic.
    pub fn duplicate(&self) -> (d: Diagnostic)
        ensures
            d.view_of() == self.view_of(),
    {
        let cell = match &self.cell {
            Some(c) => Some(c.clone()),
            None => None,
        };
        Diagnostic { severity: self.severity, message: self.message.clone(), cell }
    }

    /// Whether this diagnostic is an error.
    pub fn is_error(&self) -> (b: bool)
        ensures
            b == (self.severity == Severity::Error),
    {
        self.severity == Severity::Error
    }
}

} // verus!
