//! Diagnostics: one error (or note) with its location, stable code, and
//! a teaching help line.

use vstd::prelude::*;

use crate::span::Span;

verus! {

/// One diagnostic. `code` is the stable `E`-code (the contract tests
/// assert on); `file` is the index of the file `span` points into.
#[derive(Debug)]
pub struct Diag {
    /// Where the problem is.
    pub span: Span,
    /// What is wrong, in one sentence.
    pub msg: String,
    /// Stable error code, e.g. `E0101`.
    pub code: Option<&'static str>,
    /// Index of the file `span` points into.
    pub file: Option<usize>,
    /// How to fix it.
    pub help: Option<String>,
}

impl Diag {
    /// A diagnostic with only a location and a message.
    pub fn new(span: Span, msg: String) -> (d: Diag)
        ensures
            d.span == span,
            d.msg@ == msg@,
            d.code.is_none(),
            d.file.is_none(),
            d.help.is_none(),
    {
        Diag { span, msg, code: None, file: None, help: None }
    }

    /// The same diagnostic, carrying `code`.
    pub fn with_code(self, code: &'static str) -> (d: Diag)
        ensures
            d.span == self.span,
            d.msg == self.msg,
            d.code == Some(code),
            d.file == self.file,
            d.help == self.help,
    {
        Diag { code: Some(code), ..self }
    }

    /// The same diagnostic, pointing into file `file`.
    pub fn with_file(self, file: usize) -> (d: Diag)
        ensures
            d.span == self.span,
            d.msg == self.msg,
            d.code == self.code,
            d.file == Some(file),
            d.help == self.help,
    {
        Diag { file: Some(file), ..self }
    }

    /// The same diagnostic, carrying the help line `help`.
    pub fn with_help(self, help: String) -> (d: Diag)
        ensures
            d.span == self.span,
            d.msg == self.msg,
            d.code == self.code,
            d.file == self.file,
            d.help == Some(help),
    {
        Diag { help: Some(help), ..self }
    }
}

} // verus!
