//! What the checker reports back.

pub mod rule;

use vstd::prelude::*;

verus! {

/// How much the reader should care.
#[derive(Debug, Clone, Copy, PartialEq, Eq, Structural)]
pub enum Severity {
    /// Almost certainly wrong.
    Error,
    /// Suspicious, worth a look.
    Warning,
    /// Informational; a possible improvement.
    Info,
}

/// One problem found in the text.
#[derive(Debug, Clone, PartialEq, Eq)]
pub struct Diagnostic {
    /// Stable rule id, e.g. `MK_HOMOGLYPH`.
    pub rule: String,
    pub severity: Severity,
    /// Character offset of the first character of the span.
    pub char_start: usize,
    /// Character offset one past the last character of the span.
    pub char_end: usize,
    /// The offending text, so callers can render without re-slicing.
    pub text: String,
    /// Human-readable explanation, in Macedonian.
    pub message: String,
    /// Replacements, best first.
    pub suggestions: Vec<String>,
}

/// The content of a diagnostic.
pub struct Finding {
    pub rule: Seq<char>,
    pub severity: Severity,
    pub char_start: int,
    pub char_end: int,
    pub text: Seq<char>,
    pub message: Seq<char>,
    pub suggestions: Seq<Seq<char>>,
}

impl View for Diagnostic {
    type V = Finding;

    open spec fn view(&self) -> Finding {
        Finding {
            rule: self.rule@,
            severity: self.severity,
            char_start: self.char_start as int,
            char_end: self.char_end as int,
            text: self.text@,
            message: self.message@,
            suggestions: self.suggestions@.map_values(|s: String| s@),
        }
    }
}

/// The content of each diagnostic.
pub open spec fn findings(ds: Seq<Diagnostic>) -> Seq<Finding> {
    ds.map_values(|d: Diagnostic| d@)
}

} // verus!
