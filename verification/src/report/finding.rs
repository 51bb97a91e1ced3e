//! `Finding`: one line of a report.

use vstd::prelude::*;

use crate::text::{append_chars, append_decimal, append_str, chars_of, decimal, string_of};

verus! {

/// How a finding is reported.
#[derive(Debug, Clone, Copy, PartialEq, Eq, Structural, PartialOrd, Ord, Hash)]
pub enum Severity {
    /// A failure. Exit 1.
    Error,
    /// What the tool cannot settle alone.
    Warning,
    /// Worth knowing; never a failure.
    Info,
}

/// The level of a severity as the text report shows it.
pub open spec fn severity_name(s: Severity) -> Seq<char> {
    match s {
        Severity::Error => "error"@,
        Severity::Warning => "warning"@,
        Severity::Info => "info"@,
    }
}

impl Severity {
    /// The level as the text report shows it.
    pub fn as_str(self) -> (s: &'static str)
        ensures
            s@ == severity_name(self),
    {
        match self {
            Severity::Error => "error",
            Severity::Warning => "warning",
            Severity::Info => "info",
        }
    }
}

impl Default for Severity {
    fn default() -> (s: Self)
        ensures
            s == Severity::Error,
    {
        Severity::Error
    }
}

/// One line of the report.
#[derive(Debug, Clone, Hash)]
pub struct Finding {
    /// The file the finding is on, as the tool shows paths.
    pub path: String,
    /// The line, when one applies.
    pub line: Option<usize>,
    /// Error, warning or info.
    pub severity: Severity,
    /// The message.
    pub message: String,
    /// What the finding breaks, e.g. `CFG-3` or `spec §8`; shown in
    /// parentheses after the message. Empty for none.
    pub authority: String,
}

/// A finding as plain values.
pub struct FindingView {
    pub path: Seq<char>,
    pub line: Option<usize>,
    pub severity: Severity,
    pub message: Seq<char>,
    pub authority: Seq<char>,
}

impl View for Finding {
    type V = FindingView;

    open spec fn view(&self) -> FindingView {
        FindingView {
            path: self.path@,
            line: self.line,
            severity: self.severity,
            message: self.message@,
            authority: self.authority@,
        }
    }
}

/// `<message> (<authority>)`, or the message alone for no authority.
pub open spec fn full_message_of(f: FindingView) -> Seq<char> {
    if f.authority.len() == 0 {
        f.message
    } else {
        f.message + " ("@ + f.authority + ")"@
    }
}

/// `<path>:<line>: <level>: <full message>`, without `:<line>` when there is
/// none.
pub open spec fn line_of(f: FindingView) -> Seq<char> {
    match f.line {
        Some(n) => f.path + ":"@ + decimal(n as nat) + ": "@ + severity_name(f.severity) + ": "@
            + full_message_of(f),
        None => f.path + ": "@ + severity_name(f.severity) + ": "@ + full_message_of(f),
    }
}

impl Finding {
    /// Build a finding.
    pub fn new(path: &str, line: Option<usize>, severity: Severity, message: &str, authority: &str) -> (f: Self)
        ensures
            f@.path == path@,
            f@.line == line,
            f@.severity == severity,
            f@.message == message@,
            f@.authority == authority@,
    {
        Finding {
            path: path.to_owned(),
            line,
            severity,
            message: message.to_owned(),
            authority: authority.to_owned(),
        }
    }

    /// An error finding.
    pub fn error(path: &str, line: Option<usize>, message: &str, authority: &str) -> (f: Self)
        ensures
            f@ == (FindingView { path: path@, line, severity: Severity::Error, message: message@, authority: authority@ }),
    {
        Self::new(path, line, Severity::Error, message, authority)
    }

    /// A warning finding.
    pub fn warning(path: &str, line: Option<usize>, message: &str, authority: &str) -> (f: Self)
        ensures
            f@ == (FindingView { path: path@, line, severity: Severity::Warning, message: message@, authority: authority@ }),
    {
        Self::new(path, line, Severity::Warning, message, authority)
    }

    /// An info finding.
    pub fn info(path: &str, line: Option<usize>, message: &str, authority: &str) -> (f: Self)
        ensures
            f@ == (FindingView { path: path@, line, severity: Severity::Info, message: message@, authority: authority@ }),
    {
        Self::new(path, line, Severity::Info, message, authority)
    }

    /// The message with its authority: `<message> (<authority>)`.
    pub fn full_message(&self) -> (s: String)
        ensures
            s@ == full_message_of(self@),
    {
        let mut out = chars_of(self.message.as_str());
        if self.authority.as_str().is_empty() {
            return string_of(&out);
        }
        append_str(&mut out, " (");
        append_str(&mut out, self.authority.as_str());
        append_str(&mut out, ")");
        proof { reveal_strlit(" ("); reveal_strlit(")"); }
        string_of(&out)
    }

    /// The text line: `<path>:<line>: <level>: <message> (<authority>)`,
    /// without `:<line>` when there is none.
    pub fn to_line(&self) -> (s: String)
        ensures
            s@ == line_of(self@),
    {
        let mut out = chars_of(self.path.as_str());
        match self.line {
            Some(n) => {
                append_str(&mut out, ":");
                append_decimal(&mut out, n);
            },
            None => {},
        }
        append_str(&mut out, ": ");
        append_str(&mut out, self.severity.as_str());
        append_str(&mut out, ": ");
        let full = chars_of(self.full_message().as_str());
        append_chars(&mut out, &full);
        proof { reveal_strlit(":"); reveal_strlit(": "); }
        string_of(&out)
    }

    /// A copy with the same view.
    pub fn duplicate(&self) -> (f: Self)
        ensures
            f@ == self@,
    {
        Finding {
            path: self.path.clone(),
            line: self.line,
            severity: self.severity,
            message: self.message.clone(),
            authority: self.authority.clone(),
        }
    }

    /// Whether two findings hold the same values.
    pub fn same(&self, other: &Finding) -> (r: bool)
        ensures
            r == (self@ == other@),
    {
        let line_eq = match (self.line, other.line) {
            (Some(a), Some(b)) => a == b,
            (None, None) => true,
            _ => false,
        };
        self.path == other.path && line_eq && self.severity == other.severity
            && self.message == other.message && self.authority == other.authority
    }
}

} // verus!
