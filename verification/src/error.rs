//! The crate's error type.

use vstd::prelude::*;

use crate::text::{append_str, string_of};

verus! {

/// Everything that can go wrong in the kit.
#[derive(Debug)]
pub enum Error {
    /// A refusal: an unknown profile or part, or a file the kit must read
    /// that does not parse. Nothing is written when one is returned from an
    /// install. A CLI reports it as a usage error.
    Harness(String),
    /// An I/O failure on `path`, with the failure's own text.
    Io {
        /// The path being operated on.
        path: String,
        /// What went wrong.
        detail: String,
    },
    /// A bug or an inconsistent profile.
    Internal(String),
}

/// An error as plain values.
pub enum ErrorView {
    Harness(Seq<char>),
    Io(Seq<char>, Seq<char>),
    Internal(Seq<char>),
}

impl View for Error {
    type V = ErrorView;

    open spec fn view(&self) -> ErrorView {
        match self {
            Error::Harness(m) => ErrorView::Harness(m@),
            Error::Io { path, detail } => ErrorView::Io(path@, detail@),
            Error::Internal(m) => ErrorView::Internal(m@),
        }
    }
}

/// The text of an error, as a CLI shows it after `error: `.
pub open spec fn error_text(e: ErrorView) -> Seq<char> {
    match e {
        ErrorView::Harness(m) => m,
        ErrorView::Io(p, d) => p + ": "@ + d,
        ErrorView::Internal(m) => "internal: "@ + m,
    }
}

impl Error {
    /// An [`Error::Io`] for `path`.
    pub fn io(path: &str, detail: &str) -> (e: Self)
        ensures
            e@ == ErrorView::Io(path@, detail@),
    {
        Error::Io { path: path.to_string(), detail: detail.to_string() }
    }

    /// The error's text.
    pub fn message(&self) -> (s: String)
        ensures
            s@ == error_text(self@),
    {
        let mut out: Vec<char> = Vec::new();
        match self {
            Error::Harness(m) => {
                append_str(&mut out, m.as_str());
            },
            Error::Io { path, detail } => {
                append_str(&mut out, path.as_str());
                append_str(&mut out, ": ");
                append_str(&mut out, detail.as_str());
            },
            Error::Internal(m) => {
                append_str(&mut out, "internal: ");
                append_str(&mut out, m.as_str());
            },
        }
        proof {
            reveal_strlit(": ");
            reveal_strlit("internal: ");
        }
        string_of(&out)
    }
}

} // verus!
