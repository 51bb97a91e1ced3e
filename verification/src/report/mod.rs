//! Findings and the report: severities error / warning / info, the text
//! form `<path>:<line>: <level>: <message> (<authority>)` with the counts
//! line.

pub mod collect;
pub mod finding;
pub mod text;

pub use collect::Report;
pub use finding::{Finding, Severity};
pub use text::report_text;
