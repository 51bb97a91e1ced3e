//! Harness integration: the write kinds (`region`, `merge`), the state of
//! each part, the record and the install decisions.

pub mod declined;
pub mod flow;
pub mod install;
pub mod merge;
pub mod observe;
pub mod part;
pub mod record;
pub mod region;
pub mod state;
pub mod tool;
pub mod write;
