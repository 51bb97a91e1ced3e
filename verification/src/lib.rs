//! Plumbing for command-line tools that plug into LLM agent harnesses:
//! hashing, the owned region of an instructions file, JSON merges, part
//! states, reports and hook answers.

pub mod cli;
pub mod commands;
pub mod error;
pub mod graph;
pub mod greeting;
pub mod harness;
pub mod hash;
pub mod hook;
pub mod hook_flow;
pub mod host;
pub mod json;
pub mod lines;
pub mod listing;
pub mod paths;
pub mod report;
pub mod scaffold;
pub mod smllm;
pub mod statusline;
pub mod store;
pub mod text;
pub mod validate;

use vstd::prelude::*;

verus! {

} // verus!
