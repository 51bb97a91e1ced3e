//! Agent hooks: the hook input, the answers, and the loop guard of a
//! blocking hook.

pub mod answer;
pub mod guard;
