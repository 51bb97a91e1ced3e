//! A hook's input and answer, and what a hook run prints: JSON on stdout
//! and exit 0, or on failure exit 1 with the message on stderr and nothing
//! on stdout, so a hook never wedges the agent.

use vstd::prelude::*;

use crate::json::{json_quoted, quote};
use crate::json::copy_string;
use crate::text::{append_str, chars_of, string_of};

verus! {

/// The fields of a hook's input the kit knows. Every field is optional;
/// unknown fields are ignored.
#[derive(Debug)]
pub struct HookInput {
    /// The harness's session id.
    pub session_id: Option<String>,
    /// The transcript file.
    pub transcript_path: Option<String>,
    /// The agent's working directory.
    pub cwd: Option<String>,
    /// The event, e.g. `Stop`, `SessionStart`, `UserPromptSubmit`.
    pub hook_event_name: Option<String>,
    /// `SessionStart`: `startup`, `resume`, `clear` or `compact`.
    pub source: Option<String>,
    /// `UserPromptSubmit`: the user's prompt.
    pub prompt: Option<String>,
    /// `Stop`: whether the agent already continues because of a stop hook.
    pub stop_hook_active: Option<bool>,
}

impl Default for HookInput {
    fn default() -> (i: Self)
        ensures
            i.session_id is None,
            i.transcript_path is None,
            i.cwd is None,
            i.hook_event_name is None,
            i.source is None,
            i.prompt is None,
            i.stop_hook_active is None,
    {
        HookInput {
            session_id: None,
            transcript_path: None,
            cwd: None,
            hook_event_name: None,
            source: None,
            prompt: None,
            stop_hook_active: None,
        }
    }
}

/// A hook's answer to the agent.
#[derive(Debug)]
pub enum Answer {
    /// Nothing to say: `{}`. For `Stop`, the agent may stop. `stderr`
    /// carries text for the user, e.g. a report the hook already blocked on.
    Allow {
        /// Text for stderr, when there is one.
        stderr: Option<String>,
    },
    /// `Stop`: the agent continues with the reason as its input:
    /// `{"decision": "block", "reason": …}`.
    Block {
        /// The reason.
        reason: String,
    },
    /// `SessionStart` / `UserPromptSubmit`: text added to the agent's
    /// context: `{"hookSpecificOutput": {"hookEventName": …,
    /// "additionalContext": …}}`.
    Context {
        /// The event name, e.g. `SessionStart`.
        event: String,
        /// The text.
        context: String,
    },
}

/// The JSON object the agent reads on stdout.
pub open spec fn answer_json(a: Answer) -> Seq<char> {
    match a {
        Answer::Allow { .. } => "{}"@,
        Answer::Block { reason } => "{\"decision\":\"block\",\"reason\":"@ + json_quoted(reason@) + "}"@,
        Answer::Context { event, context } => "{\"hookSpecificOutput\":{\"hookEventName\":"@ + json_quoted(event@)
            + ",\"additionalContext\":"@ + json_quoted(context@) + "}}"@,
    }
}

/// The text an answer has for stderr.
pub open spec fn answer_stderr(a: Answer) -> Option<Seq<char>> {
    match a {
        Answer::Allow { stderr: Some(t) } => Some(t@),
        _ => None,
    }
}

impl Answer {
    /// The JSON object the agent reads on stdout.
    pub fn to_json(&self) -> (s: String)
        ensures
            s@ == answer_json(*self),
    {
        proof {
            reveal_strlit("{}");
            reveal_strlit("{\"decision\":\"block\",\"reason\":");
            reveal_strlit("}");
            reveal_strlit("{\"hookSpecificOutput\":{\"hookEventName\":");
            reveal_strlit(",\"additionalContext\":");
            reveal_strlit("}}");
        }
        match self {
            Answer::Allow { .. } => "{}".to_string(),
            Answer::Block { reason } => {
                let mut out = chars_of("{\"decision\":\"block\",\"reason\":");
                append_str(&mut out, quote(reason.as_str()).as_str());
                append_str(&mut out, "}");
                string_of(&out)
            },
            Answer::Context { event, context } => {
                let mut out = chars_of("{\"hookSpecificOutput\":{\"hookEventName\":");
                append_str(&mut out, quote(event.as_str()).as_str());
                append_str(&mut out, ",\"additionalContext\":");
                append_str(&mut out, quote(context.as_str()).as_str());
                append_str(&mut out, "}}");
                string_of(&out)
            },
        }
    }

    /// The text for stderr, when there is one.
    pub fn stderr(&self) -> (r: Option<&str>)
        ensures
            crate::harness::region::opt_view(r) == answer_stderr(*self),
    {
        match self {
            Answer::Allow { stderr: Some(t) } => Some(t.as_str()),
            _ => None,
        }
    }
}

/// What a hook run prints and its exit code.
#[derive(Debug)]
pub struct Emitted {
    /// The text for stdout.
    pub stdout: String,
    /// The text for stderr.
    pub stderr: String,
    /// The exit code.
    pub code: u8,
}

/// What a hook run prints for its outcome. An answer: its stderr text, the
/// JSON and a newline on stdout, exit 0. A failure: `error: <message>` on
/// stderr, nothing on stdout, exit 1.
pub open spec fn emitted(outcome: Result<Answer, Seq<char>>) -> (Seq<char>, Seq<char>, u8) {
    match outcome {
        Ok(a) => (
            answer_json(a) + "\n"@,
            match answer_stderr(a) {
                Some(t) => t,
                None => Seq::empty(),
            },
            0u8,
        ),
        Err(m) => (Seq::empty(), "error: "@ + m + "\n"@, 1u8),
    }
}

/// The plain outcome of a hook.
pub open spec fn outcome_view(r: Result<Answer, String>) -> Result<Answer, Seq<char>> {
    match r {
        Ok(a) => Ok(a),
        Err(m) => Err(m@),
    }
}

/// What a hook run prints for its outcome, and its exit code: an answer's
/// stderr text, its JSON and a newline on stdout and exit 0; for a failure
/// `error: <message>` on stderr, nothing on stdout, exit 1.
pub fn emit(outcome: &Result<Answer, String>) -> (e: Emitted)
    ensures
        (e.stdout@, e.stderr@, e.code) == emitted(outcome_view(*outcome)),
{
    proof {
        reveal_strlit("\n");
        reveal_strlit("error: ");
    }
    match outcome {
        Ok(answer) => {
            let mut out = chars_of(answer.to_json().as_str());
            out.push('\n');
            let err = match answer.stderr() {
                Some(t) => t.to_string(),
                None => String::new(),
            };
            Emitted { stdout: string_of(&out), stderr: err, code: 0 }
        },
        Err(m) => {
            let mut err = chars_of("error: ");
            append_str(&mut err, m.as_str());
            err.push('\n');
            Emitted { stdout: String::new(), stderr: string_of(&err), code: 1 }
        },
    }
}

} // verus!
