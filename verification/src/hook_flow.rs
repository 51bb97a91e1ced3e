//! The smllm tool's hook calls as steps: from the hook and what the last
//! piece of outside work gave back to the next piece of work or the answer.

use vstd::prelude::*;

use crate::hook::answer::Answer;
use crate::text::{append_str, str_eq, string_of};

verus! {

/// The engine's verdict on whether a session may stop.
pub enum Stop {
    /// It may stop.
    Allow,
    /// It continues, with this reason as its input.
    Block(String),
    /// It was blocked too often in a row; it may stop, and the text goes to
    /// the user.
    Runaway(String),
}

/// What the last piece of outside work gave back.
pub enum HookEvent {
    /// The call began; the session key bound to the harness's session id,
    /// if there is one.
    Begin(Option<String>),
    /// The bound session's view, or `None` when the store has no such
    /// session.
    Viewed(Option<String>),
    /// Whether any config file lies at or above the working directory.
    ConfigFound(bool),
    /// A new session was bound; the text of its reply.
    Bound(String),
    /// The engine took note of the submitted prompt.
    Prompted,
    /// The engine's stop verdict.
    Stopped(Stop),
}

/// What to do next.
pub enum HookAction {
    /// Answer the harness; the call is done.
    Reply(Answer),
    /// Show the view of session `key`, if the store has it.
    View(String),
    /// Look for config files from the working directory up.
    FindConfig,
    /// Bind a new session in the working directory.
    Bind,
    /// Tell the engine that the user submitted a prompt in session `key`.
    Prompt(String),
    /// Ask the engine whether session `key` may stop; `active` says whether
    /// the agent already continues because of an earlier block.
    AskStop(String, bool),
}

/// An answer as plain values.
pub enum AnswerView {
    Allow(Option<Seq<char>>),
    Block(Seq<char>),
    Context(Seq<char>, Seq<char>),
}

/// A next step as plain values.
pub enum ActionView {
    Reply(AnswerView),
    View(Seq<char>),
    FindConfig,
    Bind,
    Prompt(Seq<char>),
    AskStop(Seq<char>, bool),
}

/// The plain value of an answer.
pub open spec fn answer_view(a: Answer) -> AnswerView {
    match a {
        Answer::Allow { stderr } => AnswerView::Allow(
            match stderr {
                Some(t) => Some(t@),
                None => None,
            },
        ),
        Answer::Block { reason } => AnswerView::Block(reason@),
        Answer::Context { event, context } => AnswerView::Context(event@, context@),
    }
}

/// The plain value of a next step.
pub open spec fn action_view(a: HookAction) -> ActionView {
    match a {
        HookAction::Reply(x) => ActionView::Reply(answer_view(x)),
        HookAction::View(k) => ActionView::View(k@),
        HookAction::FindConfig => ActionView::FindConfig,
        HookAction::Bind => ActionView::Bind,
        HookAction::Prompt(k) => ActionView::Prompt(k@),
        HookAction::AskStop(k, b) => ActionView::AskStop(k@, b),
    }
}

/// The answer that lets the agent go on: `{}`.
pub open spec fn allow() -> ActionView {
    ActionView::Reply(AnswerView::Allow(None))
}

/// Context added at the start of a session.
pub open spec fn start_context(text: Seq<char>) -> ActionView {
    ActionView::Reply(AnswerView::Context("SessionStart"@, text))
}

/// The hooks there are.
pub open spec fn known_hook(hook: Seq<char>) -> bool {
    hook == "session-start"@ || hook == "user-prompt-submit"@ || hook == "stop"@
}

/// The next step of a hook call. `session-start` shows the bound
/// session's view when the store has it, else binds a new session when a
/// config file is found, else lets the agent go on; `user-prompt-submit`
/// tells the engine of the prompt in a bound session and lets the agent go
/// on; `stop` asks the engine in a bound session and answers with its
/// verdict (a block, or `{}` with the runaway text for stderr). An event
/// that does not belong to the hook lets the agent go on.
pub open spec fn next_step(hook: Seq<char>, active: bool, e: HookEvent) -> ActionView {
    if hook == "session-start"@ {
        match e {
            HookEvent::Begin(Some(k)) => ActionView::View(k@),
            HookEvent::Begin(None) => ActionView::FindConfig,
            HookEvent::Viewed(Some(t)) => start_context(t@),
            HookEvent::Viewed(None) => ActionView::FindConfig,
            HookEvent::ConfigFound(found) => if found {
                ActionView::Bind
            } else {
                allow()
            },
            HookEvent::Bound(t) => start_context(t@),
            _ => allow(),
        }
    } else if hook == "user-prompt-submit"@ {
        match e {
            HookEvent::Begin(Some(k)) => ActionView::Prompt(k@),
            _ => allow(),
        }
    } else {
        match e {
            HookEvent::Begin(Some(k)) => ActionView::AskStop(k@, active),
            HookEvent::Stopped(Stop::Block(r)) => ActionView::Reply(AnswerView::Block(r@)),
            HookEvent::Stopped(Stop::Runaway(t)) => ActionView::Reply(AnswerView::Allow(Some(t@))),
            _ => allow(),
        }
    }
}

/// A hook call blocks the agent only where the engine does: the one step
/// that answers with a block is the `stop` hook's answer to the engine's
/// block verdict, and it passes the engine's reason on unchanged.
pub proof fn law_only_the_engine_blocks(hook: Seq<char>, active: bool, e: HookEvent, reason: Seq<char>)
    requires
        next_step(hook, active, e) == ActionView::Reply(AnswerView::Block(reason)),
    ensures
        hook != "session-start"@,
        hook != "user-prompt-submit"@,
        e matches HookEvent::Stopped(Stop::Block(r)) && r@ == reason,
{
}

/// A hook call for a harness session that no smllm session is bound to
/// does no engine work: its first step is to let the agent go on, or, at
/// session start, to look for a config.
pub proof fn law_unbound_sessions_are_left_alone(hook: Seq<char>, active: bool)
    ensures
        next_step(hook, active, HookEvent::Begin(None)) == (if hook == "session-start"@ {
            ActionView::FindConfig
        } else {
            allow()
        }),
{
}

fn allowed() -> (a: HookAction)
    ensures
        action_view(a) == allow(),
{
    HookAction::Reply(Answer::Allow { stderr: None })
}

fn started(text: String) -> (a: HookAction)
    ensures
        action_view(a) == start_context(text@),
{
    HookAction::Reply(Answer::Context { event: "SessionStart".to_string(), context: text })
}

/// One step of a hook call: what to do after `event`, for the hook named
/// `hook` (`session-start`, `user-prompt-submit` or `stop`) and the
/// harness's `stop_hook_active` flag. `Err("no hook named <hook>
/// (session-start, user-prompt-submit, stop)")` for any other hook.
pub fn hook_step(hook: &str, active: bool, event: HookEvent) -> (r: Result<HookAction, String>)
    ensures
        known_hook(hook@) ==> r is Ok && action_view(r->Ok_0) == next_step(hook@, active, event),
        !known_hook(hook@) ==> r is Err && r->Err_0@ == "no hook named "@ + hook@
            + " (session-start, user-prompt-submit, stop)"@,
{
    if str_eq(hook, "session-start") {
        Ok(match event {
            HookEvent::Begin(Some(k)) => HookAction::View(k),
            HookEvent::Begin(None) => HookAction::FindConfig,
            HookEvent::Viewed(Some(t)) => started(t),
            HookEvent::Viewed(None) => HookAction::FindConfig,
            HookEvent::ConfigFound(found) => if found {
                HookAction::Bind
            } else {
                allowed()
            },
            HookEvent::Bound(t) => started(t),
            _ => allowed(),
        })
    } else if str_eq(hook, "user-prompt-submit") {
        Ok(match event {
            HookEvent::Begin(Some(k)) => HookAction::Prompt(k),
            _ => allowed(),
        })
    } else if str_eq(hook, "stop") {
        Ok(match event {
            HookEvent::Begin(Some(k)) => HookAction::AskStop(k, active),
            HookEvent::Stopped(Stop::Block(r)) => HookAction::Reply(Answer::Block { reason: r }),
            HookEvent::Stopped(Stop::Runaway(t)) => HookAction::Reply(Answer::Allow { stderr: Some(t) }),
            _ => allowed(),
        })
    } else {
        let mut e: Vec<char> = Vec::new();
        append_str(&mut e, "no hook named ");
        append_str(&mut e, hook);
        append_str(&mut e, " (session-start, user-prompt-submit, stop)");
        Err(string_of(&e))
    }
}

} // verus!
