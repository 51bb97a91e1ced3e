use smllm::hook::answer::Answer;
use smllm::hook_flow::{hook_step, HookAction, HookEvent, Stop};

fn step(hook: &str, active: bool, event: HookEvent) -> HookAction {
    match hook_step(hook, active, event) {
        Ok(a) => a,
        Err(e) => panic!("{e}"),
    }
}

fn reply_json(a: HookAction) -> String {
    match a {
        HookAction::Reply(answer) => answer.to_json(),
        _ => panic!("not a reply"),
    }
}

#[test]
fn session_start_shows_a_bound_session() {
    let a = step("session-start", false, HookEvent::Begin(Some("sm-1".to_string())));
    assert!(matches!(a, HookAction::View(ref k) if k == "sm-1"));
    let a = step("session-start", false, HookEvent::Viewed(Some("<smllm>view</smllm>".to_string())));
    match a {
        HookAction::Reply(Answer::Context { event, context }) => {
            assert_eq!(event, "SessionStart");
            assert_eq!(context, "<smllm>view</smllm>");
        },
        _ => panic!("expected context"),
    }
}

#[test]
fn session_start_binds_where_a_config_is_found() {
    assert!(matches!(step("session-start", false, HookEvent::Begin(None)), HookAction::FindConfig));
    assert!(matches!(step("session-start", false, HookEvent::Viewed(None)), HookAction::FindConfig));
    assert!(matches!(step("session-start", false, HookEvent::ConfigFound(true)), HookAction::Bind));
    assert_eq!(reply_json(step("session-start", false, HookEvent::ConfigFound(false))), "{}");
    let a = step("session-start", false, HookEvent::Bound("bound".to_string()));
    assert_eq!(
        reply_json(a),
        "{\"hookSpecificOutput\":{\"hookEventName\":\"SessionStart\",\"additionalContext\":\"bound\"}}"
    );
}

#[test]
fn a_prompt_is_noted_in_a_bound_session() {
    let a = step("user-prompt-submit", false, HookEvent::Begin(Some("sm-1".to_string())));
    assert!(matches!(a, HookAction::Prompt(ref k) if k == "sm-1"));
    assert_eq!(reply_json(step("user-prompt-submit", false, HookEvent::Prompted)), "{}");
    assert_eq!(reply_json(step("user-prompt-submit", false, HookEvent::Begin(None))), "{}");
}

#[test]
fn stop_answers_with_the_engine_verdict() {
    assert_eq!(reply_json(step("stop", false, HookEvent::Begin(None))), "{}");
    let a = step("stop", true, HookEvent::Begin(Some("sm-1".to_string())));
    assert!(matches!(a, HookAction::AskStop(ref k, true) if k == "sm-1"));
    assert_eq!(reply_json(step("stop", false, HookEvent::Stopped(Stop::Allow))), "{}");
    assert_eq!(
        reply_json(step("stop", false, HookEvent::Stopped(Stop::Block("fire an event".to_string())))),
        "{\"decision\":\"block\",\"reason\":\"fire an event\"}"
    );
    match step("stop", false, HookEvent::Stopped(Stop::Runaway("blocked too often".to_string()))) {
        HookAction::Reply(answer) => {
            assert_eq!(answer.to_json(), "{}");
            assert_eq!(answer.stderr(), Some("blocked too often"));
        },
        _ => panic!("expected a reply"),
    }
}

#[test]
fn an_unknown_hook_is_refused() {
    match hook_step("pre-tool-use", false, HookEvent::Begin(None)) {
        Err(e) => assert_eq!(e, "no hook named pre-tool-use (session-start, user-prompt-submit, stop)"),
        Ok(_) => panic!("accepted"),
    }
}
