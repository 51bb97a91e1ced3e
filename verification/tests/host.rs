use smllm::host::{
    description, input_schema, invocation, outcome, tail, timeout_secs, Ended, Files, RunParam,
    DEFAULT_TIMEOUT_SECS, TAIL_CHARS,
};
use smllm::host::call_args;
use smllm::json::{compact_text, Json};

#[test]
fn tails_are_short_single_lines() {
    assert_eq!(tail(" a\nb \n"), "a b");
    let long = "x".repeat(1000);
    let t = tail(&long);
    assert!(t.starts_with('…') && t.chars().count() <= TAIL_CHARS + 1);
    assert_eq!(t.chars().count(), TAIL_CHARS + 1);
    let exact = "y".repeat(TAIL_CHARS);
    assert_eq!(tail(&exact), exact);
}

#[test]
fn files_patterns_clock_ids() {
    assert!(Files.is_match("^GH-\\d+$", "GH-12").unwrap());
    assert!(!Files.is_match("^GH-\\d+$", "x").unwrap());
    assert!(Files.is_match("(", "x").is_err());
}

#[test]
fn shell_exec_env_timeout_and_failure() {
    // A string goes through the shell; a list runs directly.
    let i = invocation(&RunParam::Shell("test \"$SMLLM_REF\" = GH-1".into()), false).unwrap();
    assert_eq!(i.program, "sh");
    assert_eq!(i.args, vec!["-c".to_string(), "test \"$SMLLM_REF\" = GH-1".to_string()]);
    let i = invocation(&RunParam::Shell("dir".into()), true).unwrap();
    assert_eq!((i.program.as_str(), i.args[0].as_str()), ("cmd", "/C"));
    let i = invocation(&RunParam::Argv(vec!["true".into()]), false).unwrap();
    assert_eq!(i.program, "true");
    assert!(i.args.is_empty());
    assert_eq!(invocation(&RunParam::Argv(vec![]), false).unwrap_err(), "no run param");
    assert_eq!(invocation(&RunParam::Missing, false).unwrap_err(), "no run param");
    // How a run ended, as the outcome reports it.
    assert_eq!(outcome(&Ended::Exited(true, Some(0)), "ignored"), (true, String::new()));
    assert_eq!(
        outcome(&Ended::Exited(false, Some(3)), "boom\n"),
        (false, "exited 3: boom".to_string())
    );
    assert_eq!(outcome(&Ended::Exited(false, Some(-1)), ""), (false, "exited -1".to_string()));
    assert_eq!(
        outcome(&Ended::Exited(false, None), ""),
        (false, "killed by a signal".to_string())
    );
    let (ok, detail) = outcome(&Ended::CouldNotStart("No such file".into()), "");
    assert!(!ok && detail.starts_with("could not start"));
    assert_eq!(
        outcome(&Ended::TimedOut(1), ""),
        (false, "timed out after 1s".to_string())
    );
    assert_eq!(
        outcome(&Ended::WaitFailed("x".into()), ""),
        (false, "wait failed: x".to_string())
    );
    assert_eq!(timeout_secs(Some(1)), 1);
    assert_eq!(timeout_secs(Some(-5)), DEFAULT_TIMEOUT_SECS);
    assert_eq!(timeout_secs(None), DEFAULT_TIMEOUT_SECS);
}

#[test]
fn the_description_carries_the_rules() {
    assert_eq!(
        description("RULES"),
        "RULES\n\nCall with { session } alone to see where you are; with { session, event, params } to fire an event. params is an object of strings."
    );
}

#[test]
fn the_input_schema_asks_for_a_session_and_string_params() {
    let v: serde_json::Value = serde_json::from_str(&compact_text(&input_schema())).unwrap();
    assert_eq!(v["type"], "object");
    assert_eq!(v["required"], serde_json::Value::Array(vec!["session".into()]));
    assert_eq!(v["properties"]["session"]["type"], "string");
    assert_eq!(v["properties"]["event"]["type"], "string");
    assert_eq!(v["properties"]["params"]["additionalProperties"]["type"], "string");
    assert_eq!(v["properties"]["params"]["description"], "The event's params.");
}

fn args(members: &[(&str, Json)]) -> Vec<(String, Json)> {
    members.iter().map(|(k, v)| (k.to_string(), copy(v))).collect()
}

fn copy(j: &Json) -> Json {
    match j {
        Json::Null => Json::Null,
        Json::Bool(b) => Json::Bool(*b),
        Json::Number(n) => Json::Number(n.clone()),
        Json::Str(s) => Json::Str(s.clone()),
        Json::Array(a) => Json::Array(a.iter().map(copy).collect()),
        Json::Object(m) => Json::Object(m.iter().map(|(k, v)| (k.clone(), copy(v))).collect()),
    }
}

#[test]
fn tool_call_arguments_are_strings() {
    let a = call_args(&args(&[
        ("session", Json::Str("sm-1".into())),
        ("event", Json::Str("".into())),
        ("params", Json::Object(vec![("issueId".into(), Json::Str("GH-1".into()))])),
    ]))
    .unwrap();
    assert_eq!(a.session.as_deref(), Some("sm-1"));
    assert_eq!(a.event, None);
    assert_eq!(a.params, vec![("issueId".to_string(), "GH-1".to_string())]);
    let a = call_args(&args(&[("session", Json::Null), ("params", Json::Null)])).unwrap();
    assert_eq!((a.session, a.event, a.params.len()), (None, None, 0));
    assert_eq!(
        call_args(&args(&[("session", Json::Number("1".into()))])).unwrap_err(),
        "session must be a string"
    );
    assert_eq!(
        call_args(&args(&[("event", Json::Bool(true))])).unwrap_err(),
        "event must be a string"
    );
    assert_eq!(
        call_args(&args(&[("params", Json::Object(vec![("n".into(), Json::Number("2".into()))]))])).unwrap_err(),
        "param n must be a string"
    );
    assert_eq!(
        call_args(&args(&[("params", Json::Array(vec![]))])).unwrap_err(),
        "params must be an object of strings"
    );
}
