use smllm::hook::answer::{emit, Answer, HookInput};
use smllm::hook::guard::LoopGuard;
use smllm::hash::hash_text;

#[test]
fn each_answer_as_json() {
    assert_eq!(Answer::Allow { stderr: None }.to_json(), "{}");
    assert_eq!(
        Answer::Allow {
            stderr: Some("x".into())
        }
        .to_json(),
        "{}"
    );
    assert_eq!(
        Answer::Block {
            reason: "t: 1 error remains".into()
        }
        .to_json(),
        "{\"decision\":\"block\",\"reason\":\"t: 1 error remains\"}"
    );
    assert_eq!(
        Answer::Context {
            event: "SessionStart".into(),
            context: "hi".into()
        }
        .to_json(),
        "{\"hookSpecificOutput\":{\"hookEventName\":\"SessionStart\",\"additionalContext\":\"hi\"}}"
    );
    assert_eq!(Answer::Block { reason: "r".into() }.stderr(), None);
}

#[test]
fn a_reason_is_quoted_as_a_json_string() {
    let json = Answer::Block {
        reason: "say \"hi\"\n".into(),
    }
    .to_json();
    assert_eq!(json, "{\"decision\":\"block\",\"reason\":\"say \\\"hi\\\"\\n\"}");
}

#[test]
fn the_default_input_knows_nothing() {
    let i = HookInput::default();
    assert_eq!(i.session_id, None);
    assert_eq!(i.stop_hook_active, None);
}

#[test]
fn emit_writes_the_answer_or_the_error() {
    let e = emit(&Ok(Answer::Allow {
        stderr: Some("report\n".into()),
    }));
    assert_eq!((e.code, e.stdout.as_str(), e.stderr.as_str()), (0, "{}\n", "report\n"));
    let e = emit(&Err("no config".to_string()));
    assert_eq!(e.code, 1);
    assert!(e.stdout.is_empty());
    assert_eq!(e.stderr, "error: no config\n");
}

/// Runs the guard for `key` and `text` against a map of guard files, as the
/// hook runner does: it reads the key's file, and writes it when blocking.
fn run(guard: &LoopGuard, files: &mut Vec<(String, String)>, key: &str, text: &str) -> bool {
    let path = guard.path(key);
    let file = files.iter().find(|(p, _)| *p == path).map(|(_, t)| t.clone());
    let step = guard.should_block(key, text, file.as_deref());
    assert_eq!(step.file, path);
    if let Some(r) = step.record {
        files.retain(|(p, _)| *p != path);
        files.push((path, r));
    }
    step.block
}

#[test]
fn blocks_once_per_text() {
    let guard = LoopGuard::new("guard-block");
    let mut files = Vec::new();
    assert!(run(&guard, &mut files, "s1", "2 errors"));
    assert!(!run(&guard, &mut files, "s1", "2 errors"));
    assert!(!run(&guard, &mut files, "s1", "2 errors\r\n".trim_end()));
    assert!(run(&guard, &mut files, "s2", "2 errors"));
    assert!(run(&guard, &mut files, "s1", "1 error"));
    assert!(run(&guard, &mut files, "s1", "2 errors"));
}

#[test]
fn an_unreadable_guard_file_blocks_every_time() {
    let guard = LoopGuard::new("dir");
    let s = guard.should_block("k", "t", None);
    assert!(s.block);
    assert_eq!(s.record.as_deref(), Some(format!("{}\n", hash_text("t")).as_str()));
    assert!(guard.should_block("k", "t", None).block);
    // A recorded hash, with whitespace around it, stops the second block.
    let recorded = format!("  {}\n", hash_text("t"));
    let s = guard.should_block("k", "t", Some(&recorded));
    assert!(!s.block);
    assert_eq!(s.record, None);
}

#[test]
fn guard_files_are_named_by_safe_keys_or_their_hash() {
    let guard = LoopGuard::new("cache");
    assert_eq!(guard.path("repo"), "cache/repo.hash");
    assert_eq!(LoopGuard::new("cache/").path("repo"), "cache/repo.hash");
    let unsafe_key = guard.path("a/../b c");
    assert!(unsafe_key.starts_with("cache/fnv1a64-"), "{unsafe_key}");
    assert!(unsafe_key.ends_with(".hash"));
    assert!(!unsafe_key.contains("b c"));
    assert_ne!(guard.path("repo"), guard.path("other"));
}

#[test]
fn a_guard_file_records_its_trimmed_text() {
    let guard = LoopGuard::new("dir");
    assert_eq!(guard.recorded(Some("  fnv1a64:00\n")).as_deref(), Some("fnv1a64:00"));
    assert_eq!(guard.recorded(Some(" \n")), None);
    assert_eq!(guard.recorded(None), None);
}
