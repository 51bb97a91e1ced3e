use smllm::harness::install::{check_without, decide, display, install_parts, status_parts, Examined, HarnessResult, PartResult};
use smllm::harness::part::Part;
use smllm::harness::part::Profile;
use smllm::harness::state::State;
use smllm::harness::tool::Scope;
use smllm::harness::write::{apply_plan, Plan, Step};

#[test]
fn display_is_relative_under_the_root() {
    assert_eq!(display("/r", "/r/.tool/h.toml"), ".tool/h.toml");
    assert_eq!(display("/r", "/x/h.toml"), "/x/h.toml");
}

#[test]
fn display_goes_by_whole_components_and_uses_slashes() {
    assert_eq!(display("/r", "/rx/h.toml"), "/rx/h.toml");
    assert_eq!(display("/r/", "/r/a"), "a");
    // A backslash is no separator here: the path is not under the root.
    assert_eq!(display("c:\\r", "c:\\r\\a\\b"), "c:/r/a/b");
}

#[test]
fn text_pads_the_verb() {
    let r = HarnessResult {
        harness: "agent".into(),
        scope: Scope::Project,
        root: "/r".into(),
        parts: vec![
            PartResult {
                part: "hooks".into(),
                state: "created".into(),
                path: ".agent/settings.json".into(),
            },
            PartResult {
                part: "instructions".into(),
                state: "edited".into(),
                path: "AGENT.md".into(),
            },
        ],
    };
    assert_eq!(
        r.to_text(),
        "created .agent/settings.json (hooks)\nedited  AGENT.md (instructions)\n"
    );
}

#[test]
fn a_plan_replaces_an_earlier_write_to_the_same_path() {
    let mut plan = Plan::new();
    plan.set("/a".into(), "1".into());
    plan.set("/b".into(), "2".into());
    plan.set("/a".into(), "3".into());
    assert_eq!(plan.pending("/a"), Some("3"));
    assert_eq!(plan.pending("/c"), None);
    assert_eq!(plan.files.len(), 2);
}

#[test]
fn a_plan_is_applied_externals_first_then_files_then_the_record() {
    let mut plan = Plan::new();
    plan.set("/a".into(), "1".into());
    plan.externals.push("mcp".into());
    plan.record = Some(("/r.toml".into(), "r\n".into()));
    let steps = apply_plan(&plan);
    assert_eq!(steps.len(), 3);
    assert!(matches!(&steps[0], Step::External(n) if n == "mcp"));
    assert!(matches!(&steps[1], Step::File(p, t) if p == "/a" && t == "1"));
    assert!(matches!(&steps[2], Step::File(p, t) if p == "/r.toml" && t == "r\n"));
}

#[test]
fn each_state_has_its_verb() {
    assert_eq!(decide(State::Skipped, true, false, true), (false, "skipped"));
    assert_eq!(decide(State::Current, true, false, false), (false, "current"));
    assert_eq!(decide(State::Absent, false, false, false), (true, "created"));
    assert_eq!(decide(State::Absent, true, true, false), (true, "rewrote"));
    assert_eq!(decide(State::Stale, true, false, false), (true, "updated"));
    assert_eq!(decide(State::Edited, true, false, false), (false, "edited"));
    assert_eq!(decide(State::Edited, true, false, true), (true, "updated"));
}

fn examined(name: &str, state: State) -> Examined {
    Examined {
        name: name.into(),
        path: format!("{name}.md"),
        state,
        existed: true,
        is_files: false,
        hash: format!("fnv1a64:{name}"),
    }
}

#[test]
fn an_install_updates_the_record_part_by_part() {
    let parts = vec![
        examined("a", State::Skipped),
        examined("b", State::Edited),
        examined("c", State::Stale),
        examined("d", State::Absent),
    ];
    let mut recorded = vec![
        ("a".to_string(), "old-a".to_string()),
        ("b".to_string(), "old-b".to_string()),
        ("c".to_string(), "old-c".to_string()),
    ];
    let (lines, written) = install_parts(&parts, &mut recorded, false);
    assert_eq!(written, vec![false, false, true, true]);
    let verbs: Vec<_> = lines.iter().map(|l| l.state.as_str()).collect();
    assert_eq!(verbs, ["skipped", "edited", "updated", "updated"]);
    assert_eq!(recorded, vec![
        ("b".to_string(), "old-b".to_string()),
        ("c".to_string(), "fnv1a64:c".to_string()),
        ("d".to_string(), "fnv1a64:d".to_string()),
    ]);
    let st = status_parts(&parts);
    let states: Vec<_> = st.iter().map(|l| l.state.as_str()).collect();
    assert_eq!(states, ["skipped", "edited", "stale", "absent"]);
}

#[test]
fn without_must_name_parts_of_the_profile() {
    let profile = Profile {
        harness: "agent".into(),
        parts: vec![Part::instructions("instructions", "b"), Part::region("notes", "NOTES.md", "n")],
        hooks: vec![],
    };
    assert!(check_without(&profile, &None).is_ok());
    assert!(check_without(&profile, &Some(vec!["notes".into()])).is_ok());
    let e = check_without(&profile, &Some(vec!["notes".into(), "nope".into()])).unwrap_err();
    assert_eq!(e.message(), "profile `agent` has no part named `nope`");
}
