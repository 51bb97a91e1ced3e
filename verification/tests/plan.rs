use smllm::error::Error;
use smllm::harness::flow::{install_plan, status_report};
use smllm::harness::install::InstallOptions;
use smllm::harness::observe::Read;
use smllm::harness::part::{Part, Profile};
use smllm::harness::record::{read_record, Record};
use smllm::harness::region::Markers;
use smllm::harness::tool::{record_header, Scope};

fn profile() -> Profile {
    Profile {
        harness: "agent".into(),
        parts: vec![Part::region("notes", "NOTES.md", "Use the tool.\n")],
        hooks: vec![],
    }
}

fn opts(without: Option<Vec<String>>) -> InstallOptions {
    InstallOptions { harness: "agent".into(), scope: Scope::Project, without, force: false }
}

fn plan_for(
    record: &Record,
    text: Option<String>,
    o: &InstallOptions,
    stored: Result<Vec<String>, Error>,
) -> Result<(smllm::harness::write::Plan, smllm::harness::install::HarnessResult), Error> {
    let on_disk = vec![text.is_some()];
    install_plan(
        &profile(),
        o,
        record,
        stored,
        vec![Read::Text(text.clone())],
        &on_disk,
        &vec![text],
        "/w",
        &Markers::new("tool"),
        "AGENTS.md",
        "/w/.tool/harness.toml",
        false,
        &record_header("tool"),
    )
}

#[test]
fn a_fresh_install_plans_the_part_and_the_record_and_a_second_finds_it_current() {
    let (plan, res) = plan_for(&Record::new(), None, &opts(None), Ok(vec![])).unwrap();
    assert_eq!(res.parts.len(), 1);
    assert_eq!(res.parts[0].state, "created");
    assert_eq!(res.parts[0].path, "NOTES.md");
    assert_eq!(plan.files.len(), 1);
    assert_eq!(plan.files[0].0, "/w/NOTES.md");
    assert!(plan.files[0].1.contains("Use the tool.\n"));
    let (record_path, record_text) = plan.record.clone().unwrap();
    assert_eq!(record_path, "/w/.tool/harness.toml");

    // Applying the plan and deciding again: nothing left to write.
    let record = read_record("harness.toml", Some(&record_text)).unwrap();
    let written = plan.files[0].1.clone();
    let (again, res2) = plan_for(&record, Some(written), &opts(None), Ok(vec![])).unwrap();
    assert_eq!(res2.parts[0].state, "current");
    assert!(again.files.is_empty());
    assert!(again.externals.is_empty());
}

#[test]
fn a_refusal_plans_nothing() {
    let e = plan_for(&Record::new(), None, &opts(Some(vec!["nope".into()])), Ok(vec![])).unwrap_err();
    assert_eq!(e.message(), "profile `agent` has no part named `nope`");
    let stored = Err(Error::Harness("declined.toml: broken".into()));
    let e = plan_for(&Record::new(), None, &opts(None), stored).unwrap_err();
    assert_eq!(e.message(), "declined.toml: broken");
}

#[test]
fn a_declined_part_is_skipped_and_not_written() {
    let (plan, res) = plan_for(&Record::new(), None, &opts(None), Ok(vec!["notes".into()])).unwrap();
    assert_eq!(res.parts[0].state, "skipped");
    assert!(plan.files.is_empty());
}

#[test]
fn a_status_report_gives_each_part_its_state() {
    let res = status_report(
        &profile(),
        Scope::Project,
        &Record::new(),
        Ok(vec![]),
        vec![Read::Text(None)],
        &vec![false],
        "/w",
        &Markers::new("tool"),
        "AGENTS.md",
    )
    .unwrap();
    assert_eq!(res.parts.len(), 1);
    assert_eq!(res.parts[0].state, "absent");
    assert_eq!(res.root, "/w");
    let stored = Err(Error::Harness("declined.toml: broken".into()));
    let e = status_report(
        &profile(),
        Scope::Project,
        &Record::new(),
        stored,
        vec![Read::Text(None)],
        &vec![false],
        "/w",
        &Markers::new("tool"),
        "AGENTS.md",
    )
    .unwrap_err();
    assert_eq!(e.message(), "declined.toml: broken");
}

#[test]
fn a_settings_file_that_does_not_parse_is_refused_before_any_write() {
    let profile = Profile {
        harness: "agent".into(),
        parts: vec![
            Part::region("notes", "NOTES.md", "Use the tool.\n"),
            Part::merge(
                "permissions",
                ".agent/settings.json",
                vec![smllm::harness::merge::MergeOp::array_entry(
                    "permissions.allow",
                    smllm::json::Json::Str("Bash(tool *)".into()),
                )],
            ),
        ],
        hooks: vec![],
    };
    let bad = Some("{ not json".to_string());
    let e = install_plan(
        &profile,
        &opts(None),
        &Record::new(),
        Ok(vec![]),
        vec![Read::Text(None), Read::Json(bad.clone())],
        &vec![false, true],
        &vec![None, bad],
        "/w",
        &Markers::new("tool"),
        "AGENTS.md",
        "/w/.tool/harness.toml",
        false,
        &record_header("tool"),
    )
    .unwrap_err();
    assert!(matches!(e, Error::Harness(_)));
    assert!(e.message().starts_with(".agent/settings.json: does not parse as JSON: "), "{}", e.message());
}
