use smllm::smllm::{registration, registration_in};
use serde_json::Value;
use smllm::commands::register_machine;
use smllm::harness::install::{
    edited_note, examine_part, plan_record, require_profile, PartResult,
};
use smllm::harness::merge::{render_merge, MergeOp};
use smllm::harness::observe::{observe, Read};
use smllm::harness::part::{ExternalContent, Content, Part, Profile, Target};
use smllm::harness::record::{put_entry, render_record, Record};
use smllm::harness::region::Markers;
use smllm::harness::state::{hash, Found, Observed, State};
use smllm::harness::write::{existing_text, plan_part, Plan};
use smllm::json::Json;

fn json(v: &Value) -> Json {
    match v {
        Value::Null => Json::Null,
        Value::Bool(b) => Json::Bool(*b),
        Value::Number(n) => Json::Number(n.to_string()),
        Value::String(s) => Json::Str(s.clone()),
        Value::Array(a) => Json::Array(a.iter().map(json).collect()),
        Value::Object(m) => Json::Object(m.iter().map(|(k, v)| (k.clone(), json(v))).collect()),
    }
}


fn m() -> Markers {
    Markers::new("tool")
}

fn permissions() -> Part {
    Part::merge(
        "permissions",
        ".agent/settings.json",
        vec![MergeOp::array_entry("permissions.allow", Json::Str("Bash(tool *)".into()))],
    )
}

#[test]
fn what_was_read_becomes_what_the_tree_holds() {
    let files = Part::files("skills", "d", vec![("a.md".into(), "A".into()), ("b.md".into(), "B".into())]);
    let o = observe(&files, Read::Files(vec![Some("A\r\n".into()), Some("B".into())]), &m(), "d").unwrap();
    match o {
        Observed::Present(Found::Files(f)) => {
            assert_eq!(f, vec![("a.md".to_string(), "A\r\n".to_string()), ("b.md".to_string(), "B".to_string())])
        }
        other => panic!("{other:?}"),
    }
    let o = observe(&files, Read::Files(vec![Some("A".into()), None]), &m(), "d").unwrap();
    assert!(matches!(o, Observed::Absent));
    // What was read must fit the part.
    assert!(observe(&files, Read::Files(vec![None]), &m(), "d").is_err());
    assert!(observe(&files, Read::Text(None), &m(), "d").is_err());

    let block = Part::instructions("instructions", "b");
    let text = "# T\n<!-- tool:harness -->\n\nhello\n<!-- /tool:harness -->\n";
    match observe(&block, Read::Text(Some(text.into())), &m(), "AGENTS.md").unwrap() {
        Observed::Present(Found::Block(b)) => assert_eq!(b, "hello\n"),
        other => panic!("{other:?}"),
    }
    assert!(matches!(
        observe(&block, Read::Text(Some("# T\n".into())), &m(), "AGENTS.md").unwrap(),
        Observed::Absent
    ));

    let merge = permissions();
    let with = "{\"permissions\": {\"allow\": [\"x\", \"Bash(tool *)\"]}}";
    match observe(&merge, Read::Json(Some(with.to_string())), &m(), "s.json").unwrap() {
        Observed::Present(Found::Entries(e)) => assert_eq!(e.len(), 1),
        other => panic!("{other:?}"),
    }
    assert!(matches!(
        observe(&merge, Read::Json(Some("{}".to_string())), &m(), "s.json").unwrap(),
        Observed::Absent
    ));
    let e = observe(&merge, Read::Json(Some("[1]".to_string())), &m(), "s.json").unwrap_err();
    assert_eq!(e.message(), "s.json: is not a JSON object");

    let ext = Part {
        name: "mcp".into(),
        target: Target::Fixed("x (user)".into()),
        content: Content::External(ExternalContent { location: "x (user)".into(), expected: "e".into() }),
    };
    match observe(&ext, Read::External(Some("e".into())), &m(), "x").unwrap() {
        Observed::Present(Found::Text(t)) => assert_eq!(t, "e"),
        other => panic!("{other:?}"),
    }
}

#[test]
fn examining_a_part_gives_its_state_and_hash() {
    let part = Part::instructions("instructions", "new\n");
    let old_hash = hash(&Found::Block("old\n".into()));
    let observed = Observed::Present(Found::Block("old\n".into()));
    let e = examine_part(&part, "AGENTS.md", &observed, Some(&old_hash), &vec![], true);
    assert_eq!(e.state, State::Stale);
    assert!(e.existed && !e.is_files);
    assert_eq!(e.hash, hash(&Found::Block("new\n".into())));
    assert_eq!((e.name.as_str(), e.path.as_str()), ("instructions", "AGENTS.md"));
    let e = examine_part(&part, "AGENTS.md", &Observed::Absent, None, &vec!["instructions".into()], false);
    assert_eq!(e.state, State::Skipped);
    assert!(!e.existed);
    let e = examine_part(&part, "AGENTS.md", &Observed::Absent, None, &vec![], true);
    assert_eq!(e.state, State::Absent);
    assert!(e.existed, "the file is there though the block is not");
}

#[test]
fn planning_writes_renders_against_the_pending_text() {
    let mut plan = Plan::new();
    assert_eq!(existing_text(&plan, "/r/s.json", Some("{}".into())).as_deref(), Some("{}"));
    let part = permissions();
    plan_part(&mut plan, &part, "/r/s.json", Some("{}".into()), &m(), "s.json").unwrap();
    let pending = plan.pending("/r/s.json").unwrap().to_string();
    assert_eq!(pending, "{\n  \"permissions\": {\n    \"allow\": [\n      \"Bash(tool *)\"\n    ]\n  }\n}");
    // The pending text wins over the text on disk.
    assert_eq!(existing_text(&plan, "/r/s.json", Some("{}".into())).as_deref(), Some(pending.as_str()));
    let hooks = Part::merge(
        "hooks",
        ".agent/settings.json",
        vec![MergeOp::hook_command("Stop", "tool harness hook ", "tool harness hook agent stop")],
    );
    let existing = existing_text(&plan, "/r/s.json", None).unwrap();
    plan_part(&mut plan, &hooks, "/r/s.json", Some(existing), &m(), "s.json").unwrap();
    assert_eq!(plan.files.len(), 1);
    assert!(plan.pending("/r/s.json").unwrap().contains("\"Stop\""));
    // A file part sets each file under its directory; a region part its file.
    let files = Part::files("skills", "d", vec![("a.md".into(), "A\r\n".into())]);
    plan_part(&mut plan, &files, "/r/d", None, &m(), "d").unwrap();
    assert_eq!(plan.pending("/r/d/a.md"), Some("A\n"));
    let block = Part::instructions("instructions", "B\n");
    plan_part(&mut plan, &block, "/r/AGENTS.md", None, &m(), "AGENTS.md").unwrap();
    assert_eq!(
        plan.pending("/r/AGENTS.md"),
        Some("<!-- tool:harness -->\n\nB\n<!-- /tool:harness -->\n")
    );
    // A file that does not parse is a refusal naming it.
    let e = plan_part(&mut plan, &part, "/r/t.json", Some("{".into()), &m(), "t.json")
        .unwrap_err();
    assert!(e.message().starts_with("t.json: does not parse as JSON: "), "{}", e.message());
    // An external part is queued by name.
    let ext = Part {
        name: "mcp".into(),
        target: Target::Fixed("x".into()),
        content: Content::External(ExternalContent { location: "x".into(), expected: "e".into() }),
    };
    plan_part(&mut plan, &ext, "/r/x", None, &m(), "x").unwrap();
    assert_eq!(plan.externals, vec!["mcp".to_string()]);
}

#[test]
fn the_record_is_written_when_it_changes_or_is_missing() {
    let mut record = Record::new();
    put_entry(&mut record.harnesses, ("agent".to_string(), vec![("a".to_string(), "h".to_string())]));
    let header = "# Written by tool harness install. Do not edit.";
    let mut plan = Plan::new();
    plan_record(&mut plan, &record, "agent", vec![("a".into(), "h".into())], true, "/r/h.toml", header);
    assert!(plan.record.is_none());
    plan_record(&mut plan, &record, "agent", vec![("a".into(), "h".into())], false, "/r/h.toml", header);
    assert_eq!(plan.record, Some(("/r/h.toml".to_string(), render_record(&record, header))));
    let mut plan = Plan::new();
    plan_record(&mut plan, &record, "agent", vec![("a".into(), "h2".into())], true, "/r/h.toml", header);
    let (path, text) = plan.record.unwrap();
    assert_eq!(path, "/r/h.toml");
    assert!(text.ends_with("[agent]\na = \"h2\"\n"), "{text}");
}

#[test]
fn a_missing_profile_is_refused_and_edited_parts_get_a_note() {
    let e = require_profile(None, "cursor").unwrap_err();
    assert_eq!(e.message(), "no profile named `cursor`");
    let p = Profile { harness: "agent".into(), parts: vec![], hooks: vec![] };
    assert_eq!(require_profile(Some(p), "agent").unwrap().harness, "agent");
    let parts = vec![
        PartResult { part: "a".into(), state: "current".into(), path: "A".into() },
        PartResult { part: "b".into(), state: "edited".into(), path: "B".into() },
    ];
    assert_eq!(
        edited_note(&parts, false, "agent").as_deref(),
        Some("note: parts marked edited were changed by hand and left alone; `smllm harness install agent --force` overwrites them\n")
    );
    assert_eq!(edited_note(&parts, true, "agent"), None);
    let current = vec![PartResult { part: "a".into(), state: "current".into(), path: "A".into() }];
    assert_eq!(edited_note(&current, false, "agent"), None);
}

#[test]
fn a_new_machine_is_listed_in_the_config() {
    let text = "# machines\n[machines]\nfiles = [\"a.smllm.yaml\"] # kept\n";
    let out = register_machine(text, ".smllm/config.toml", "/p/.smllm", "/p/m/b.smllm.yaml").unwrap();
    assert!(out.contains("\"a.smllm.yaml\""), "{out}");
    assert!(out.contains("\"../m/b.smllm.yaml\""), "{out}");
    assert!(out.contains("# kept"), "{out}");
    // Listed already: the text as it was.
    assert_eq!(register_machine(&out, "c", "/p/.smllm", "/p/m/b.smllm.yaml").unwrap(), out);
    let out = register_machine("", "c", "/p", "/p/x.yaml").unwrap();
    assert!(out.contains("files = [\"x.yaml\"]"), "{out}");
    assert_eq!(
        register_machine("machines = 1\n", "c", "/p", "/p/x.yaml").unwrap_err(),
        "[machines] is not a table"
    );
    assert_eq!(
        register_machine("[machines]\nfiles = 1\n", "c", "/p", "/p/x.yaml").unwrap_err(),
        "machines.files is not an array"
    );
    assert!(register_machine("[m", "c.toml", "/p", "/p/x").unwrap_err().starts_with("c.toml: "));
}

#[test]
fn a_merge_keeps_the_other_members_and_their_order() {
    let text = "{\"z\": 1, \"permissions\": {\"deny\": [\"a\"], \"allow\": []}, \"a\": {\"y\": 2}}";
    let out = render_merge(
        Some(text),
        &[MergeOp::array_entry("permissions.allow", Json::Str("Bash(tool *)".into()))],
        "s.json",
    )
    .unwrap()
    .unwrap();
    let v: Value = serde_json::from_str(&out).unwrap();
    let keys: Vec<&String> = v.as_object().unwrap().keys().collect();
    assert_eq!(keys, ["z", "permissions", "a"]);
    assert_eq!(v["z"], 1);
    assert_eq!(v["a"]["y"], 2);
    let inner: Vec<&String> = v["permissions"].as_object().unwrap().keys().collect();
    assert_eq!(inner, ["deny", "allow"]);
    assert_eq!(v["permissions"]["deny"][0], "a");
    // A member the document lacked comes last.
    let out = render_merge(
        Some("{\"z\": 1}"),
        &[MergeOp::object_member("mcpServers", "tool", Json::Null)],
        "s.json",
    )
    .unwrap()
    .unwrap();
    let v: Value = serde_json::from_str(&out).unwrap();
    let keys: Vec<&String> = v.as_object().unwrap().keys().collect();
    assert_eq!(keys, ["z", "mcpServers"]);
}

#[test]
fn a_part_an_install_wrote_is_then_current() {
    // A region part.
    let block = Part::instructions("instructions", "\r\nUse the tool.\r\nAlways.");
    let mut plan = Plan::new();
    plan_part(&mut plan, &block, "/r/AGENTS.md", Some("# Doc\r\n".into()), &m(), "AGENTS.md").unwrap();
    let written = plan.pending("/r/AGENTS.md").unwrap().to_string();
    let observed = observe(&block, Read::Text(Some(written)), &m(), "AGENTS.md").unwrap();
    let e = examine_part(&block, "AGENTS.md", &observed, None, &vec![], true);
    assert_eq!(e.state, State::Current);
    // A file part.
    let files = Part::files("skills", "d", vec![("a.md".into(), "x\r\ny".into())]);
    plan_part(&mut plan, &files, "/r/d", None, &m(), "d").unwrap();
    let written = plan.pending("/r/d/a.md").unwrap().to_string();
    let observed = observe(&files, Read::Files(vec![Some(written)]), &m(), "d").unwrap();
    assert_eq!(examine_part(&files, "d", &observed, None, &vec![], true).state, State::Current);
    // A merge part of several operations.
    let hooks = Part::merge(
        "hooks",
        ".agent/settings.json",
        vec![
            MergeOp::hook_command("SessionStart", "tool harness hook ", "tool harness hook agent start"),
            MergeOp::hook_command("Stop", "tool harness hook ", "tool harness hook agent stop"),
        ],
    );
    let before = "{\"hooks\": {\"Stop\": [{\"hooks\": [{\"type\": \"command\", \"command\": \"make\"}]}]}}";
    plan_part(&mut plan, &hooks, "/r/s.json", Some(before.into()), &m(), "s.json").unwrap();
    let written = plan.pending("/r/s.json").unwrap().to_string();
    let observed = observe(&hooks, Read::Json(Some(written.clone())), &m(), "s.json").unwrap();
    assert_eq!(examine_part(&hooks, "s.json", &observed, None, &vec![], true).state, State::Current);
    assert!(written.contains("\"make\""), "{written}");
}

fn obj(members: Vec<(&str, Json)>) -> Json {
    Json::Object(members.into_iter().map(|(k, v)| (k.to_string(), v)).collect())
}

#[test]
fn the_user_mcp_registration_is_read_from_the_harness_config() {
    let entry = obj(vec![
        ("type", Json::Str("stdio".to_string())),
        ("args", Json::Array(vec![Json::Str("mcp".to_string())])),
        ("command", Json::Str("smllm".to_string())),
    ]);
    let doc = obj(vec![("mcpServers", obj(vec![("other", Json::Null), ("smllm", entry)]))]);
    assert_eq!(registration(&doc), Some("{\"command\":\"smllm\",\"args\":[\"mcp\"]}".to_string()));
    let bare = obj(vec![("mcpServers", obj(vec![("smllm", obj(vec![("command", Json::Str("x".to_string()))]))]))]);
    assert_eq!(registration(&bare), Some("{\"command\":\"x\",\"args\":null}".to_string()));
    assert_eq!(registration(&obj(vec![("mcpServers", obj(vec![]))])), None);
    assert_eq!(registration(&Json::Null), None);
}

#[test]
fn the_registration_is_read_from_the_config_text() {
    let text = "{\"mcpServers\": {\"smllm\": {\"args\": [\"mcp\"], \"command\": \"smllm\"}}}";
    assert_eq!(registration_in(text), Some("{\"command\":\"smllm\",\"args\":[\"mcp\"]}".to_string()));
    assert_eq!(registration_in("not json"), None);
    assert_eq!(registration_in("{}"), None);
}
