use serde_json::Value;
use smllm::error::Error;
use smllm::harness::merge::{extract, indent_of, parse_json, render_merge, render_unmerge, MergeOp};
use smllm::json::Json;

const P: &str = ".agent/settings.json";
const PREFIX: &str = "tool harness hook ";

fn json(v: &Value) -> Json {
    match v {
        Value::Null => Json::Null,
        Value::Bool(b) => Json::Bool(*b),
        Value::Number(n) => Json::Number(n.to_string()),
        Value::String(s) => Json::Str(s.clone()),
        Value::Array(a) => Json::Array(a.iter().map(json).collect()),
        Value::Object(m) => Json::Object(m.iter().map(|(k, v)| (k.clone(), json(v))).collect()),
    }
}

fn value(j: &Json) -> Value {
    match j {
        Json::Null => Value::Null,
        Json::Bool(b) => Value::Bool(*b),
        Json::Number(n) => serde_json::from_str(n).unwrap(),
        Json::Str(s) => Value::String(s.clone()),
        Json::Array(a) => Value::Array(a.iter().map(value).collect()),
        Json::Object(m) => Value::Object(m.iter().map(|(k, v)| (k.clone(), value(v))).collect()),
    }
}

fn v(text: &str) -> Value {
    serde_json::from_str(text).unwrap()
}


fn file(text: &str) -> Option<&str> {
    Some(text)
}

fn doc(text: &str) -> Json {
    parse_json(P, text).unwrap()
}

fn permissions() -> Vec<MergeOp> {
    vec![MergeOp::array_entry("permissions.allow", Json::Str("Bash(tool *)".into()))]
}

fn hooks() -> Vec<MergeOp> {
    vec![MergeOp::hook_command("Stop", PREFIX, "tool harness hook agent stop")]
}

#[test]
fn indent_is_detected_or_two_spaces() {
    assert_eq!(indent_of("{\n    \"a\": 1\n}"), "    ");
    assert_eq!(indent_of("{\n\t\"a\": 1\n}"), "\t");
    assert_eq!(indent_of("{}"), "  ");
    assert_eq!(indent_of(""), "  ");
}

#[test]
fn permissions_are_added_once_and_extracted() {
    let out = render_merge(None, &permissions(), P).unwrap().unwrap();
    assert_eq!(out, "{\n  \"permissions\": {\n    \"allow\": [\n      \"Bash(tool *)\"\n    ]\n  }\n}\n");
    let d = doc(&out);
    assert_eq!(extract(&d, &permissions()[0]).map(|j| value(&j)), Some(v("\"Bash(tool *)\"")));
    let existing = "{\n  \"permissions\": {\n    \"allow\": [\n      \"Bash(npm *)\",\n      \"Bash(tool *)\"\n    ]\n  }\n}\n";
    assert!(render_merge(file(existing), &permissions(), P).unwrap().is_none());
    let d = doc("{\"permissions\":{\"allow\":[\"Bash(npm *)\"]}}");
    assert!(extract(&d, &permissions()[0]).is_none());
    assert!(extract(&json(&v("{\"permissions\": 1}")), &permissions()[0]).is_none());
}

#[test]
fn the_hook_group_replaces_the_tools_group_and_keeps_others() {
    let existing = r#"{
    "other": true,
    "hooks": {
        "PreToolUse": [],
        "Stop": [
            { "hooks": [ { "type": "command", "command": "echo hi" } ] },
            { "hooks": [ { "type": "command", "command": "tool harness hook agent old" } ] }
        ]
    },
    "z": [1, 2]
}"#;
    let out = render_merge(file(existing), &hooks(), P).unwrap().unwrap();
    let d = value(&doc(&out));
    let keys: Vec<_> = d.as_object().unwrap().keys().cloned().collect();
    assert_eq!(keys, ["other", "hooks", "z"]);
    assert_eq!(d["hooks"]["PreToolUse"], v("[]"));
    assert_eq!(d["hooks"]["Stop"][0]["hooks"][0]["command"], "echo hi");
    assert_eq!(d["hooks"]["Stop"][1]["hooks"][0]["command"], "tool harness hook agent stop");
    assert_eq!(d["hooks"]["Stop"].as_array().unwrap().len(), 2);
    assert!(out.starts_with("{\n    \"other\": true,"), "{out}");
    assert!(!out.ends_with('\n'));
    assert_eq!(
        extract(&json(&d), &hooks()[0]).map(|j| value(&j)),
        Some(value(hooks()[0].value()))
    );
    assert!(render_merge(file(&out), &hooks(), P).unwrap().is_none());
    let out = render_merge(file("{}\n"), &hooks(), P).unwrap().unwrap();
    let d = value(&doc(&out));
    assert_eq!(d["hooks"]["Stop"].as_array().unwrap().len(), 1);
    assert!(out.ends_with('\n'));
}

#[test]
fn hook_groups_for_several_events_and_an_object_member() {
    let ops = vec![
        MergeOp::hook_command("SessionStart", PREFIX, "tool harness hook agent session-start"),
        MergeOp::hook_command("Stop", PREFIX, "tool harness hook agent stop"),
        MergeOp::object_member("mcpServers", "tool", json(&v("{\"command\": \"tool\", \"args\": [\"mcp\"]}"))),
        MergeOp::object_member("", "top", json(&v("1"))),
    ];
    let out = render_merge(file("{\"mcpServers\": {\"x\": {}}}"), &ops, P).unwrap().unwrap();
    let d = value(&doc(&out));
    let keys: Vec<_> = d["mcpServers"].as_object().unwrap().keys().cloned().collect();
    assert_eq!(keys, ["x", "tool"]);
    assert_eq!(d["top"], 1);
    for op in &ops {
        assert_eq!(extract(&json(&d), op).map(|j| value(&j)), Some(value(op.value())));
    }
    // Each event holds its own group.
    assert_eq!(d["hooks"]["SessionStart"].as_array().unwrap().len(), 1);
    assert_eq!(d["hooks"]["Stop"].as_array().unwrap().len(), 1);
    // A member of another value is found, so it can be compared.
    let edited = json(&v("{\"mcpServers\": {\"tool\": {\"command\": \"other\"}}}"));
    assert_eq!(extract(&edited, &ops[2]).map(|j| value(&j)), Some(v("{\"command\": \"other\"}")));
    assert!(render_merge(file(&out), &ops, P).unwrap().is_none());
}

#[test]
fn unmerge_removes_only_the_tools_entries() {
    let ops = vec![
        MergeOp::array_entry("permissions.allow", Json::Str("Bash(tool *)".into())),
        MergeOp::hook_command("Stop", PREFIX, "tool harness hook agent stop"),
        MergeOp::object_member("mcpServers", "tool", json(&v("{}"))),
    ];
    let text = "{\n  \"permissions\": {\"allow\": [\"a\", \"Bash(tool *)\"]},\n  \"hooks\": {\"Stop\": [{\"hooks\": [{\"command\": \"echo\"}]}, {\"hooks\": [{\"command\": \"tool harness hook agent stop\"}]}]},\n  \"mcpServers\": {\"tool\": {}, \"y\": 1}\n}\n";
    let out = render_unmerge(file(text), &ops, P).unwrap().unwrap();
    let d = value(&doc(&out));
    assert_eq!(d["permissions"]["allow"], v("[\"a\"]"));
    assert_eq!(d["hooks"]["Stop"].as_array().unwrap().len(), 1);
    assert_eq!(d["mcpServers"], v("{\"y\": 1}"));
    assert!(render_unmerge(file(&out), &ops, P).unwrap().is_none());
    assert!(render_unmerge(file("{}"), &ops, P).unwrap().is_none());
    assert!(render_unmerge(None, &ops, P).unwrap().is_none());
    assert!(render_unmerge(file("["), &ops, P).is_err());
}

#[test]
fn a_file_that_does_not_parse_is_refused_and_named() {
    let e = render_merge(file("{ nope"), &hooks(), P).unwrap_err();
    assert!(matches!(e, Error::Harness(_)), "{e:?}");
    assert!(e.message().starts_with(".agent/settings.json: does not parse"), "{e:?}");
    let e = parse_json(P, "[]").unwrap_err();
    assert!(e.message().contains("not a JSON object"), "{e:?}");
    let e = render_merge(file("{\"permissions\": []}"), &permissions(), P).unwrap_err();
    assert!(e.message().contains("`permissions` is not an object"), "{e:?}");
    let e = render_merge(file("{\"permissions\": {\"allow\": {}}}"), &permissions(), P).unwrap_err();
    assert!(e.message().contains("`permissions.allow` is not an array"), "{e:?}");
    let e = render_merge(file("{\"hooks\": []}"), &hooks(), P).unwrap_err();
    assert!(e.message().contains("`hooks` is not an object"), "{e:?}");
    let e = render_merge(
        file("{\"m\": 1}"),
        &[MergeOp::object_member("m", "k", json(&v("1")))],
        P,
    )
    .unwrap_err();
    assert!(e.message().contains("`m` is not an object"), "{e:?}");
    let bad = MergeOp::ArrayEntry { path: vec![], value: json(&v("1")) };
    assert!(matches!(render_merge(None, &[bad], P), Err(Error::Internal(_))));
}

#[test]
fn applying_twice_changes_nothing_and_the_entry_is_then_found() {
    let ops = vec![
        MergeOp::array_entry("permissions.allow", Json::Str("x".into())),
        MergeOp::object_member("a.b", "c", json(&v("{\"d\": [1, 2]}"))),
        MergeOp::hook_command("Stop", PREFIX, "tool harness hook agent stop"),
    ];
    for op in &ops {
        let once = smllm::harness::merge::apply(json(&v("{\"k\": 1}")), op, P).unwrap();
        let twice = smllm::harness::merge::apply(json(&value(&once)), op, P).unwrap();
        assert_eq!(value(&once), value(&twice));
        assert_eq!(extract(&once, op).map(|j| value(&j)), Some(value(op.value())));
    }
}

#[test]
fn an_equal_entry_in_another_member_order_is_not_added_again() {
    let op = MergeOp::array_entry("list", json(&v("{\"a\": 1, \"b\": 2}")));
    let text = "{\n  \"list\": [\n    {\n      \"b\": 2,\n      \"a\": 1\n    }\n  ]\n}\n";
    let out = render_merge(file(text), &[op], P).unwrap();
    assert!(out.is_none());
}

#[test]
fn split_paths_drop_empty_fields() {
    let op = MergeOp::array_entry(".a..b.", Json::Null);
    match op {
        MergeOp::ArrayEntry { path, .. } => assert_eq!(path, vec!["a".to_string(), "b".to_string()]),
        _ => panic!("not an array entry"),
    }
}

#[test]
fn json_text_indents_and_escapes() {
    let d = json(&v("{\"a\": [1, {\"b\": \"q\\\"\"}], \"e\": {}, \"f\": []}"));
    assert_eq!(
        smllm::json::json_text(&d, "  ", true),
        "{\n  \"a\": [\n    1,\n    {\n      \"b\": \"q\\\"\"\n    }\n  ],\n  \"e\": {},\n  \"f\": []\n}\n"
    );
    assert_eq!(smllm::json::compact_text(&d), "{\"a\":[1,{\"b\":\"q\\\"\"}],\"e\":{},\"f\":[]}");
    assert_eq!(smllm::json::json_text(&d, "  ", true), serde_json::to_string_pretty(&value(&d)).unwrap() + "\n");
}

#[test]
fn after_an_unmerge_no_entry_of_the_tool_is_found() {
    let ops = vec![
        MergeOp::array_entry("permissions.allow", Json::Str("Bash(tool *)".into())),
        MergeOp::hook_command("Stop", PREFIX, "tool harness hook agent stop"),
    ];
    // Two equal entries and two groups of the tool's: all of them go.
    let text = "{\"permissions\": {\"allow\": [\"Bash(tool *)\", \"a\", \"Bash(tool *)\"]}, \"hooks\": {\"Stop\": [{\"hooks\": [{\"command\": \"tool harness hook x\"}]}, {\"hooks\": [{\"command\": \"make\"}]}, {\"hooks\": [{\"command\": \"tool harness hook agent stop\"}]}]}}";
    let out = render_unmerge(file(text), &ops, P).unwrap().unwrap();
    let after = doc(&out);
    for op in &ops {
        assert!(extract(&after, op).is_none(), "{out}");
    }
    let d = value(&after);
    assert_eq!(d["permissions"]["allow"], v("[\"a\"]"));
    assert_eq!(d["hooks"]["Stop"], v("[{\"hooks\": [{\"command\": \"make\"}]}]"));
}

#[test]
fn a_written_document_keeps_its_indent_and_newline() {
    let d = Json::Object(vec![
        ("a".to_string(), Json::Array(vec![Json::Number("1".into())])),
        ("b".to_string(), Json::Object(vec![])),
    ]);
    for indent in ["  ", "    ", "\t"] {
        for nl in [true, false] {
            let t = smllm::json::json_text(&d, indent, nl);
            assert_eq!(smllm::harness::merge::indent_of(&t), indent);
            assert_eq!(t.ends_with('\n'), nl);
        }
    }
}
