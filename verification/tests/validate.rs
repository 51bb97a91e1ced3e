use smllm::paths::{ConfigFile, Origin};
use smllm::report::{report_text, Severity};
use smllm::validate::{found_configs, report, saved_states, validated, FormatFinding, SavedInstance, SavedMachine};

fn finding(level: Severity, file: &str, line: Option<usize>, path: Option<&str>, hint: Option<&str>) -> FormatFinding {
    FormatFinding {
        level,
        file: file.to_string(),
        line,
        path: path.map(|p| p.to_string()),
        message: "unknown target".to_string(),
        hint: hint.map(|h| h.to_string()),
        rule: "FMT-2".to_string(),
    }
}

#[test]
fn format_findings_become_a_report() {
    let fs = vec![
        finding(Severity::Error, "/w/.smllm/dev.smllm.yaml", Some(7), Some("states.WORK"), Some("add the state")),
        finding(Severity::Error, "/w/.smllm/dev.smllm.yaml", Some(3), None, None),
        finding(Severity::Warning, "/elsewhere/x.yaml", None, Some("initial"), None),
        finding(Severity::Error, "/w/.smllm/dev.smllm.yaml", Some(3), None, None),
    ];
    let r = report(&fs, "/w");
    assert_eq!(r.errors.len(), 2);
    assert_eq!(r.warnings.len(), 1);
    assert_eq!(r.info.len(), 0);
    assert_eq!(r.errors[0].path, ".smllm/dev.smllm.yaml");
    assert_eq!(r.errors[0].line, Some(3));
    assert_eq!(r.errors[1].message, "states.WORK: unknown target — add the state");
    assert_eq!(r.errors[1].authority, "FMT-2");
    assert_eq!(r.warnings[0].path, "/elsewhere/x.yaml");
    assert_eq!(
        report_text(&r, true, true),
        ".smllm/dev.smllm.yaml:3: error: unknown target (FMT-2)\n\
         .smllm/dev.smllm.yaml:7: error: states.WORK: unknown target — add the state (FMT-2)\n\
         /elsewhere/x.yaml: warning: initial: unknown target (FMT-2)\n\
         2 errors, 1 warning, 0 info\n"
    );
}

fn saved(label: &str, state: &str) -> SavedInstance {
    SavedInstance { label: label.to_string(), state: state.to_string() }
}

#[test]
fn instances_in_a_state_that_is_gone_are_warned_of() {
    let machines = vec![
        SavedMachine {
            file: "/w/.smllm/dev.smllm.yaml".to_string(),
            states: vec!["DRAFT".to_string(), "WORK".to_string()],
            instances: vec![saved("GH-1", "WORK"), saved("GH-2", "GONE")],
        },
        SavedMachine {
            file: "/w/.smllm/ops.smllm.yaml".to_string(),
            states: vec![],
            instances: vec![saved("a1b2", "UP")],
        },
    ];
    let out = saved_states(&machines);
    assert_eq!(out.len(), 2);
    assert!(matches!(out[0].level, Severity::Warning));
    assert_eq!(out[0].file, "/w/.smllm/dev.smllm.yaml");
    assert_eq!(
        out[0].message,
        "saved instance GH-2 is in state GONE, which no longer exists; enter it with a state to repair it"
    );
    assert_eq!(out[0].rule, "IDLE-4");
    assert_eq!(out[0].line, None);
    assert_eq!(out[1].file, "/w/.smllm/ops.smllm.yaml");
    assert!(out[1].message.starts_with("saved instance a1b2 is in state UP,"));
    let r = report(&out, "/w");
    assert_eq!(r.warnings.len(), 2);
    assert_eq!(r.warnings[0].path, ".smllm/dev.smllm.yaml");
}

#[test]
fn validate_without_a_config_is_refused() {
    assert_eq!(
        found_configs(vec![]).unwrap_err(),
        "no config found: run smllm init, or pass --config"
    );
    let found = found_configs(vec![ConfigFile { path: "/w/.smllm/config.toml".into(), origin: Origin::Project }]).unwrap();
    assert_eq!(found.len(), 1);
}

#[test]
fn validate_exits_one_exactly_when_there_are_errors() {
    let warn = vec![finding(Severity::Warning, "/w/a.yaml", None, None, None)];
    let (r, code) = validated(&warn, "/w");
    assert_eq!(r.warnings.len(), 1);
    assert_eq!(code, 0);
    assert_eq!(validated(&vec![], "/w").1, 0);
    let err = vec![
        finding(Severity::Info, "/w/a.yaml", None, None, None),
        finding(Severity::Error, "/w/a.yaml", Some(1), None, None),
    ];
    let (r, code) = validated(&err, "/w");
    assert_eq!(r.errors.len(), 1);
    assert_eq!(code, 1);
}
