use smllm::json::compact_text;
use smllm::report::{report_text, Finding, Report, Severity};

#[test]
fn the_line_carries_the_level_and_authority() {
    let f = Finding::error("a.yaml", Some(3), "bad", "CFG-1");
    assert_eq!(f.to_line(), "a.yaml:3: error: bad (CFG-1)");
    let f = Finding::warning("a.yaml", None, "odd", "");
    assert_eq!(f.to_line(), "a.yaml: warning: odd");
    let f = Finding::info("c.toml", Some(1), "project wins", "CLI-3");
    assert_eq!(f.severity, Severity::Info);
    assert_eq!(f.to_line(), "c.toml:1: info: project wins (CLI-3)");
}

fn report() -> Report {
    let mut r = Report::new();
    r.push(Finding::error("b.yaml", Some(2), "bad", "CFG-1"));
    r.push(Finding::warning("a.yaml", None, "odd", "CFG-2"));
    r.push(Finding::info("a.yaml", Some(1), "note", ""));
    r.finish()
}

#[test]
fn errors_only_by_default() {
    assert_eq!(
        report_text(&report(), false, false),
        "b.yaml:2: error: bad (CFG-1)\n1 error, 1 warning, 1 info\n"
    );
}

#[test]
fn warnings_and_info_are_listed_in_path_order_when_asked() {
    assert_eq!(
        report_text(&report(), true, true),
        "a.yaml: warning: odd (CFG-2)\na.yaml:1: info: note\nb.yaml:2: error: bad (CFG-1)\n1 error, 1 warning, 1 info\n"
    );
    assert_eq!(
        report_text(&Report::new(), true, true),
        "0 errors, 0 warnings, 0 info\n"
    );
}

#[test]
fn finish_orders_by_path_line_message_and_drops_duplicates() {
    let mut r = Report::new();
    r.extend(vec![
        Finding::error("b.md", Some(2), "m2", "A-1"),
        Finding::error("a.md", Some(9), "m1", "A-1"),
        Finding::error("b.md", None, "m1", "A-1"),
        Finding::error("b.md", Some(2), "m1", "A-1"),
        Finding::error("a.md", Some(9), "m1", "A-1"),
        Finding::warning("z.md", None, "w", ""),
    ]);
    let r = r.finish();
    let lines: Vec<String> = r.errors.iter().map(|f| f.to_line()).collect();
    assert_eq!(
        lines,
        vec![
            "a.md:9: error: m1 (A-1)",
            "b.md: error: m1 (A-1)",
            "b.md:2: error: m1 (A-1)",
            "b.md:2: error: m2 (A-1)",
        ]
    );
    assert_eq!(r.warnings.len(), 1);
    assert!(r.info.is_empty());
    assert!(r.has_errors());
    assert!(!Report::new().has_errors());
}

#[test]
fn counts_use_the_plural_except_for_one() {
    let mut r = Report::new();
    r.push(Finding::error("a", Some(10), "x", ""));
    r.push(Finding::error("a", Some(2), "y", ""));
    let text = report_text(&r.finish(), false, false);
    assert_eq!(text, "a:2: error: y\na:10: error: x\n2 errors, 0 warnings, 0 info\n");
    assert_eq!(Severity::Warning.as_str(), "warning");
    assert_eq!(Finding::error("p", None, "m", "").full_message(), "m");
}

#[test]
fn json_has_three_lists() {
    let mut r = Report::new();
    r.push(Finding::error("a.yaml", Some(41), "x", "CFG-1"));
    r.push(Finding::warning("b.yaml", None, "w", ""));
    r.push(Finding::info("c.toml", None, "i", "CLI-3"));
    let r = r.finish();
    let text = compact_text(&r.to_json());
    assert_eq!(
        text,
        "{\"errors\":[{\"path\":\"a.yaml\",\"line\":41,\"message\":\"x\",\"authority\":\"CFG-1\"}],\"warnings\":[{\"path\":\"b.yaml\",\"message\":\"w\"}],\"info\":[{\"path\":\"c.toml\",\"message\":\"i\",\"authority\":\"CLI-3\"}]}"
    );
    let v: serde_json::Value = serde_json::from_str(&text).unwrap();
    assert_eq!(v["errors"][0]["line"], 41);
    assert!(r.has_errors());
    assert!(!Report::new().has_errors());
}

#[test]
fn finish_orders_by_path_then_line_and_dedups() {
    let mut r = Report::new();
    for (path, line, msg) in [
        ("z.md", Some(3), "m1"),
        ("a.md", Some(9), "m2"),
        ("a.md", None, "m1"),
        ("a.md", Some(9), "m1"),
        ("z.md", Some(3), "m1"),
        ("b/c.md", Some(1), "m2"),
    ] {
        r.push(Finding::warning(path, line, msg, "A-1"));
    }
    let r = r.finish();
    let got: Vec<(String, Option<usize>, String)> =
        r.warnings.iter().map(|f| (f.path.clone(), f.line, f.message.clone())).collect();
    assert_eq!(
        got,
        vec![
            ("a.md".to_string(), None, "m1".to_string()),
            ("a.md".to_string(), Some(9), "m1".to_string()),
            ("a.md".to_string(), Some(9), "m2".to_string()),
            ("b/c.md".to_string(), Some(1), "m2".to_string()),
            ("z.md".to_string(), Some(3), "m1".to_string()),
        ]
    );
    assert!(r.errors.is_empty() && r.info.is_empty());
}

#[test]
fn finish_drops_every_repeat_not_only_neighbours() {
    let a = Finding::new("a.md", Some(1), Severity::Error, "m", "X");
    let b = Finding::new("a.md", Some(1), Severity::Error, "m", "Y");
    let mut r = Report::new();
    r.push(a.duplicate());
    r.push(b.duplicate());
    r.push(a.duplicate());
    let r = r.finish();
    assert_eq!(r.errors.len(), 2);
    assert_eq!(r.errors[0].authority, "X");
    assert_eq!(r.errors[1].authority, "Y");
}

#[test]
fn a_report_has_errors_exactly_when_an_error_was_given() {
    let mut r = Report::new();
    r.extend(vec![Finding::warning("a", None, "w", ""), Finding::info("b", None, "i", "")]);
    assert!(!r.has_errors());
    assert!(!r.clone().finish().has_errors());
    r.extend(vec![Finding::error("a", Some(1), "e", "")]);
    assert!(r.has_errors());
    assert!(r.finish().has_errors());
}
