use smllm::listing::{
    find_instance, instance_list_text, instance_text, session_list_text, HistoryRow, Holding, InstanceRow,
    SessionRow,
};

fn session(key: &str, holding: Option<(&str, &str)>) -> SessionRow {
    SessionRow {
        key: key.to_string(),
        harness: "agent".to_string(),
        holding: holding.map(|(m, id)| Holding { machine: m.to_string(), id: id.to_string() }),
        last_active: "2024-05-01T12:00:00Z".to_string(),
        cwd: "/work".to_string(),
    }
}

fn instance(id: &str, reference: Option<&str>, holder: Option<&str>) -> InstanceRow {
    InstanceRow {
        machine: "dev".to_string(),
        id: id.to_string(),
        reference: reference.map(|r| r.to_string()),
        label: reference.unwrap_or(id).to_string(),
        state: "WORK".to_string(),
        status: "active".to_string(),
        holder: holder.map(|h| h.to_string()),
        visits: vec![("DRAFT".to_string(), 1), ("WORK".to_string(), 3)],
    }
}

fn entry(at: &str, event: &str, from: Option<&str>, to: Option<&str>) -> HistoryRow {
    HistoryRow {
        at: at.to_string(),
        session: "sm-k7f3q2".to_string(),
        event: event.to_string(),
        from: from.map(|s| s.to_string()),
        to: to.map(|s| s.to_string()),
        params: vec![],
        trace: vec![],
    }
}

#[test]
fn session_list_lines() {
    let out = session_list_text(&vec![session("sm-k7f3q2", Some(("dev", "a1b2c3"))), session("sm-x", None)]);
    assert_eq!(
        out,
        "sm-k7f3q2  agent  dev a1b2c3  last active 2024-05-01T12:00:00Z  /work\n\
         sm-x  agent  idle  last active 2024-05-01T12:00:00Z  /work\n"
    );
    assert_eq!(session_list_text(&vec![]), "no sessions\n");
}

#[test]
fn instance_list_lines() {
    let out = instance_list_text(&vec![instance("a1b2c3", Some("GH-123"), Some("sm-k7f3q2")), instance("d4e5f6", None, None)]);
    assert_eq!(
        out,
        "dev  GH-123 (a1b2c3)  WORK  active  held by sm-k7f3q2\n\
         dev  d4e5f6 (d4e5f6)  WORK  active\n"
    );
    assert_eq!(instance_list_text(&vec![]), "no instances\n");
}

#[test]
fn an_instance_is_found_by_id_or_ref() {
    let all = vec![instance("a1b2c3", Some("GH-123"), None), instance("d4e5f6", None, None)];
    assert_eq!(find_instance(&all, "a1b2c3"), Ok(0));
    assert_eq!(find_instance(&all, "GH-123"), Ok(0));
    assert_eq!(find_instance(&all, "d4e5f6"), Ok(1));
    assert_eq!(
        find_instance(&all, "nope"),
        Err("no instance nope in the configured state machines".to_string())
    );
    let twice = vec![instance("a1", Some("X"), None), instance("b2", Some("X"), None)];
    assert_eq!(find_instance(&twice, "X"), Ok(1));
}

#[test]
fn instance_show_text() {
    let mut first = entry("2024-05-01T12:00:00Z", "enter", None, Some("DRAFT"));
    first.params = vec![("stateMachine".to_string(), "dev".to_string())];
    first.trace = vec!["entered DRAFT".to_string()];
    let history = vec![
        first,
        entry("t2", "start", Some("DRAFT"), Some("WORK")),
        entry("t3", "yield", Some("WORK"), None),
        entry("t4", "view", None, None),
    ];
    let out = instance_text(&instance("a1b2c3", Some("GH-123"), Some("sm-k7f3q2")), &history);
    assert_eq!(
        out,
        "dev GH-123 (a1b2c3)\n\
         state: WORK  status: active  holder: sm-k7f3q2\n\
         visits: DRAFT=1 WORK=3\n\
         history:\n\
         \x20 2024-05-01T12:00:00Z  sm-k7f3q2  enter  → DRAFT\n\
         \x20     stateMachine = dev\n\
         \x20     entered DRAFT\n\
         \x20 t2  sm-k7f3q2  start  DRAFT → WORK\n\
         \x20 t3  sm-k7f3q2  yield  WORK →\n\
         \x20 t4  sm-k7f3q2  view  \n"
    );
    let mut bare = instance("d4e5f6", None, None);
    bare.visits = vec![];
    assert_eq!(
        instance_text(&bare, &vec![]),
        "dev d4e5f6 (d4e5f6)\nstate: WORK  status: active  holder: -\nvisits: \nhistory:\n"
    );
}
