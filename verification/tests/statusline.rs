use smllm::statusline::{row, InstanceLabel, SessionStatus};

fn working(visit: u32, yielded: bool) -> SessionStatus {
    SessionStatus {
        machine: Some("dev".to_string()),
        state: Some("WORK".to_string()),
        visit: Some(visit),
        yielded,
        instance: Some(InstanceLabel { kind: "issue".to_string(), label: "GH-123".to_string() }),
        suspended: false,
        parked: 2,
    }
}

fn idle(suspended: bool, parked: u32) -> SessionStatus {
    SessionStatus {
        machine: None,
        state: None,
        visit: None,
        yielded: false,
        instance: None,
        suspended,
        parked,
    }
}

#[test]
fn default_rows() {
    let rows = [
        row(&working(1, false), false),
        row(&working(3, false), false),
        row(&working(3, true), false),
        row(&idle(false, 0), false),
        row(&idle(true, 2), false),
        row(&idle(false, 1), false),
        row(&working(3, true), true),
        row(&idle(true, 2), true),
    ];
    let expected = [
        "smllm dev › WORK · issue GH-123",
        "smllm dev › WORK (visit 3) · issue GH-123",
        "smllm dev › WORK (visit 3) · issue GH-123 · yielded",
        "smllm idle",
        "smllm idle · 1 suspended · 2 parked",
        "smllm idle · 1 parked",
        "\\e[2msmllm\\e[0m \\e[36mdev\\e[0m › \\e[1mWORK\\e[0m \\e[2m(visit 3)\\e[0m · \\e[35missue GH-123\\e[0m · \\e[33myielded\\e[0m",
        "\\e[2msmllm\\e[0m idle · \\e[2m1 suspended\\e[0m · \\e[2m2 parked\\e[0m",
    ];
    assert_eq!(rows.join("\n").replace('\x1b', "\\e"), expected.join("\n"));
}

#[test]
fn a_first_visit_is_not_counted() {
    assert_eq!(row(&working(1, true), false), "smllm dev › WORK · issue GH-123 · yielded");
    assert_eq!(row(&working(2, false), false), "smllm dev › WORK (visit 2) · issue GH-123");
}

#[test]
fn a_session_without_an_instance_is_idle() {
    let mut s = working(3, true);
    s.instance = None;
    assert_eq!(row(&s, false), "smllm idle · 2 parked");
}
