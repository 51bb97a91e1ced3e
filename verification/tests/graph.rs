use smllm::commands::GraphArgs;
use smllm::graph::{
    edges, graph, guard_label, mermaid, text, to_json, GuardDef, HostRun, MachineDef, OnEvent, StateDef,
    TransitionDef,
};
use smllm::json::Json;

fn go(target: Option<&str>, guard: Option<GuardDef>, reenter: bool, set_ref: bool) -> TransitionDef {
    TransitionDef { target: target.map(|t| t.to_string()), guard, reenter, set_ref }
}

fn has_ref() -> GuardDef {
    GuardDef::Host {
        kind: "command".to_string(),
        run: Some(HostRun::Command("test -s \"$SMLLM_REF\"".to_string())),
    }
}

fn state(name: &str, tags: (bool, bool, bool), on: Vec<OnEvent>, always: Vec<TransitionDef>) -> StateDef {
    StateDef {
        name: name.to_string(),
        entry_point: tags.0,
        fallback: tags.1,
        is_final: tags.2,
        on,
        always,
    }
}

fn on(event: &str, transitions: Vec<TransitionDef>) -> OnEvent {
    OnEvent { event: event.to_string(), transitions }
}

fn showcase() -> MachineDef {
    MachineDef {
        id: "showcase".to_string(),
        initial: "DRAFT".to_string(),
        states: vec![
            state(
                "DRAFT",
                (true, false, false),
                vec![on("submit", vec![go(Some("REVIEW"), Some(has_ref()), false, false)])],
                vec![go(Some("REVIEW"), Some(has_ref()), false, false)],
            ),
            state(
                "REVIEW",
                (false, true, false),
                vec![
                    on(
                        "approve",
                        vec![go(
                            Some("DONE"),
                            Some(GuardDef::Visits { state: "REVIEW".to_string(), at_least: 2 }),
                            false,
                            false,
                        )],
                    ),
                    on("revise", vec![go(None, None, true, true)]),
                ],
                vec![],
            ),
            state("DONE", (false, false, true), vec![], vec![]),
        ],
    }
}

fn tiny() -> MachineDef {
    MachineDef {
        id: "tiny".to_string(),
        initial: "A".to_string(),
        states: vec![state("A", (true, true, true), vec![], vec![])],
    }
}

const SHOWCASE_TEXT: &str = "showcase (initial DRAFT)
  DRAFT [entry point]
    submit [command `test -s \"$SMLLM_REF\"`] → REVIEW
    always [command `test -s \"$SMLLM_REF\"`] → REVIEW
  REVIEW [fallback]
    approve [visits REVIEW ≥ 2] → DONE
    revise → (stays) (reenter) (setRef)
  DONE [final]
";

#[test]
fn guard_labels() {
    assert_eq!(guard_label(&has_ref()), "command `test -s \"$SMLLM_REF\"`");
    assert_eq!(
        guard_label(&GuardDef::Host {
            kind: "command".to_string(),
            run: Some(HostRun::Words(vec!["cargo".to_string(), "test".to_string()])),
        }),
        "command [cargo test]"
    );
    assert_eq!(guard_label(&GuardDef::Host { kind: "review".to_string(), run: None }), "review");
    assert_eq!(
        guard_label(&GuardDef::Visits { state: "WORK".to_string(), at_least: 3 }),
        "visits WORK ≥ 3"
    );
}

#[test]
fn always_transitions_come_last() {
    let m = showcase();
    let es = edges(&m.states[0]);
    let events: Vec<&str> = es.iter().map(|(e, _)| *e).collect();
    assert_eq!(events, vec!["submit", "always"]);
    let es = edges(&m.states[1]);
    let events: Vec<&str> = es.iter().map(|(e, _)| *e).collect();
    assert_eq!(events, vec!["approve", "revise"]);
}

#[test]
fn the_text_graph() {
    let t = text(&showcase());
    assert_eq!(t, SHOWCASE_TEXT);
    assert!(t.contains("showcase (initial DRAFT)"));
    assert!(t.contains("always [command `test -s \"$SMLLM_REF\"`] → REVIEW"));
    assert_eq!(text(&tiny()), "tiny (initial A)\n  A [entry point, fallback, final]\n");
}

#[test]
fn the_mermaid_graph() {
    let m = mermaid(&showcase());
    assert_eq!(
        m,
        "---\ntitle: showcase\n---\nstateDiagram-v2\n    [*] --> DRAFT\n\
         \x20   DRAFT --> REVIEW: submit [command test -s $SMLLM_REF]\n\
         \x20   DRAFT --> REVIEW: always [command test -s $SMLLM_REF]\n\
         \x20   REVIEW --> DONE: approve [visits REVIEW ≥ 2]\n\
         \x20   REVIEW --> REVIEW: revise\n\
         \x20   DONE --> [*]\n"
    );
    assert!(m.contains("stateDiagram-v2") && m.contains("DONE --> [*]"));
}

fn member<'a>(j: &'a Json, key: &str) -> &'a Json {
    match j {
        Json::Object(ms) => &ms.iter().find(|(k, _)| k == key).unwrap().1,
        _ => panic!("not an object"),
    }
}

fn text_of(j: &Json) -> &str {
    match j {
        Json::Str(s) => s.as_str(),
        _ => panic!("not a string"),
    }
}

#[test]
fn the_json_graph() {
    let j = to_json(&showcase());
    assert_eq!(text_of(member(&j, "id")), "showcase");
    assert_eq!(text_of(member(&j, "initial")), "DRAFT");
    let Json::Array(states) = member(&j, "states") else { panic!("states") };
    assert_eq!(states.len(), 3);
    assert!(matches!(member(&states[0], "entryPoint"), Json::Bool(true)));
    assert!(matches!(member(&states[2], "final"), Json::Bool(true)));
    let Json::Array(ts) = member(&states[1], "transitions") else { panic!("transitions") };
    assert_eq!(text_of(member(&ts[0], "guard")), "visits REVIEW ≥ 2");
    assert!(matches!(member(&ts[1], "target"), Json::Null));
    assert!(matches!(member(&ts[1], "guard"), Json::Null));
    assert!(matches!(member(&ts[1], "reenter"), Json::Bool(true)));
}

fn args(id: Option<&str>, json: bool, mermaid: bool) -> GraphArgs {
    GraphArgs { id: id.map(|s| s.to_string()), json, mermaid }
}

#[test]
fn graph_forms() {
    let machines = vec![showcase(), tiny()];
    let o = graph(&args(None, false, false), &machines).unwrap();
    assert_eq!(o, format!("{SHOWCASE_TEXT}\ntiny (initial A)\n  A [entry point, fallback, final]\n"));
    let o = graph(&args(Some("tiny"), false, true), &machines).unwrap();
    assert_eq!(o, "---\ntitle: tiny\n---\nstateDiagram-v2\n    [*] --> A\n    A --> [*]\n");
    let o = graph(&args(None, true, false), &machines).unwrap();
    let v: serde_json::Value = serde_json::from_str(&o).unwrap();
    assert_eq!(v["machines"][0]["id"], "showcase");
    assert_eq!(v["machines"][1]["states"][0]["name"], "A");
    assert_eq!(
        v["machines"][0]["states"][0]["transitions"][1]["guard"],
        "command `test -s \"$SMLLM_REF\"`"
    );
    assert!(o.ends_with("}\n"));
    assert_eq!(graph(&args(Some("nope"), false, false), &machines).unwrap_err(), "no state machine nope");
}
