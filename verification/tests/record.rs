use smllm::harness::declined::{declined_parts, set_declined_text, TomlDeclined};
use smllm::harness::record::{put_entry, read_record, render_record, same_record, Record};

const HEADER: &str = "# Written by tool harness install. Do not edit.";

fn message<T: std::fmt::Debug>(r: Result<T, smllm::error::Error>) -> String {
    r.unwrap_err().message()
}

fn hooks() -> Vec<String> {
    vec!["hooks".to_string()]
}

fn set(text: Option<&str>, d: &str) -> Result<Option<String>, smllm::error::Error> {
    set_declined_text(text, "agent", &hooks(), d)
}

#[test]
fn sets_the_declined_list_in_place() {
    let d = "config.toml";
    assert_eq!(
        set(None, d).unwrap(),
        Some("[harness.agent]\nwithout = [\"hooks\"]\n".into())
    );
    let text = "# The machines.\n[machines]\nfiles = [\"a\"] # kept\n";
    let out = set(Some(text), d).unwrap().unwrap();
    assert!(out.starts_with(text), "{out}");
    assert!(out.ends_with("[harness.agent]\nwithout = [\"hooks\"]\n"), "{out}");
    let text = "[harness.agent] # mine\nwithout = [\"skills\"]\n";
    let out = set(Some(text), d).unwrap().unwrap();
    assert_eq!(out, "[harness.agent] # mine\nwithout = [\"hooks\"]\n");
    assert_eq!(set(Some(&out), d).unwrap(), None);
    let out = set(Some("harness = { agent = { without = [] } }\n"), d).unwrap().unwrap();
    assert_eq!(declined_parts(d, "agent", Some(&out)).unwrap(), hooks());
    let e = message(set(Some("harness = 1\n"), d));
    assert!(e.contains("`harness` is not a table"), "{e}");
    let e = message(set(Some("[harness]\nagent = 1\n"), d));
    assert!(e.contains("`harness.agent` is not a table"), "{e}");
    let e = set(Some("[harness\n"), d).unwrap_err();
    assert!(matches!(e, smllm::error::Error::Harness(_)), "{e:?}");
    assert!(e.message().starts_with("config.toml: "), "{e:?}");
}

#[test]
fn reads_and_renders_the_record() {
    // An absent file is an empty record.
    let empty = read_record("harness.toml", None).unwrap();
    assert!(same_record(&empty, &Record::new()));
    let mut record = Record::new();
    let mut agent = Vec::new();
    put_entry(&mut agent, ("skills".to_string(), "fnv1a64:0000000000000001".to_string()));
    put_entry(&mut agent, ("hooks".to_string(), "fnv1a64:0000000000000002".to_string()));
    put_entry(&mut record.harnesses, ("agent".to_string(), agent));
    put_entry(
        &mut record.harnesses,
        ("aider".to_string(), vec![("x".to_string(), "fnv1a64:03".to_string())]),
    );
    let text = render_record(&record, HEADER);
    assert_eq!(
        text,
        "# Written by tool harness install. Do not edit.\n\n[agent]\nhooks = \"fnv1a64:0000000000000002\"\nskills = \"fnv1a64:0000000000000001\"\n\n[aider]\nx = \"fnv1a64:03\"\n"
    );
    let read = read_record("harness.toml", Some(&text)).unwrap();
    assert!(same_record(&read, &record));
    // An empty table renders nothing; a broken file is a refusal.
    put_entry(&mut record.harnesses, ("empty".to_string(), Vec::new()));
    assert_eq!(render_record(&record, HEADER), text);
    for (bad, why) in [
        ("[agent]\nskills = 1\n", "`agent.skills` is not a string"),
        ("agent = 1\n", "`agent` is not a table"),
        ("[agent\n", ""),
    ] {
        let e = read_record("harness.toml", Some(bad)).unwrap_err();
        assert!(matches!(e, smllm::error::Error::Harness(_)), "{e:?}");
        let e = e.message();
        assert!(e.starts_with("harness.toml: "), "{e}");
        assert!(e.contains(why), "{e}");
    }
}

#[test]
fn the_record_keeps_the_harnesses_in_name_order() {
    let mut record = Record::new();
    put_entry(&mut record.harnesses, ("b".to_string(), vec![("p".to_string(), "h1".to_string())]));
    put_entry(&mut record.harnesses, ("a".to_string(), vec![("p".to_string(), "h2".to_string())]));
    put_entry(&mut record.harnesses, ("b".to_string(), vec![("p".to_string(), "h3".to_string())]));
    let names: Vec<&str> = record.harnesses.iter().map(|(n, _)| n.as_str()).collect();
    assert_eq!(names, vec!["a", "b"]);
    assert_eq!(record.harnesses[1].1[0].1, "h3");
}

#[test]
fn the_toml_store_reads_and_writes() {
    let store = TomlDeclined::new("sub/config.toml", "sub/config.toml");
    assert_eq!(store.path, "sub/config.toml");
    let d = store.display.as_str();
    assert_eq!(declined_parts(d, "agent", None).unwrap(), Vec::<String>::new());
    let written = set_declined_text(None, "agent", &hooks(), d).unwrap().unwrap();
    assert_eq!(declined_parts(d, "agent", Some(&written)).unwrap(), hooks());
    assert_eq!(declined_parts(d, "other", Some(&written)).unwrap(), Vec::<String>::new());
    assert_eq!(
        set_declined_text(Some(&written), "agent", &hooks(), d).unwrap(),
        None
    );
    for (text, empty) in [("[machines]\n", true), ("[harness.agent]\nx = 1\n", true)] {
        assert_eq!(declined_parts(d, "agent", Some(text)).unwrap().is_empty(), empty);
    }
    for (text, why) in [
        ("harness = 1\n", "`harness` is not a table"),
        ("[harness]\nagent = 1\n", "`harness.agent` is not a table"),
        ("[harness.agent]\nwithout = 1\n", "is not a list of part names"),
        ("[harness.agent]\nwithout = [1]\n", "is not a list of part names"),
        ("[harness\n", "sub/config.toml: "),
    ] {
        let e = message(declined_parts(d, "agent", Some(text)));
        assert!(e.contains(why), "{e}");
    }
    let inline = "harness = { agent = { without = [\"hooks\"] } }\n";
    assert_eq!(declined_parts(d, "agent", Some(inline)).unwrap(), hooks());
}
