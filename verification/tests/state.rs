use smllm::error::Error;
use smllm::harness::merge::MergeOp;
use smllm::harness::part::{
    instructions_file, render_files, target_path, Content, ExternalPart, Part, Profile, Target,
};
use smllm::harness::state::{hash, state, Found, Observed, State};
use smllm::harness::tool::{record_header, Scope};
use smllm::hash::hash_text;
use smllm::json::Json;
use smllm::paths::{config_candidates, home_dir_in, user_dir_in, BaseDirs, UserDir};

fn block(s: &str) -> Found {
    Found::Block(s.into())
}

#[test]
fn the_hash_is_fnv1a() {
    assert_eq!(hash(&block("")), "fnv1a64:cbf29ce484222325");
    assert_eq!(hash(&block("a")), "fnv1a64:af63dc4c8601ec8c");
    // A block hashes its words.
    assert_eq!(hash(&block("x\r\n  y\n")), hash(&block("x y")));
    // Files hash their paths too, so a rename changes the hash.
    let a = Found::Files(vec![("A.md".into(), "t\n".into())]);
    let b = Found::Files(vec![("B.md".into(), "t\r\n".into())]);
    assert_ne!(hash(&a), hash(&b));
    let e = Found::Entries(vec![Json::Object(vec![(
        "a".into(),
        Json::Array(vec![Json::Number("1".into()), Json::Number("2".into())]),
    )])]);
    assert_eq!(hash(&e), hash_text("[{\"a\":[1,2]}]"));
    assert_eq!(hash(&Found::Text("t\r\n".into())), hash_text("t\n"));
}

#[test]
fn a_block_is_compared_by_words() {
    let expected = block("Use the tool.\nAlways.\n");
    let reflowed = Observed::Present(block("Use  the\ntool.   Always.\r\n\n"));
    assert_eq!(state(&reflowed, &expected, None, false), State::Current);
    let other = Observed::Present(block("Use a tool. Always."));
    assert_eq!(state(&other, &expected, None, false), State::Edited);
}

#[test]
fn each_row_of_the_state_table() {
    let expected = block("new\n");
    let old = block("old\n");
    let recorded = hash(&old);
    assert_eq!(
        state(&Observed::Present(block("new\n")), &expected, None, true),
        State::Skipped
    );
    assert_eq!(state(&Observed::Absent, &expected, None, false), State::Absent);
    assert_eq!(
        state(&Observed::Present(block("new\r\n")), &expected, None, false),
        State::Current
    );
    assert_eq!(
        state(&Observed::Present(block("old\n")), &expected, Some(&recorded), false),
        State::Stale
    );
    assert_eq!(
        state(&Observed::Present(block("old\n")), &expected, None, false),
        State::Edited
    );
    assert_eq!(
        state(&Observed::Present(block("other\n")), &expected, Some(&recorded), false),
        State::Edited
    );
    assert_eq!(
        state(&Observed::Present(Found::Files(vec![])), &expected, None, false),
        State::Edited
    );
    let files = Found::Files(vec![("a".into(), "x\n".into())]);
    assert_eq!(
        state(
            &Observed::Present(Found::Files(vec![("a".into(), "x\r\n".into())])),
            &files,
            None,
            false
        ),
        State::Current
    );
    assert_eq!(
        state(
            &Observed::Present(Found::Text("a\r\n".into())),
            &Found::Text("a\n".into()),
            None,
            false
        ),
        State::Current
    );
    assert_eq!(State::Stale.as_str(), "stale");
    assert_eq!(State::Edited.as_str(), "edited");
}

#[test]
fn the_states_partition_on_a_block() {
    // Declined wins; then absent; then equal words; then the record decides.
    let expected = block("embedded\n");
    let mine = block("mine\n");
    let h = hash(&mine);
    assert_eq!(state(&Observed::Absent, &expected, Some(&h), true), State::Skipped);
    assert_eq!(state(&Observed::Absent, &expected, Some(&h), false), State::Absent);
    assert_eq!(
        state(&Observed::Present(block(" embedded ")), &expected, Some(&h), false),
        State::Current
    );
    assert_eq!(state(&Observed::Present(block("mine\n")), &expected, Some(&h), false), State::Stale);
    assert_eq!(
        state(
            &Observed::Present(block("mine\n")),
            &expected,
            Some("fnv1a64:0000000000000000"),
            false
        ),
        State::Edited
    );
    let eh = hash(&expected);
    assert_eq!(
        state(&Observed::Present(block("embedded\n")), &expected, Some(&eh), false),
        State::Current
    );
}

#[test]
fn scopes_parse_and_print() {
    for s in [Scope::Project, Scope::User] {
        assert_eq!(Scope::parse(s.as_str()).unwrap(), s);
        assert_eq!(s.as_str().parse::<Scope>().unwrap(), s);
    }
    assert_eq!("global".parse::<Scope>().unwrap_err().message(), "no scope named `global`");
    match Scope::parse("global") {
        Err(e) => assert_eq!(e.message(), "no scope named `global`"),
        Ok(s) => panic!("parsed {s:?}"),
    }
    assert_eq!(Scope::User.as_str(), "user");
    assert_eq!(Scope::default(), Scope::Project);
}

#[test]
fn the_record_header_names_the_tool() {
    assert_eq!(
        record_header("tool"),
        "# Written by tool harness install. Do not edit."
    );
}

#[derive(Debug)]
struct Ext;

impl ExternalPart for Ext {
    fn location(&self) -> String {
        "ext (user)".into()
    }
    fn expected(&self) -> String {
        "x".into()
    }
    fn observe(&self) -> Result<Option<String>, Error> {
        Ok(None)
    }
    fn write(&self) -> Result<(), Error> {
        Ok(())
    }
}

#[test]
fn constructors_set_target_and_content() {
    let p = Profile {
        harness: "agent".into(),
        parts: vec![
            Part::files(
                "skills",
                ".agent/skills/t",
                vec![("SKILL.md".into(), "s".into())],
            ),
            Part::instructions("instructions", "b"),
            Part::region("notes", "NOTES.md", "n"),
            Part::merge("hooks", ".agent/settings.json", vec![]),
            Part::external("mcp", &Ext),
        ],
        hooks: vec!["stop".into()],
    };
    assert_eq!(
        p.part("skills").unwrap().target,
        Target::Fixed(".agent/skills/t".into())
    );
    assert_eq!(p.part("instructions").unwrap().target, Target::Instructions);
    assert_eq!(p.part("notes").unwrap().target, Target::Fixed("NOTES.md".into()));
    assert!(matches!(p.part("hooks").unwrap().content, Content::Merge(_)));
    assert_eq!(p.part("mcp").unwrap().target, Target::Fixed("ext (user)".into()));
    assert!(p.part("nope").is_none());
    assert!(p.has_hook("stop") && !p.has_hook("start"));
}

#[test]
fn renders_each_file_with_lf() {
    let part = Part::files("x", "d", vec![("a.md".into(), "a\r\nb\r\n".into())]);
    assert_eq!(
        render_files(&part),
        vec![("a.md".to_string(), "a\nb\n".to_string())]
    );
    assert!(render_files(&Part::instructions("i", "b")).is_empty());
}

#[test]
fn the_instructions_rule() {
    let own = "AGENT.md";
    // Neither file: the harness's own file, created later.
    assert_eq!(instructions_file(false, own, None), "AGENT.md");
    // AGENTS.md alone.
    assert_eq!(instructions_file(true, own, None), "AGENTS.md");
    // Both, the own file without the import.
    assert_eq!(instructions_file(true, own, Some("# Agent\n")), "AGENT.md");
    // Both, with the import, spaces around it allowed.
    assert_eq!(instructions_file(true, own, Some("  @AGENTS.md  \n")), "AGENTS.md");
    // The own file alone.
    assert_eq!(instructions_file(false, own, Some("  @AGENTS.md  \n")), "AGENT.md");
    // A fixed part ignores the tree.
    let hooks = Part::merge("hooks", ".agent/settings.json", vec![]);
    assert_eq!(target_path(&hooks, "AGENTS.md"), ".agent/settings.json");
    let instructions = Part::instructions("instructions", "b");
    assert_eq!(target_path(&instructions, "AGENTS.md"), "AGENTS.md");
}

#[test]
fn a_merge_part_keeps_its_operations() {
    let op = MergeOp::array_entry("permissions.allow", Json::Str("Read".into()));
    let part = Part::merge("permissions", "s.json", vec![op]);
    match &part.content {
        Content::Merge(ops) => assert_eq!(ops.len(), 1),
        other => panic!("{other:?}"),
    }
}

#[test]
fn project_config_is_found_upward() {
    assert_eq!(
        config_candidates("/d/a/b"),
        vec![
            "/d/a/b/.smllm/config.toml".to_string(),
            "/d/a/.smllm/config.toml".to_string(),
            "/d/.smllm/config.toml".to_string(),
            "/.smllm/config.toml".to_string(),
        ]
    );
    assert_eq!(
        config_candidates("a"),
        vec!["a/.smllm/config.toml".to_string(), ".smllm/config.toml".to_string()]
    );
}

#[test]
fn the_user_directories_follow_the_base_directories() {
    let dirs = Ok(BaseDirs {
        home: "/home/u".into(),
        config: "/home/u/.config".into(),
        data: "/home/u/.local/share".into(),
        state: None,
    });
    assert_eq!(user_dir_in(&dirs, UserDir::Config).unwrap(), "/home/u/.config/smllm");
    assert_eq!(user_dir_in(&dirs, UserDir::State).unwrap(), "/home/u/.local/share/smllm");
    assert_eq!(home_dir_in(&dirs, ".agent").unwrap(), "/home/u/.agent");
    let dirs = Ok(BaseDirs {
        home: "/h".into(),
        config: "/h/c".into(),
        data: "/h/d".into(),
        state: Some("/h/s".into()),
    });
    assert_eq!(user_dir_in(&dirs, UserDir::State).unwrap(), "/h/s/smllm");
    let none: Result<BaseDirs, String> = Err("could not locate home directory".into());
    assert_eq!(
        user_dir_in(&none, UserDir::Config).unwrap_err(),
        "no home directory: could not locate home directory"
    );
}

#[test]
fn trailing_separators_do_not_count_as_directories() {
    assert_eq!(
        config_candidates("/d/a/"),
        vec![
            "/d/a/.smllm/config.toml".to_string(),
            "/d/.smllm/config.toml".to_string(),
            "/.smllm/config.toml".to_string(),
        ]
    );
}

fn project(config: Option<&str>) -> String {
    smllm::smllm::Smllm::new("/cwd", config, "/h/.agent", "/h/.config/smllm", "agent").root(Scope::Project)
}

#[test]
fn the_project_is_the_directory_holding_the_config() {
    assert_eq!(project(None), "/cwd");
    assert_eq!(project(Some("/w/.smllm/config.toml")), "/w");
    assert_eq!(project(Some("/w/.smllm//config.toml")), "/w");
    assert_eq!(project(Some("/w/.smllm/./config.toml")), "/w");
    assert_eq!(project(Some("/w/other.toml")), "/w");
    assert_eq!(project(Some("/.smllm/config.toml")), "/");
    assert_eq!(project(Some("/config.toml")), "/");
    // The root has no parent, so a config there leaves the working directory.
    assert_eq!(project(Some("/")), "/cwd");
    assert_eq!(project(Some("config.toml")), "");
}

#[test]
fn a_block_hashes_as_its_words_joined_by_spaces() {
    for a in ["Use  the\ntool.   Always.\r\n\n", "\t one\u{a0}two  ", "", "x"] {
        let joined = a.split_whitespace().collect::<Vec<_>>().join(" ");
        assert_eq!(hash(&Found::Block(a.to_string())), hash_text(&joined));
    }
}
