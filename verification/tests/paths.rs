use smllm::paths::{lookup, explicit, recorded, ConfigFile, Origin};

fn rows(v: &[ConfigFile]) -> Vec<(&str, Origin)> {
    v.iter().map(|c| (c.path.as_str(), c.origin)).collect()
}

#[test]
fn the_explicit_config_is_the_flag_else_a_non_empty_variable() {
    assert_eq!(explicit(Some("a.toml"), Some("b.toml")), Some("a.toml".to_string()));
    assert_eq!(explicit(None, Some("b.toml")), Some("b.toml".to_string()));
    assert_eq!(explicit(None, Some("")), None);
    assert_eq!(explicit(None, None), None);
}

#[test]
fn an_explicit_config_is_loaded_alone() {
    let found = lookup(Some("nope.toml"), "/w/a/b", false, Some("/u/config.toml"), None);
    assert_eq!(found.unwrap_err(), "config /w/a/b/nope.toml does not exist");
    let found = lookup(Some("/w/.smllm/config.toml"), "/w/a/b", true, Some("/u/config.toml"), None).unwrap();
    assert_eq!(rows(&found), vec![("/w/.smllm/config.toml", Origin::Explicit)]);
}

#[test]
fn the_user_config_comes_before_the_project_config() {
    let found = lookup(None, "/w", false, Some("/u/config.toml"), Some("/w/.smllm/config.toml")).unwrap();
    assert_eq!(
        rows(&found),
        vec![("/u/config.toml", Origin::User), ("/w/.smllm/config.toml", Origin::Project)]
    );
    let found = lookup(None, "/w", false, None, Some("/w/.smllm/config.toml")).unwrap();
    assert_eq!(rows(&found), vec![("/w/.smllm/config.toml", Origin::Project)]);
    assert!(lookup(None, "/w", false, None, None).unwrap().is_empty());
}

#[test]
fn recorded_configs_are_explicit() {
    let found = recorded(&vec!["/a/config.toml".to_string(), "/b/x.toml".to_string()]);
    assert_eq!(rows(&found), vec![("/a/config.toml", Origin::Explicit), ("/b/x.toml", Origin::Explicit)]);
}
