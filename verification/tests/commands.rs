use smllm::commands::{install_options, params, relative, use_color, ColorChoice, HarnessArgs};
use smllm::harness::tool::Scope;

#[test]
fn relative_paths() {
    assert_eq!(relative("/a/b", "/a/b/c.yaml"), "c.yaml");
    assert_eq!(relative("/a/b", "/a/m/c.yaml"), "../m/c.yaml");
}

#[test]
fn relative_paths_of_the_same_and_of_an_ancestor() {
    assert_eq!(relative("/a/b", "/a/b"), "");
    assert_eq!(relative("/a/b/c", "/a"), "../..");
    assert_eq!(relative("a/./b", "a/b/x"), "x");
}

#[test]
fn params_need_an_equals_sign() {
    assert_eq!(params(&vec!["a=b=c".into()]).unwrap(), vec![("a".to_string(), "b=c".to_string())]);
    assert!(params(&vec!["nope".into()]).is_err());
}

#[test]
fn a_param_without_an_equals_sign_is_named() {
    assert_eq!(
        params(&vec!["k=v".into(), "nope".into()]).unwrap_err(),
        "--param nope: expected KEY=VALUE"
    );
    assert_eq!(params(&vec!["=x".into(), "y=".into()]).unwrap(), vec![
        ("".to_string(), "x".to_string()),
        ("y".to_string(), "".to_string()),
    ]);
}

#[test]
fn colour_choice() {
    assert!(use_color(None, None));
    assert!(use_color(None, Some("")));
    assert!(!use_color(None, Some("1")));
    assert!(!use_color(Some(ColorChoice::Auto), Some("1")));
    assert!(use_color(Some(ColorChoice::Always), Some("1")));
    assert!(!use_color(Some(ColorChoice::Never), None));
}

#[test]
fn install_options_parse_the_scope_and_keep_without_only_when_given() {
    let args = HarnessArgs {
        name: "agent".into(),
        scope: "user".into(),
        without: vec![],
        force: true,
        json: false,
    };
    let o = install_options(&args).unwrap();
    assert_eq!(o.harness, "agent");
    assert_eq!(o.scope, Scope::User);
    assert!(o.without.is_none());
    assert!(o.force);
    let args = HarnessArgs { without: vec!["hooks".into()], scope: "project".into(), ..args };
    assert_eq!(install_options(&args).unwrap().without, Some(vec!["hooks".to_string()]));
    let args = HarnessArgs { scope: "global".into(), ..args };
    assert_eq!(install_options(&args).unwrap_err().message(), "no scope named `global`");
}
