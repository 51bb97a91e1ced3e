use smllm::error::Error as KitError;
use smllm::cli::{exit_code, json_line, Failure, EXIT_ERRORS, EXIT_FAILURE, EXIT_OK};
use smllm::greeting::{greet, render_hello};
use smllm::json::Json;

#[test]
fn exit_codes_and_the_error_line() {
    assert_eq!(exit_code(&Ok(EXIT_ERRORS)), (1, None));
    let pipe = Failure {
        message: "<stdout>: Broken pipe".into(),
        broken_pipe: true,
    };
    assert_eq!(exit_code(&Err(pipe)), (0, None));
    let no_profile = Failure {
        message: "no profile".into(),
        broken_pipe: false,
    };
    assert_eq!(
        exit_code(&Err(no_profile)),
        (2, Some("error: no profile\n".to_string()))
    );
    assert_eq!(exit_code(&Ok(0)), (0, None));
    assert_eq!((EXIT_OK, EXIT_ERRORS, EXIT_FAILURE), (0, 1, 2));
}

#[test]
fn stdout_helpers() {
    let v = Json::Object(vec![("a".into(), Json::Number("1".into()))]);
    assert_eq!(json_line(&v), "{\"a\":1}\n");
}

#[test]
fn hello_greets_the_world_by_default() {
    let g = greet(None).unwrap();
    assert_eq!(render_hello(&g, false), "Hello, world!\n");
}

#[test]
fn hello_greets_a_named_recipient() {
    let g = greet(Some("ada")).unwrap();
    assert_eq!(render_hello(&g, false), "Hello, ada!\n");
}

#[test]
fn hello_json_emits_a_single_parsable_object() {
    let out = render_hello(&greet(Some("ada")).unwrap(), true);
    let doc: serde_json::Value = serde_json::from_str(&out).unwrap();
    assert_eq!(doc["name"], "ada");
    assert_eq!(doc["message"], "Hello, ada!");
}

#[test]
fn a_blank_name_fails_with_a_message_on_stderr() {
    let e = greet(Some("   ")).unwrap_err();
    let failure = Failure {
        message: e.message(),
        broken_pipe: false,
    };
    let (code, line) = exit_code(&Err(failure));
    assert_eq!(code, 2, "errors exit 2");
    let line = line.unwrap();
    assert!(line.starts_with("error: "), "{line}");
    assert!(line.contains("must not be blank"), "{line}");
}

#[test]
fn hello_renders_through_the_core() {
    let g = greet(Some("ada")).unwrap();
    assert_eq!(render_hello(&g, false), "Hello, ada!\n");
    // A blank name is the core's error, surfaced unchanged.
    assert!(matches!(greet(Some("  ")), Err(smllm::greeting::Error::Config(_))));
}

#[test]
fn display_names_the_path_and_the_source() {
    let msg = KitError::io("/tmp/x", "denied").message();
    assert!(msg.contains("/tmp/x") && msg.contains("denied"), "{msg}");
    assert_eq!(msg, "/tmp/x: denied");
    assert_eq!(KitError::Harness("no".into()).message(), "no");
    assert_eq!(KitError::Internal("bug".into()).message(), "internal: bug");
}
