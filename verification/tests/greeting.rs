use smllm::greeting::{greet, render_hello, Error, DEFAULT_NAME};

#[test]
fn greets_the_default_when_no_name_is_given() {
    let g = greet(None).unwrap();
    assert_eq!(g.name, DEFAULT_NAME);
    assert_eq!(g.message, "Hello, world!");
}

#[test]
fn greets_a_named_recipient_and_trims_it() {
    assert_eq!(greet(Some("ada")).unwrap().message, "Hello, ada!");
    // Surrounding whitespace is the shell's, not the user's intent.
    assert_eq!(greet(Some("\t ada \n")).unwrap().name, "ada");
}

#[test]
fn a_blank_name_is_an_error_rather_than_a_greeting_to_nobody() {
    for blank in ["", " ", "\t\n"] {
        let e = greet(Some(blank)).unwrap_err();
        assert!(matches!(e, Error::Config(_)), "{blank:?} -> {e:?}");
        assert!(e.message().contains("must not be blank"));
    }
}

#[test]
fn the_crate_root_re_exports_what_a_consumer_needs() {
    let g = greet(Some("ada")).unwrap();
    assert_eq!(g.name, "ada");
    assert_eq!(g.message, "Hello, ada!");
}

#[test]
fn the_default_name_is_used_when_none_is_given() {
    assert_eq!(greet(None).unwrap().name, DEFAULT_NAME);
}

#[test]
fn errors_carry_a_message_the_cli_can_print() {
    let e = greet(Some("")).unwrap_err();
    assert!(matches!(e, Error::Config(_)));
    assert_eq!(e.message(), "config error: name must not be blank");
}

#[test]
fn serializes_to_the_json_the_cli_emits() {
    let json = render_hello(&greet(Some("ada")).unwrap(), true);
    assert_eq!(json, "{\"name\":\"ada\",\"message\":\"Hello, ada!\"}\n");
}

#[test]
fn human_output_is_one_line() {
    assert_eq!(render_hello(&greet(Some("ada")).unwrap(), false), "Hello, ada!\n");
}

#[test]
fn json_output_is_one_object_per_line() {
    let out = render_hello(&greet(Some("ada")).unwrap(), true);
    assert!(out.ends_with('\n'), "JSON output is newline-terminated");
    let doc: serde_json::Value = serde_json::from_str(&out).unwrap();
    assert_eq!(doc["name"], "ada");
    assert_eq!(doc["message"], "Hello, ada!");
}

#[test]
fn a_name_that_needs_escaping_is_escaped_in_json() {
    let out = render_hello(&greet(Some("a\"b")).unwrap(), true);
    let doc: serde_json::Value = serde_json::from_str(&out).unwrap();
    assert_eq!(doc["name"], "a\"b");
}
