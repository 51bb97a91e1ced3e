use smllm::hash::{hash_text, normalise};

#[test]
fn known_vectors_and_line_endings() {
    assert_eq!(hash_text(""), "fnv1a64:cbf29ce484222325");
    assert_eq!(hash_text("a"), "fnv1a64:af63dc4c8601ec8c");
    assert_eq!(hash_text("foobar"), "fnv1a64:85944171f73967e8");
    assert_eq!(hash_text("x\r\ny\r\n"), hash_text("x\ny\n"));
}

#[test]
fn normalise_turns_crlf_into_lf_only() {
    assert_eq!(normalise("a\r\nb\rc\n"), "a\nb\rc\n");
    assert_eq!(normalise(""), "");
}

#[test]
fn a_multibyte_text_hashes_its_utf8_bytes() {
    // "é" is the two bytes c3 a9.
    assert_ne!(hash_text("é"), hash_text("e"));
    assert_eq!(hash_text("é").len(), "fnv1a64:".len() + 16);
}

#[test]
fn crlf_hashes_as_lf() {
    assert_eq!(smllm::hash::hash_text("a\r\nb\r\n"), smllm::hash::hash_text("a\nb\n"));
}
