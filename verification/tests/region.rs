use smllm::harness::region::{find_region, render_region, Markers};

const BLOCK: &str = "Read the skill.\n";

fn m() -> Markers {
    Markers::new("tool")
}

#[test]
fn markers_carry_the_tool_name() {
    assert_eq!(m().open, "<!-- tool:harness -->");
    assert_eq!(m().close, "<!-- /tool:harness -->");
}

#[test]
fn a_new_file_is_the_block_alone() {
    let out = render_region(None, BLOCK, &m()).unwrap();
    assert_eq!(
        out,
        "<!-- tool:harness -->\n\nRead the skill.\n<!-- /tool:harness -->\n"
    );
    assert_eq!(find_region(&out, &m()).as_deref(), Some(BLOCK));
    assert_eq!(render_region(Some(&out), BLOCK, &m()), None);
    assert_eq!(
        render_region(None, "x", &m()).unwrap(),
        "<!-- tool:harness -->\n\nx\n<!-- /tool:harness -->\n"
    );
    assert_eq!(
        render_region(None, "", &m()).unwrap(),
        "<!-- tool:harness -->\n\n<!-- /tool:harness -->\n"
    );
}

#[test]
fn markers_absent_appends_after_one_blank_line() {
    let out = render_region(Some("# Title\n\nText."), BLOCK, &m()).unwrap();
    assert_eq!(
        out,
        "# Title\n\nText.\n\n<!-- tool:harness -->\n\nRead the skill.\n<!-- /tool:harness -->\n"
    );
    assert_eq!(
        render_region(Some(""), BLOCK, &m()).unwrap(),
        m().framed(BLOCK)
    );
    assert_eq!(
        render_region(Some("x\n"), BLOCK, &m()).unwrap(),
        format!("x\n\n{}", m().framed(BLOCK))
    );
}

#[test]
fn markers_present_rewrites_between_the_first_ones_only() {
    let before =
        "# Title\n\n<!-- tool:harness -->\nold\n<!-- /tool:harness -->\n\n## After\n\nkept\n";
    let out = render_region(Some(before), BLOCK, &m()).unwrap();
    assert_eq!(
        out,
        "# Title\n\n<!-- tool:harness -->\n\nRead the skill.\n<!-- /tool:harness -->\n\n## After\n\nkept\n"
    );
    assert_eq!(render_region(Some(&out), BLOCK, &m()), None);
    let before = "<!-- tool:harness -->\n<!-- /tool:harness -->\ntail\n";
    assert_eq!(find_region(before, &m()).as_deref(), Some(""));
    assert_eq!(
        render_region(Some(before), BLOCK, &m()).unwrap(),
        "<!-- tool:harness -->\n\nRead the skill.\n<!-- /tool:harness -->\ntail\n"
    );
    let other = "<!-- sokf:harness -->\nx\n<!-- /sokf:harness -->\n";
    assert_eq!(find_region(other, &m()), None);
    assert!(render_region(Some(other), BLOCK, &m())
        .unwrap()
        .starts_with(other));
}

#[test]
fn keeps_crlf_line_endings() {
    let before = "a\r\n\r\n<!-- tool:harness -->\r\nold\r\n<!-- /tool:harness -->\r\n";
    let out = render_region(Some(before), BLOCK, &m()).unwrap();
    assert_eq!(
        out,
        "a\r\n\r\n<!-- tool:harness -->\r\n\r\nRead the skill.\r\n<!-- /tool:harness -->\r\n"
    );
    assert_eq!(find_region(&out, &m()).as_deref(), Some(BLOCK));
    assert_eq!(render_region(Some(&out), BLOCK, &m()), None);
    let out = render_region(Some("a\r\n"), BLOCK, &m()).unwrap();
    assert!(out.contains("\r\n<!-- tool:harness -->\r\n"), "{out:?}");
}

#[test]
fn a_closing_marker_before_the_opening_one_is_no_block() {
    assert_eq!(
        find_region("<!-- /tool:harness -->\n<!-- tool:harness -->\n", &m()),
        None
    );
    assert_eq!(find_region("no markers", &m()), None);
}

#[test]
fn marker_lines_may_carry_trailing_whitespace() {
    let text = "<!-- tool:harness -->  \n\n\nx\n<!-- /tool:harness -->\t\n";
    assert_eq!(find_region(text, &m()).as_deref(), Some("x\n"));
}

#[test]
fn a_block_with_leading_blank_lines_is_framed_without_them() {
    assert_eq!(
        m().framed("\n  \n\r\nx\r\ny"),
        "<!-- tool:harness -->\n\nx\ny\n<!-- /tool:harness -->\n"
    );
    assert_eq!(
        m().framed(" \n \t "),
        "<!-- tool:harness -->\n\n<!-- /tool:harness -->\n"
    );
}

#[test]
fn region_touches_only_its_block() {
    // The block comes back out, rendering again changes nothing, and the
    // line endings and the text around the markers are kept.
    let texts = [
        "",
        "# a\n\nb",
        "x\r\ny\r\n",
        "head\n<!-- tool:harness -->\nold\n<!-- /tool:harness -->\ntail",
        "<!-- tool:harness -->\r\n<!-- /tool:harness -->",
    ];
    let blocks = ["One line.\n", "Two.\nLines here.\n", "\n\n  Lead blank.\r\nx"];
    for text in texts {
        for block in blocks {
            let after = render_region(Some(text), block, &m()).unwrap_or_else(|| text.to_string());
            let body = m().framed(block);
            let body = body
                .strip_prefix("<!-- tool:harness -->\n\n")
                .unwrap()
                .strip_suffix("<!-- /tool:harness -->\n")
                .unwrap()
                .to_string();
            assert_eq!(find_region(&after, &m()), Some(body), "{text:?} {block:?}");
            assert_eq!(render_region(Some(&after), block, &m()), None);
            assert_eq!(after.contains("\r\n"), text.contains("\r\n"), "{after:?}");
            let lf = after.replace("\r\n", "\n");
            assert_eq!(lf.matches("<!-- tool:harness -->").count(), 1);
            assert!(lf.contains("<!-- tool:harness -->\n\n"));
        }
    }
    let after = render_region(Some("# a\n\nb"), "x\n", &m()).unwrap();
    assert!(after.starts_with("# a\n\nb\n"));
    let after = render_region(
        Some("head\n<!-- tool:harness -->\nold\n<!-- /tool:harness -->\ntail"),
        "x\n",
        &m(),
    )
    .unwrap();
    assert_eq!(after, "head\n<!-- tool:harness -->\n\nx\n<!-- /tool:harness -->\ntail");
}

#[test]
fn a_carriage_return_inside_a_line_survives_the_round_trip() {
    for before in ["a\rb\n", "a\rb\r\nc\r\n", "x\ry\n<!-- tool:harness -->\nold\n<!-- /tool:harness -->\nz\rw\n"] {
        let out = render_region(Some(before), BLOCK, &m()).unwrap();
        assert_eq!(find_region(&out, &m()).as_deref(), Some(BLOCK));
        assert_eq!(render_region(Some(&out), BLOCK, &m()), None);
        assert_eq!(out.contains("\r\n"), before.contains("\r\n"));
        let lead = before.split("<!--").next().unwrap();
        assert!(out.starts_with(lead));
    }
}

#[test]
fn a_carriage_return_before_a_crlf_survives_the_round_trip() {
    for before in ["x\r\r\ny\r\n", "a\r\nb\r", "x\r\r\n<!-- tool:harness -->\r\nold\r\n<!-- /tool:harness -->\r\nz\r\r\n"] {
        let out = render_region(Some(before), BLOCK, &m()).unwrap();
        assert_eq!(find_region(&out, &m()).as_deref(), Some(BLOCK));
        assert_eq!(render_region(Some(&out), BLOCK, &m()), None);
        assert!(out.contains("\r\n"));
    }
}
