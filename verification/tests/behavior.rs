use fixsha::rewrite::parse_and_replace_hash;
use fixsha::runner::{classify, collect_build_events, BuildStatus, StreamEvent};

#[test]
fn replace_exact_output() {
    let updated = parse_and_replace_hash("{\n  cargoHash = \"A\";\n}\n", "cargoHash", "B").unwrap();
    // the rewriter joins lines with `\n` and drops the final line ending
    assert_eq!(updated, "{\n  cargoHash = \"B\";\n}");
}

#[test]
fn replace_is_idempotent() {
    let content = "{\n  pname = \"p\";\n  cargoHash = \"sha256-OLD\";\n}";
    let once = parse_and_replace_hash(content, "cargoHash", "sha256-NEW").unwrap();
    let twice = parse_and_replace_hash(&once, "cargoHash", "sha256-NEW").unwrap();
    assert_eq!(once, twice);
}

#[test]
fn replace_normalizes_crlf_line_endings() {
    let updated =
        parse_and_replace_hash("{\r\n  cargoHash = \"A\";\r\n}\r\n", "cargoHash", "B").unwrap();
    assert_eq!(updated, "{\n  cargoHash = \"B\";\n}");
}

#[test]
fn replace_rewrites_every_matching_line() {
    let updated =
        parse_and_replace_hash("cargoHash = \"A\";\n  cargoHash = \"C\";", "cargoHash", "B")
            .unwrap();
    assert_eq!(updated, "cargoHash = \"B\";\n  cargoHash = \"B\";");
}

#[test]
fn replace_preserves_mixed_indentation() {
    let updated =
        parse_and_replace_hash("{\n \t cargoHash = \"A\";\n}", "cargoHash", "B").unwrap();
    assert_eq!(updated, "{\n \t cargoHash = \"B\";\n}");
}

#[test]
fn replace_error_names_key_and_leaves_no_output() {
    let err = parse_and_replace_hash("{\n  pname = \"p\";\n}\n", "vendorHash", "B").unwrap_err();
    assert_eq!(err.key, "vendorHash");
    assert_eq!(err.message(), "hash `vendorHash` not found");
}

#[test]
fn replace_empty_content_reports_missing_key() {
    assert!(parse_and_replace_hash("", "cargoHash", "B").is_err());
}

#[test]
fn classify_extracts_trimmed_hash() {
    assert_eq!(classify("       got:    sha256-abc123=   "), Some("sha256-abc123="));
}

#[test]
fn classify_requires_the_exact_marker() {
    assert_eq!(classify("expected: sha256-x"), None);
    assert_eq!(classify("gott: sha256-x"), None);
    assert_eq!(classify("Got: sha256-x"), None);
    assert_eq!(classify(""), None);
}

#[test]
fn classify_empty_remainder() {
    assert_eq!(classify("got:"), Some(""));
}

#[test]
fn collect_merges_three_stdout_and_two_stderr_lines() {
    let events = vec![
        StreamEvent::Stdout("one".to_string()),
        StreamEvent::Stderr("building...".to_string()),
        StreamEvent::Stdout("two".to_string()),
        StreamEvent::Stderr("got: abc123".to_string()),
        StreamEvent::Stdout("three".to_string()),
    ];
    let result = collect_build_events(events, BuildStatus { success: false, code: Some(1) });
    assert_eq!(result.stdout_lines.len(), 3);
    assert_eq!(result.stderr_lines.len(), 2);
    assert_eq!(result.stdout_lines, vec!["one", "two", "three"]);
    assert_eq!(result.stderr_lines, vec!["building...", "got: abc123"]);
    assert_eq!(result.new_hash, Some("abc123".to_string()));
}

#[test]
fn collect_without_diagnostic_detects_nothing() {
    let events = vec![
        StreamEvent::Stdout("fine".to_string()),
        StreamEvent::Stderr("warning: slow".to_string()),
    ];
    let result = collect_build_events(events, BuildStatus { success: true, code: Some(0) });
    assert_eq!(result.new_hash, None);
    assert!(result.status.success);
}

#[test]
fn collect_keeps_the_last_reported_hash() {
    let events = vec![
        StreamEvent::Stderr("got: first".to_string()),
        StreamEvent::Stderr("got: second".to_string()),
        StreamEvent::Stdout("done".to_string()),
    ];
    let result = collect_build_events(events, BuildStatus { success: false, code: None });
    assert_eq!(result.new_hash, Some("second".to_string()));
}
