use fixsha::rewrite::parse_and_replace_hash;
use fixsha::runner::{BuildStatus, NixBuildResult};

#[test]
fn test_parse_and_replace_hash_basic() {
    let original_content = r#"{
  lib,
  rustPlatform,
}:
rustPlatform.buildRustPackage {
  pname = "test-package";
  version = "0.1.0";

  cargoHash = "sha256-AAAAAAAAAAAAAAAAAAAAAAAAAAAAAAAAAAAAAAAAAAA=";

  meta = {
    description = "A test package";
  };
}
"#;

    let new_hash = "sha256-BBBBBBBBBBBBBBBBBBBBBBBBBBBBBBBBBBBBBBBBBBB=";
    let updated_content = parse_and_replace_hash(original_content, "cargoHash", new_hash).unwrap();

    assert!(updated_content.contains(&format!(r#"cargoHash = "{}";"#, new_hash)));
    assert!(!updated_content.contains("sha256-AAAAAAAAAAAAAAAAAAAAAAAAAAAAAAAAAAAAAAAAAAA="));
}

#[test]
fn test_parse_and_replace_hash_preserves_indentation() {
    let original_content = r#"{
  lib,
  rustPlatform,
}:
rustPlatform.buildRustPackage {
  pname = "test-package";

    cargoHash = "sha256-OLD_HASH";

  meta = {
    description = "A test package";
  };
}
"#;

    let new_hash = "sha256-NEW_HASH";
    let updated_content = parse_and_replace_hash(original_content, "cargoHash", new_hash).unwrap();

    // Check that the indentation (4 spaces) is preserved
    assert!(updated_content.contains(&format!(r#"    cargoHash = "{}";"#, new_hash)));
}

#[test]
fn test_parse_and_replace_hash_with_tabs() {
    let original_content = "{\n\tcargoHash = \"sha256-OLD\";\n}\n";

    let new_hash = "sha256-NEW";
    let updated_content = parse_and_replace_hash(original_content, "cargoHash", new_hash).unwrap();

    assert!(updated_content.contains(&format!("\tcargoHash = \"{}\";", new_hash)));
}

#[test]
fn test_parse_and_replace_hash_not_found() {
    let original_content = r#"{
  pname = "test-package";
  version = "0.1.0";
}
"#;

    let result = parse_and_replace_hash(original_content, "cargoHash", "sha256-NEW");

    assert!(result.is_err());
    let err_msg = result.unwrap_err().message();
    assert!(err_msg.contains("hash `cargoHash` not found"));
}

#[test]
fn test_parse_and_replace_hash_different_key() {
    let original_content = r#"{
  vendorHash = "sha256-OLD_VENDOR_HASH";
  cargoHash = "sha256-OLD_CARGO_HASH";
}
"#;

    let new_hash = "sha256-NEW_VENDOR_HASH";
    let updated_content = parse_and_replace_hash(original_content, "vendorHash", new_hash).unwrap();

    // vendorHash should be updated
    assert!(updated_content.contains(&format!(r#"vendorHash = "{}";"#, new_hash)));
    // cargoHash should remain unchanged
    assert!(updated_content.contains(r#"cargoHash = "sha256-OLD_CARGO_HASH";"#));
}

#[test]
fn test_parse_and_replace_hash_with_spaces_around_equals() {
    let original_content = r#"{
  cargoHash   =   "sha256-OLD";
}
"#;

    let new_hash = "sha256-NEW";
    let updated_content = parse_and_replace_hash(original_content, "cargoHash", new_hash).unwrap();

    assert!(updated_content.contains(&format!(r#"cargoHash = "{}";"#, new_hash)));
}

#[test]
fn test_parse_and_replace_hash_multiple_files() {
    let content1 = "{\n  cargoHash = \"sha256-OLD1\";\n}\n";
    let content2 = "{\n  cargoHash = \"sha256-OLD2\";\n}\n";

    let updated1 = parse_and_replace_hash(content1, "cargoHash", "sha256-NEW1").unwrap();
    let updated2 = parse_and_replace_hash(content2, "cargoHash", "sha256-NEW2").unwrap();

    assert!(updated1.contains(r#"  cargoHash = "sha256-NEW1";"#));
    assert!(updated2.contains(r#"  cargoHash = "sha256-NEW2";"#));
}

#[test]
fn test_nix_build_result_structure() {
    // Test that NixBuildResult can be constructed and accessed
    // This is a basic structure test to ensure the public API is accessible
    let result = NixBuildResult {
        status: BuildStatus { success: true, code: Some(0) },
        stdout_lines: vec!["line1".to_string(), "line2".to_string()],
        stderr_lines: vec!["error1".to_string()],
        new_hash: Some("sha256-HASH".to_string()),
    };

    assert!(result.status.success);
    assert_eq!(result.stdout_lines.len(), 2);
    assert_eq!(result.stderr_lines.len(), 1);
    assert_eq!(result.new_hash, Some("sha256-HASH".to_string()));
}
