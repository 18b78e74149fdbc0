use focal::paths::validate_logical_path;
use focal::slug::slugify;

#[test]
fn slug_generation_matches_filesystem_style() {
    assert_eq!(
        slugify(" Rust keeps local tools simple "),
        "rust-keeps-local-tools-simple"
    );
    assert_eq!(slugify("!!!"), "node");
}

#[test]
fn logical_path_validation_checks_id_suffix() {
    let id = "550e8400-e29b-41d4-a716-446655440000";
    assert!(validate_logical_path(&format!("roots/title--{id}"), id).is_ok());
    assert_eq!(
        validate_logical_path("roots/title--7d9f2e5c-0f22-4c18-a0be-9f23e772a0bc", id).unwrap_err(),
        "logical path node id suffix does not match placement node id"
    );
}

#[test]
fn slugs_collapse_punctuation_runs() {
    assert_eq!(slugify("Hello,   World!"), "hello-world");
    assert_eq!(slugify("Ünïcode Title"), "n-code-title");
}
