use codeinput::normalize_codeowners_pattern;

#[test]
fn test_normalize_codeowners_pattern_directory_patterns() {
    // Directory patterns ending with / should be converted to /**
    assert_eq!(
        normalize_codeowners_pattern("/builtin/logical/aws/"),
        "/builtin/logical/aws/**"
    );
    assert_eq!(
        normalize_codeowners_pattern("src/components/"),
        "src/components/**"
    );
    assert_eq!(normalize_codeowners_pattern("docs/"), "docs/**");
    assert_eq!(normalize_codeowners_pattern("/"), "/**");
}

#[test]
fn test_normalize_codeowners_pattern_already_globbed() {
    // Patterns already ending with */ or **/ should be left as-is
    assert_eq!(
        normalize_codeowners_pattern("/builtin/logical/aws/*"),
        "/builtin/logical/aws/*"
    );
    assert_eq!(
        normalize_codeowners_pattern("/builtin/logical/aws/**"),
        "/builtin/logical/aws/**"
    );
    assert_eq!(normalize_codeowners_pattern("src/*/"), "src/*/");
    assert_eq!(normalize_codeowners_pattern("docs/**/"), "docs/**/");
}

#[test]
fn test_normalize_codeowners_pattern_file_patterns() {
    // File patterns should be left as-is
    assert_eq!(normalize_codeowners_pattern("*.rs"), "*.rs");
    assert_eq!(normalize_codeowners_pattern("/src/main.rs"), "/src/main.rs");
    assert_eq!(normalize_codeowners_pattern("package.json"), "package.json");
    assert_eq!(normalize_codeowners_pattern("**/*.ts"), "**/*.ts");
}

#[test]
fn test_normalize_codeowners_pattern_edge_cases() {
    // Edge cases
    assert_eq!(normalize_codeowners_pattern(""), "");
    assert_eq!(normalize_codeowners_pattern("file"), "file");
    assert_eq!(normalize_codeowners_pattern("./relative/"), "./relative/**");
    assert_eq!(normalize_codeowners_pattern("../parent/"), "../parent/**");
}

#[test]
fn test_normalize_codeowners_pattern_complex_patterns() {
    // Complex patterns that should and shouldn't be transformed
    assert_eq!(
        normalize_codeowners_pattern("/path/with spaces/"),
        "/path/with spaces/**"
    );
    assert_eq!(
        normalize_codeowners_pattern("/path-with-dashes/"),
        "/path-with-dashes/**"
    );
    assert_eq!(
        normalize_codeowners_pattern("/path.with.dots/"),
        "/path.with.dots/**"
    );

    // These should not be transformed
    assert_eq!(
        normalize_codeowners_pattern("/path/*/something"),
        "/path/*/something"
    );
    assert_eq!(
        normalize_codeowners_pattern("/path/**/something"),
        "/path/**/something"
    );
}

#[test]
fn test_normalize_pattern_twice_changes_nothing() {
    // Normalization is idempotent on concrete patterns of every class.
    for p in ["docs/", "src/*/", "*.rs", "", "/", "a/b/"] {
        let once = normalize_codeowners_pattern(p);
        let twice = normalize_codeowners_pattern(&once);
        assert_eq!(once, twice);
    }
}
