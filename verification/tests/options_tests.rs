use codeinput::compose_repo_fingerprint;
use codeinput::is_hash_excluded;
use codeinput::parse_cache_encoding;
use codeinput::parse_infer_algorithm;
use codeinput::parse_infer_scope;
use codeinput::parse_output_format;
use codeinput::CacheEncoding;
use codeinput::InferAlgorithm;
use codeinput::InferScope;
use codeinput::OutputFormat;

#[test]
fn test_parse_output_format_names() {
    assert_eq!(parse_output_format("text").unwrap(), OutputFormat::Text);
    assert_eq!(parse_output_format("JSON").unwrap(), OutputFormat::Json);
    assert_eq!(parse_output_format("BinCode").unwrap(), OutputFormat::Bincode);
    assert_eq!(
        parse_output_format("yaml").unwrap_err(),
        "Invalid output format: yaml"
    );
}

#[test]
fn test_parse_cache_encoding_names() {
    assert_eq!(parse_cache_encoding("bincode").unwrap(), CacheEncoding::Bincode);
    assert_eq!(parse_cache_encoding("Json").unwrap(), CacheEncoding::Json);
    assert_eq!(
        parse_cache_encoding("xml").unwrap_err(),
        "Invalid cache encoding: xml"
    );
}

#[test]
fn test_parse_infer_scope_names() {
    assert_eq!(parse_infer_scope("all").unwrap(), InferScope::All);
    assert_eq!(parse_infer_scope("Unowned").unwrap(), InferScope::Unowned);
    assert_eq!(
        parse_infer_scope("some").unwrap_err(),
        "Invalid scope: some. Valid options: all, unowned"
    );
}

#[test]
fn test_parse_infer_algorithm_names() {
    assert_eq!(parse_infer_algorithm("commits").unwrap(), InferAlgorithm::Commits);
    assert_eq!(parse_infer_algorithm("LINES").unwrap(), InferAlgorithm::Lines);
    assert_eq!(parse_infer_algorithm("recent").unwrap(), InferAlgorithm::Recent);
    assert_eq!(
        parse_infer_algorithm("random").unwrap_err(),
        "Invalid algorithm: random. Valid options: commits, lines, recent"
    );
}

#[test]
fn test_labels_name_the_variants() {
    assert_eq!(OutputFormat::Text.label(), "text");
    assert_eq!(OutputFormat::Json.label(), "json");
    assert_eq!(OutputFormat::Bincode.label(), "bincode");
    assert_eq!(codeinput::OwnerType::Team.label(), "Team");
    assert_eq!(codeinput::OwnerType::Unowned.label(), "Unowned");
}

#[test]
fn test_hash_excluded_matches_cache_files_only() {
    assert!(is_hash_excluded(".codeowners.cache"));
    assert!(is_hash_excluded("deep/dir/.codeowners.cache"));
    assert!(is_hash_excluded("backup.codeowners.cache"));
    assert!(!is_hash_excluded("src/main.rs"));
    assert!(!is_hash_excluded(".codeowners.cache.bak"));
}

#[test]
fn test_fingerprint_ignores_cache_file_diffs() {
    let head = vec![1u8; 20];
    let tree = vec![2u8; 20];
    let diff_without: Vec<(String, Vec<u8>)> =
        vec![("src/main.rs".to_string(), b"+let x = 1;\n".to_vec())];
    let mut diff_with = diff_without.clone();
    diff_with.push((".codeowners.cache".to_string(), b"binary noise".to_vec()));

    // Writing the cache never invalidates it: its diff lines do not
    // contribute to the fingerprint.
    let a = compose_repo_fingerprint(&head, &tree, &diff_without);
    let b = compose_repo_fingerprint(&head, &tree, &diff_with);
    assert_eq!(a, b);
    assert_eq!(a.len(), 32);
}

#[test]
fn test_fingerprint_tracks_every_component() {
    let head = vec![1u8; 20];
    let tree = vec![2u8; 20];
    let diff: Vec<(String, Vec<u8>)> =
        vec![("src/main.rs".to_string(), b"+let x = 1;\n".to_vec())];
    let base = compose_repo_fingerprint(&head, &tree, &diff);

    let other_head = compose_repo_fingerprint(&vec![9u8; 20], &tree, &diff);
    assert_ne!(base, other_head);

    let other_tree = compose_repo_fingerprint(&head, &vec![9u8; 20], &diff);
    assert_ne!(base, other_tree);

    let other_diff: Vec<(String, Vec<u8>)> =
        vec![("src/main.rs".to_string(), b"+let x = 2;\n".to_vec())];
    let changed = compose_repo_fingerprint(&head, &tree, &other_diff);
    assert_ne!(base, changed);
}
