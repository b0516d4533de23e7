use codeinput::build_cache;
use codeinput::decode_cache;
use codeinput::encode_cache;
use codeinput::filter_unowned_files;
use codeinput::parse_codeowners;
use codeinput::sync_cache;
use codeinput::CacheEncoding;
use codeinput::CodeownersCache;
use codeinput::Error;
use codeinput::Owner;
use codeinput::Tag;
use codeinput::CACHE_VERSION;

fn sample_hash(seed: u8) -> Vec<u8> {
    let mut h = Vec::new();
    for i in 0..32u8 {
        h.push(seed.wrapping_add(i));
    }
    h
}

fn sample_cache() -> CodeownersCache {
    let entries = parse_codeowners(
        "* @default-team\n*.rs @rust-team #rust #backend\n",
        "/project/CODEOWNERS",
    )
    .unwrap();
    let files = vec![
        "/project/src/main.rs".to_string(),
        "/project/app.js".to_string(),
    ];
    build_cache(entries, files, Vec::new(), sample_hash(1)).unwrap()
}

fn index_paths<'c>(cache: &'c CodeownersCache, owner: &str) -> Option<&'c Vec<String>> {
    cache
        .owners_map
        .iter()
        .find(|(o, _)| o.identifier == owner)
        .map(|(_, paths)| paths)
}

fn tag_paths<'c>(cache: &'c CodeownersCache, tag: &str) -> Option<&'c Vec<String>> {
    cache
        .tags_map
        .iter()
        .find(|(t, _)| t.0 == tag)
        .map(|(_, paths)| paths)
}

#[test]
fn test_build_cache_resolves_every_file() {
    let cache = sample_cache();
    assert_eq!(cache.version, CACHE_VERSION);
    assert_eq!(cache.hash, sample_hash(1));
    assert_eq!(cache.entries.len(), 2);
    assert_eq!(cache.files.len(), 2);

    assert_eq!(cache.files[0].path, "/project/src/main.rs");
    assert_eq!(cache.files[0].owners[0].identifier, "@rust-team");
    assert_eq!(cache.files[0].tags.len(), 2);

    assert_eq!(cache.files[1].path, "/project/app.js");
    assert_eq!(cache.files[1].owners[0].identifier, "@default-team");
    assert_eq!(cache.files[1].tags.len(), 0);
}

#[test]
fn test_build_cache_indices_invert_files() {
    // Every owner and tag on a file appears in the matching index with
    // that file's path, and each index entry points back at real files.
    let cache = sample_cache();

    let rust_paths = index_paths(&cache, "@rust-team").expect("indexed owner");
    assert_eq!(rust_paths, &vec!["/project/src/main.rs".to_string()]);
    let default_paths = index_paths(&cache, "@default-team").expect("indexed owner");
    assert_eq!(default_paths, &vec!["/project/app.js".to_string()]);

    let rust_tag = tag_paths(&cache, "rust").expect("indexed tag");
    assert_eq!(rust_tag, &vec!["/project/src/main.rs".to_string()]);
    let backend_tag = tag_paths(&cache, "backend").expect("indexed tag");
    assert_eq!(backend_tag, &vec!["/project/src/main.rs".to_string()]);

    for (owner, paths) in &cache.owners_map {
        for p in paths {
            let file = cache.files.iter().find(|f| &f.path == p).expect("file");
            assert!(file.owners.iter().any(|o| o == owner));
        }
    }
    for (tag, paths) in &cache.tags_map {
        for p in paths {
            let file = cache.files.iter().find(|f| &f.path == p).expect("file");
            assert!(file.tags.iter().any(|t| t == tag));
        }
    }
    for file in &cache.files {
        for owner in &file.owners {
            let paths = index_paths(&cache, &owner.identifier).expect("owner indexed");
            assert!(paths.contains(&file.path));
        }
        for tag in &file.tags {
            let paths = tag_paths(&cache, &tag.0).expect("tag indexed");
            assert!(paths.contains(&file.path));
        }
    }
}

#[test]
fn test_build_cache_drops_bad_pattern_keeps_entry() {
    // One bad pattern never blocks the build; the entry list keeps it.
    let entries = parse_codeowners("a[ @broken\n*.rs @rust-team\n", "/project/CODEOWNERS").unwrap();
    let files = vec!["/project/src/main.rs".to_string()];
    let cache = build_cache(entries, files, Vec::new(), sample_hash(2)).unwrap();
    assert_eq!(cache.entries.len(), 2);
    assert_eq!(cache.files[0].owners[0].identifier, "@rust-team");
}

#[test]
fn test_filter_unowned_files_keeps_unmatched_and_noowner() {
    let entries = parse_codeowners(
        "*.rs @rust-team\n*.tmp NOOWNER\n",
        "/project/CODEOWNERS",
    )
    .unwrap();
    let files = vec![
        "/project/src/main.rs".to_string(),
        "/project/scratch.tmp".to_string(),
        "/project/notes.md".to_string(),
    ];
    let cache = build_cache(entries, files.clone(), Vec::new(), sample_hash(3)).unwrap();
    let kept = filter_unowned_files(files.clone(), &Some(cache)).unwrap();
    assert_eq!(
        kept,
        vec![
            "/project/scratch.tmp".to_string(),
            "/project/notes.md".to_string(),
        ]
    );

    // Without a cache every file is kept.
    let kept = filter_unowned_files(files.clone(), &None).unwrap();
    assert_eq!(kept, files);
}

#[test]
fn test_sync_rebuilds_without_cache_bytes() {
    let entries = parse_codeowners("*.rs @rust-team\n", "/project/CODEOWNERS").unwrap();
    let files = vec!["/project/src/main.rs".to_string()];
    let cache = sync_cache(None, &sample_hash(4), entries, files, Vec::new()).unwrap();
    assert_eq!(cache.hash, sample_hash(4));
    assert_eq!(cache.files[0].owners[0].identifier, "@rust-team");
}

#[test]
fn test_sync_rebuilds_on_corrupt_cache_bytes() {
    // A corrupt or truncated cache file yields a fresh, valid cache
    // rather than a decode error.
    let stored = encode_cache(&sample_cache(), CacheEncoding::Bincode);
    let truncated: Vec<u8> = stored[..stored.len() / 2].to_vec();
    assert_eq!(decode_cache(&truncated).unwrap_err(), Error::CorruptCache);

    let entries = parse_codeowners("*.rs @rust-team\n", "/project/CODEOWNERS").unwrap();
    let files = vec!["/project/src/main.rs".to_string()];
    let rebuilt = sync_cache(Some(&truncated), &sample_hash(5), entries, files, Vec::new()).unwrap();
    assert_eq!(rebuilt.version, CACHE_VERSION);
    assert_eq!(rebuilt.hash, sample_hash(5));
    assert_eq!(rebuilt.files[0].owners[0].identifier, "@rust-team");
}

#[test]
fn test_sync_rebuilds_on_fingerprint_mismatch() {
    let cache = sample_cache();
    let stored = encode_cache(&cache, CacheEncoding::Bincode);
    let entries = parse_codeowners("*.js @new-team\n", "/project/CODEOWNERS").unwrap();
    let files = vec!["/project/app.js".to_string()];
    // The stored cache carries sample_hash(1); the repository has moved on.
    let rebuilt = sync_cache(Some(&stored), &sample_hash(9), entries, files, Vec::new()).unwrap();
    assert_eq!(rebuilt.hash, sample_hash(9));
    assert_eq!(rebuilt.files[0].owners[0].identifier, "@new-team");
}

#[test]
fn test_sync_twice_without_change_reuses_cache() {
    // Syncing, storing, and syncing again with no repository change
    // yields a fingerprint-equal cache without a rebuild: the second call
    // returns the stored cache even though the rule entries handed to it
    // would build something else.
    let entries = parse_codeowners("*.rs @rust-team #rust\n", "/project/CODEOWNERS").unwrap();
    let files = vec!["/project/src/main.rs".to_string()];
    let first = sync_cache(None, &sample_hash(7), entries, files, Vec::new()).unwrap();

    for encoding in [CacheEncoding::Bincode, CacheEncoding::Json] {
        let stored = encode_cache(&first, encoding);
        let decoy_entries =
            parse_codeowners("* @someone-else\n", "/project/CODEOWNERS").unwrap();
        let second = sync_cache(
            Some(&stored),
            &sample_hash(7),
            decoy_entries,
            vec!["/project/other.rs".to_string()],
            Vec::new(),
        )
        .unwrap();
        assert_eq!(second.hash, first.hash);
        assert_eq!(second.files.len(), first.files.len());
        assert_eq!(second.files[0].path, first.files[0].path);
        assert_eq!(
            second.files[0].owners[0].identifier,
            first.files[0].owners[0].identifier
        );
        // No rebuild happened: the decoy rules left no trace.
        assert_eq!(second.entries.len(), first.entries.len());
        assert_eq!(second.entries[0].pattern, first.entries[0].pattern);
    }
}

#[test]
fn test_sync_rebuilds_on_version_mismatch() {
    let mut cache = sample_cache();
    cache.version = CACHE_VERSION + 1;
    let stored = encode_cache(&cache, CacheEncoding::Bincode);
    let entries = parse_codeowners("*.js @new-team\n", "/project/CODEOWNERS").unwrap();
    let files = vec!["/project/app.js".to_string()];
    let rebuilt = sync_cache(Some(&stored), &sample_hash(1), entries, files, Vec::new()).unwrap();
    assert_eq!(rebuilt.version, CACHE_VERSION);
    assert_eq!(rebuilt.files[0].owners[0].identifier, "@new-team");
}

#[test]
fn test_owner_and_tag_equality_are_by_value() {
    let a = Owner { identifier: "@x".to_string(), owner_type: codeinput::OwnerType::User };
    let b = Owner { identifier: "@x".to_string(), owner_type: codeinput::OwnerType::User };
    let c = Owner { identifier: "@y".to_string(), owner_type: codeinput::OwnerType::User };
    assert!(a == b);
    assert!(a != c);
    assert!(Tag("t".to_string()) == Tag("t".to_string()));
    assert!(Tag("t".to_string()) != Tag("u".to_string()));
}

#[test]
fn test_inline_entry_owns_file_without_matching_rule() {
    // An inline marker on a file no rule-file pattern matches gives that
    // file the marker's owners and tags, and they reach the indices.
    let entries = parse_codeowners("*.js @js-team\n", "/project/CODEOWNERS").unwrap();
    let files = vec![
        "/project/special.rs".to_string(),
        "/project/app.js".to_string(),
    ];
    let inline = codeinput::parse_inline_codeowners_line(
        "// !!!CODEOWNERS @special-team #special",
        1,
        "/project/special.rs",
    )
    .unwrap()
    .unwrap();
    let cache = build_cache(entries, files, vec![inline], sample_hash(12)).unwrap();

    let special = cache
        .files
        .iter()
        .find(|f| f.path == "/project/special.rs")
        .unwrap();
    assert_eq!(special.owners.len(), 1);
    assert_eq!(special.owners[0].identifier, "@special-team");
    assert_eq!(special.tags.len(), 1);
    assert_eq!(special.tags[0].0, "special");

    let indexed = index_paths(&cache, "@special-team").expect("inline owner indexed");
    assert_eq!(indexed, &vec!["/project/special.rs".to_string()]);
    let tagged = tag_paths(&cache, "special").expect("inline tag indexed");
    assert_eq!(tagged, &vec!["/project/special.rs".to_string()]);

    // The other file is untouched by the inline declaration.
    let js = cache.files.iter().find(|f| f.path == "/project/app.js").unwrap();
    assert_eq!(js.owners[0].identifier, "@js-team");
}

#[test]
fn test_inline_entry_overrides_matching_rules() {
    // An inline declaration is a per-file override: it replaces the
    // rule-resolved owners and tags for its file.
    let entries = parse_codeowners("*.rs @rust-team #rust\n", "/project/CODEOWNERS").unwrap();
    let files = vec!["/project/src/main.rs".to_string()];
    let inline = codeinput::parse_inline_codeowners_line(
        "// !!!CODEOWNERS @owner-here",
        1,
        "/project/src/main.rs",
    )
    .unwrap()
    .unwrap();
    let cache = build_cache(entries, files, vec![inline], sample_hash(13)).unwrap();
    assert_eq!(cache.files[0].owners.len(), 1);
    assert_eq!(cache.files[0].owners[0].identifier, "@owner-here");
    assert!(cache.files[0].tags.is_empty());
}

#[test]
fn test_apply_inline_entry_combines_per_file() {
    let entries = parse_codeowners("*.rs @rust-team #rust\n", "/project/CODEOWNERS").unwrap();
    let (owners, tags) =
        codeinput::resolve_file_against_entries("/project/src/main.rs", &entries);
    assert_eq!(owners[0].identifier, "@rust-team");
    assert_eq!(tags[0].0, "rust");

    // Without an inline declaration the rule result stands.
    let (owners, tags) = codeinput::apply_inline_entry(owners, tags, None);
    assert_eq!(owners[0].identifier, "@rust-team");
    assert_eq!(tags[0].0, "rust");

    // With one, the declaration replaces it.
    let inline = codeinput::parse_inline_codeowners_line(
        "// !!!CODEOWNERS @me #mine",
        1,
        "/project/src/main.rs",
    )
    .unwrap()
    .unwrap();
    let (owners, tags) = codeinput::apply_inline_entry(owners, tags, Some(&inline));
    assert_eq!(owners.len(), 1);
    assert_eq!(owners[0].identifier, "@me");
    assert_eq!(tags.len(), 1);
    assert_eq!(tags[0].0, "mine");
}
