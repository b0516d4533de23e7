use codeinput::codeowners_entry_to_matcher;
use codeinput::find_owners_and_tags_for_file;
use codeinput::parse_codeowners;
use codeinput::CodeownersEntryMatcher;
use codeinput::Error;

fn compile_all(entries: &[codeinput::CodeownersEntry]) -> Vec<CodeownersEntryMatcher> {
    entries
        .iter()
        .filter_map(|e| codeowners_entry_to_matcher(e).ok())
        .collect()
}

#[test]
fn test_resolve_last_match_wins_rule_file() -> Result<(), Error> {
    // Rule file: `* @default-team` then `*.rs @rust-team #rust #backend`.
    let entries = parse_codeowners(
        "* @default-team\n*.rs @rust-team #rust #backend\n",
        "/project/CODEOWNERS",
    )?;
    let matchers = compile_all(&entries);
    assert_eq!(matchers.len(), 2);

    let (owners, tags) = find_owners_and_tags_for_file("/project/src/main.rs", &matchers)?;
    assert_eq!(owners.len(), 1);
    assert_eq!(owners[0].identifier, "@rust-team");
    assert_eq!(tags.len(), 2);
    assert_eq!(tags[0].0, "rust");
    assert_eq!(tags[1].0, "backend");

    let (owners, tags) = find_owners_and_tags_for_file("/project/app.js", &matchers)?;
    assert_eq!(owners.len(), 1);
    assert_eq!(owners[0].identifier, "@default-team");
    assert_eq!(tags.len(), 0);

    Ok(())
}

#[test]
fn test_resolve_no_match_is_empty() -> Result<(), Error> {
    let entries = parse_codeowners("*.js @js-team #javascript\n", "/project/CODEOWNERS")?;
    let matchers = compile_all(&entries);
    let (owners, tags) = find_owners_and_tags_for_file("/project/src/main.rs", &matchers)?;
    assert!(owners.is_empty());
    assert!(tags.is_empty());
    Ok(())
}

#[test]
fn test_resolve_directory_pattern_matches_recursively() -> Result<(), Error> {
    // A bare directory pattern governs everything beneath it.
    let entries = parse_codeowners(
        "/builtin/logical/aws/ @platform-team\n",
        "/project/CODEOWNERS",
    )?;
    let matchers = compile_all(&entries);
    assert_eq!(matchers.len(), 1);
    assert_eq!(matchers[0].norm_pattern, "/builtin/logical/aws/**");

    for file in [
        "/project/builtin/logical/aws/config.go",
        "/project/builtin/logical/aws/client.go",
        "/project/builtin/logical/aws/auth/token.go",
    ] {
        let (owners, _tags) = find_owners_and_tags_for_file(file, &matchers)?;
        assert_eq!(owners.len(), 1, "expected a match for {}", file);
        assert_eq!(owners[0].identifier, "@platform-team");
    }

    for file in [
        "/project/builtin/logical/database/config.go",
        "/project/builtin/auth/aws/config.go",
        "/project/other/aws/config.go",
    ] {
        let (owners, _tags) = find_owners_and_tags_for_file(file, &matchers)?;
        assert!(owners.is_empty(), "expected no match for {}", file);
    }

    Ok(())
}

#[test]
fn test_resolve_nested_rule_file_scopes_to_subtree() -> Result<(), Error> {
    let mut entries = parse_codeowners("* @root-team\n", "/project/CODEOWNERS")?;
    entries.extend(parse_codeowners("*.rs @rust-team\n", "/project/src/CODEOWNERS")?);
    let matchers = compile_all(&entries);

    // Inside the subtree the nested rule is later, so it wins.
    let (owners, _tags) = find_owners_and_tags_for_file("/project/src/lib.rs", &matchers)?;
    assert_eq!(owners[0].identifier, "@rust-team");

    // Outside the subtree only the root rule applies.
    let (owners, _tags) = find_owners_and_tags_for_file("/project/readme.md", &matchers)?;
    assert_eq!(owners[0].identifier, "@root-team");

    Ok(())
}

#[test]
fn test_compile_invalid_pattern_is_recoverable() -> Result<(), Error> {
    // An unclosed character class does not compile; the error is typed,
    // not a crash.
    let entries = parse_codeowners("a[ @team\n", "/project/CODEOWNERS")?;
    assert_eq!(entries.len(), 1);
    let r = codeowners_entry_to_matcher(&entries[0]);
    assert_eq!(r.unwrap_err(), Error::InvalidPattern);

    // An entry whose source path has no parent directory is rejected too.
    let entries = parse_codeowners("* @team\n", "/")?;
    let r = codeowners_entry_to_matcher(&entries[0]);
    assert_eq!(r.unwrap_err(), Error::InvalidEntry);
    Ok(())
}

#[test]
fn test_tags_follow_the_deciding_entry_not_a_union() -> Result<(), Error> {
    // Tags are not unioned across matching rules: the last matching entry
    // decides owners and tags together, so a tagless later rule clears
    // the earlier rule's tags.
    let entries = parse_codeowners(
        "*.rs @early-team #early\nsrc/* @late-team\n",
        "/project/CODEOWNERS",
    )?;
    let matchers = compile_all(&entries);
    let (owners, tags) = find_owners_and_tags_for_file("/project/src/lib.rs", &matchers)?;
    assert_eq!(owners[0].identifier, "@late-team");
    assert!(tags.is_empty());
    Ok(())
}

#[test]
fn test_error_messages_name_the_failure() {
    assert_eq!(
        Error::InvalidPattern.message(),
        "invalid ownership pattern"
    );
    assert_eq!(
        Error::CorruptCache.message(),
        "cache contents are not decodable"
    );
    assert_eq!(
        Error::InvalidEntry.message(),
        "rule entry has no parent directory"
    );
}
