use codeinput::detect_inline_codeowners;
use codeinput::parse_inline_codeowners_line;
use codeinput::Error;

fn lines_of(content: &str) -> Vec<String> {
    content.lines().map(|l| l.to_string()).collect()
}

#[test]
fn test_detect_inline_codeowners_rust_comment() -> Result<(), Error> {
    let lines = lines_of(
        "// This is a source file\n// !!!CODEOWNERS @user1 @org/team2 #tag1 #tag2\nfn main() {\n}\n",
    );
    let result = detect_inline_codeowners(&lines, "test.rs");
    assert!(result.is_some());

    let entry = result.unwrap();
    assert_eq!(entry.file_path, "test.rs");
    assert_eq!(entry.line_number, 2);
    assert_eq!(entry.owners.len(), 2);
    assert_eq!(entry.owners[0].identifier, "@user1");
    assert_eq!(entry.owners[1].identifier, "@org/team2");
    assert_eq!(entry.tags.len(), 2);
    assert_eq!(entry.tags[0].0, "tag1");
    assert_eq!(entry.tags[1].0, "tag2");

    Ok(())
}

#[test]
fn test_detect_inline_codeowners_block_comment() -> Result<(), Error> {
    let lines = lines_of("/*\n * !!!CODEOWNERS @frontend-team #javascript\n */\n");
    let result = detect_inline_codeowners(&lines, "test.js");
    assert!(result.is_some());

    let entry = result.unwrap();
    assert_eq!(entry.owners.len(), 1);
    assert_eq!(entry.owners[0].identifier, "@frontend-team");
    assert_eq!(entry.tags.len(), 1);
    assert_eq!(entry.tags[0].0, "javascript");

    Ok(())
}

#[test]
fn test_detect_inline_codeowners_hash_comment() -> Result<(), Error> {
    let lines = lines_of(
        "#!/usr/bin/env run\n# !!!CODEOWNERS @python-team @user1 #backend #critical\npass\n",
    );
    let result = detect_inline_codeowners(&lines, "test.py");
    assert!(result.is_some());

    let entry = result.unwrap();
    assert_eq!(entry.line_number, 2);
    assert_eq!(entry.owners.len(), 2);
    assert_eq!(entry.owners[0].identifier, "@python-team");
    assert_eq!(entry.owners[1].identifier, "@user1");
    assert_eq!(entry.tags.len(), 2);
    assert_eq!(entry.tags[0].0, "backend");
    assert_eq!(entry.tags[1].0, "critical");

    Ok(())
}

#[test]
fn test_detect_inline_codeowners_html_comment() -> Result<(), Error> {
    let lines = lines_of("<!DOCTYPE html>\n<!-- !!!CODEOWNERS @web-team #frontend -->\n<head>\n");
    let result = detect_inline_codeowners(&lines, "test.html");
    assert!(result.is_some());

    let entry = result.unwrap();
    assert_eq!(entry.owners.len(), 1);
    assert_eq!(entry.owners[0].identifier, "@web-team");
    assert_eq!(entry.tags.len(), 1);
    assert_eq!(entry.tags[0].0, "frontend");

    Ok(())
}

#[test]
fn test_detect_inline_codeowners_no_marker() -> Result<(), Error> {
    let lines = lines_of("// This is a regular file\nfn main() {\n}\n");
    let result = detect_inline_codeowners(&lines, "test.rs");
    assert!(result.is_none());
    Ok(())
}

#[test]
fn test_detect_inline_codeowners_no_owners() -> Result<(), Error> {
    // A marker with tags only declares nothing.
    let lines = lines_of("// !!!CODEOWNERS #just-tags\nfn main() {}\n");
    let result = detect_inline_codeowners(&lines, "test.rs");
    assert!(result.is_none());
    Ok(())
}

#[test]
fn test_detect_inline_codeowners_first_occurrence_only() -> Result<(), Error> {
    let lines = lines_of(
        "// !!!CODEOWNERS @first-owner #first-tag\nfn main() {\n// !!!CODEOWNERS @second-owner #second-tag\n}\n",
    );
    let result = detect_inline_codeowners(&lines, "test.rs");
    assert!(result.is_some());

    let entry = result.unwrap();
    assert_eq!(entry.line_number, 1);
    assert_eq!(entry.owners[0].identifier, "@first-owner");
    assert_eq!(entry.tags[0].0, "first-tag");

    Ok(())
}

#[test]
fn test_detect_inline_codeowners_beyond_50_lines() -> Result<(), Error> {
    let mut lines: Vec<String> = Vec::new();
    for i in 1..=50 {
        lines.push(format!("// Line {}", i));
    }
    lines.push("// !!!CODEOWNERS @should-not-be-found #beyond-limit".to_string());
    lines.push("fn main() {}".to_string());

    let result = detect_inline_codeowners(&lines, "test.rs");
    assert!(result.is_none());
    Ok(())
}

#[test]
fn test_detect_inline_codeowners_with_comment_after() -> Result<(), Error> {
    let lines = lines_of("// !!!CODEOWNERS @user1 #tag1 # this is a comment after\nfn main() {}\n");
    let result = detect_inline_codeowners(&lines, "test.rs");
    assert!(result.is_some());

    let entry = result.unwrap();
    assert_eq!(entry.owners.len(), 1);
    assert_eq!(entry.owners[0].identifier, "@user1");
    assert_eq!(entry.tags.len(), 1);
    assert_eq!(entry.tags[0].0, "tag1");

    Ok(())
}

#[test]
fn test_inline_line_comment_end_keeps_last_tag() -> Result<(), Error> {
    // A tag followed by a block-comment terminator is still the last tag.
    let entry = parse_inline_codeowners_line("/* !!!CODEOWNERS @team #alpha */", 1, "f.c")?
        .expect("entry");
    assert_eq!(entry.owners[0].identifier, "@team");
    assert_eq!(entry.tags.len(), 1);
    assert_eq!(entry.tags[0].0, "alpha");
    Ok(())
}

#[test]
fn test_inline_line_ambiguous_wellformed_tag_kept() -> Result<(), Error> {
    // A well-formed tag followed by prose is kept, and ends collection.
    let entry = parse_inline_codeowners_line("// !!!CODEOWNERS @team #alpha trailing words", 1, "f.rs")?
        .expect("entry");
    assert_eq!(entry.tags.len(), 1);
    assert_eq!(entry.tags[0].0, "alpha");

    // An ill-formed candidate followed by prose is prose itself.
    let entry = parse_inline_codeowners_line("// !!!CODEOWNERS @team #a:b trailing words", 1, "f.rs")?
        .expect("entry");
    assert_eq!(entry.tags.len(), 0);
    Ok(())
}

#[test]
fn test_inline_line_without_marker_is_none() -> Result<(), Error> {
    let result = parse_inline_codeowners_line("plain line with @owner #tag", 1, "f.rs")?;
    assert!(result.is_none());
    Ok(())
}
