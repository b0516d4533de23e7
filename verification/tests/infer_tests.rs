use codeinput::analyze_by_commits;
use codeinput::analyze_by_lines;
use codeinput::analyze_by_recent_activity;
use codeinput::analyze_file_ownership;
use codeinput::codeowners_output_lines;
use codeinput::CommitRecord;
use codeinput::Contribution;

fn hunk(email: &str, lines: u32, days_ago: u32) -> Contribution {
    Contribution { email: email.to_string(), lines, days_ago }
}

fn commit(email: &str, seconds: i64, touches_file: bool) -> CommitRecord {
    CommitRecord { email: email.to_string(), seconds, touches_file }
}

/// Blame of a file with contributors at 70, 20 and 10 lines, each with
/// three hunks so that a minimum-commits threshold of three keeps all.
fn blame_70_20_10() -> Vec<Contribution> {
    vec![
        hunk("a@example.com", 30, 10),
        hunk("a@example.com", 30, 5),
        hunk("a@example.com", 10, 20),
        hunk("b@example.com", 10, 3),
        hunk("b@example.com", 5, 8),
        hunk("b@example.com", 5, 4),
        hunk("c@example.com", 4, 1),
        hunk("c@example.com", 3, 2),
        hunk("c@example.com", 3, 9),
    ]
}

#[test]
fn test_lines_scoring_aggregates_per_email() {
    let owners = analyze_by_lines(&blame_70_20_10(), 3);
    assert_eq!(owners.len(), 3);
    let a = owners.iter().find(|o| o.email == "a@example.com").unwrap();
    assert_eq!(a.lines, 70);
    assert_eq!(a.commits, 3);
    assert_eq!(a.score_milli, 70_000);
    assert_eq!(a.last_commit_days_ago, 5);
    let b = owners.iter().find(|o| o.email == "b@example.com").unwrap();
    assert_eq!(b.lines, 20);
    assert_eq!(b.score_milli, 20_000);
    assert_eq!(b.last_commit_days_ago, 3);
}

#[test]
fn test_min_commits_threshold_drops_casual_contributors() {
    let mut hunks = blame_70_20_10();
    hunks.push(hunk("drive-by@example.com", 100, 1));
    let owners = analyze_by_lines(&hunks, 3);
    assert_eq!(owners.len(), 3);
    assert!(owners.iter().all(|o| o.email != "drive-by@example.com"));
}

#[test]
fn test_share_filter_and_confidence_for_70_20_10() {
    // Lines algorithm, minimum three commits, minimum twenty percent:
    // the 70-scorer survives, the 20-scorer sits exactly at the threshold
    // and survives, the 10-scorer is dropped. Confidence reflects the top
    // scorer's dominance among the two survivors.
    let owners = analyze_by_lines(&blame_70_20_10(), 3);
    let inference = analyze_file_ownership(
        "src/main.rs".to_string(),
        Vec::new(),
        owners,
        20,
    );
    assert_eq!(inference.file_path, "src/main.rs");
    assert_eq!(inference.inferred_owners.len(), 2);
    assert_eq!(inference.inferred_owners[0].email, "a@example.com");
    assert_eq!(inference.inferred_owners[0].score_milli, 70_000);
    assert_eq!(inference.inferred_owners[1].email, "b@example.com");
    assert_eq!(inference.inferred_owners[1].score_milli, 20_000);
    // The ratio divides the top survivor's score by the total over all
    // candidates that reached the share filter, not only the survivors:
    // ratio = 1000 * 70000 / 100000 = 700; penalty for two candidates
    // = 1000 - 200 = 800; confidence = 700 * 800 / 1000 = 560.
    assert_eq!(inference.confidence_milli, 560);
}

#[test]
fn test_confidence_is_zero_without_candidates() {
    let inference = analyze_file_ownership(
        "src/main.rs".to_string(),
        Vec::new(),
        Vec::new(),
        20,
    );
    assert!(inference.inferred_owners.is_empty());
    assert_eq!(inference.confidence_milli, 0);
}

#[test]
fn test_single_dominant_contributor_has_high_confidence() {
    let owners = analyze_by_lines(&vec![hunk("a@example.com", 50, 2)], 1);
    let inference = analyze_file_ownership("f.rs".to_string(), Vec::new(), owners, 20);
    assert_eq!(inference.inferred_owners.len(), 1);
    // ratio = 1000; penalty = 900; confidence = 900.
    assert_eq!(inference.confidence_milli, 900);
}

#[test]
fn test_commits_scoring_counts_touching_commits_only() {
    let now = 1_000_000_000i64;
    let day = 86_400i64;
    let commits = vec![
        commit("a@example.com", now - day, true),
        commit("a@example.com", now - 2 * day, false),
        commit("b@example.com", now - 3 * day, true),
        commit("a@example.com", now - 4 * day, true),
    ];
    let owners = analyze_by_commits(&commits, now, 0, false, 1);
    let a = owners.iter().find(|o| o.email == "a@example.com").unwrap();
    assert_eq!(a.commits, 2);
    assert_eq!(a.score_milli, 2_000);
    assert_eq!(a.last_commit_days_ago, 1);
    let b = owners.iter().find(|o| o.email == "b@example.com").unwrap();
    assert_eq!(b.commits, 1);
    assert_eq!(b.score_milli, 1_000);
}

#[test]
fn test_commits_walk_stops_at_lookback_cutoff() {
    // The walk sees commits newest first and halts at the first one older
    // than the cutoff, so older touching commits are never attributed.
    let now = 1_000_000_000i64;
    let day = 86_400i64;
    let cutoff = now - 10 * day;
    let commits = vec![
        commit("a@example.com", now - day, true),
        commit("b@example.com", now - 20 * day, true),
        commit("a@example.com", now - 5 * day, true),
    ];
    let owners = analyze_by_commits(&commits, now, cutoff, true, 1);
    assert_eq!(owners.len(), 1);
    assert_eq!(owners[0].email, "a@example.com");
    assert_eq!(owners[0].commits, 1);
}

#[test]
fn test_recency_decay_biases_toward_recent_work() {
    // Thirty days halve the weight; a contributor active today keeps the
    // full score.
    let hunks = vec![
        hunk("fresh@example.com", 10, 0),
        hunk("stale@example.com", 10, 30),
    ];
    let owners = analyze_by_recent_activity(&hunks, 1);
    let fresh = owners.iter().find(|o| o.email == "fresh@example.com").unwrap();
    let stale = owners.iter().find(|o| o.email == "stale@example.com").unwrap();
    assert_eq!(fresh.score_milli, 10_000);
    assert_eq!(stale.score_milli, 5_000);
}

#[test]
fn test_recency_decay_floors_at_one_tenth() {
    let hunks = vec![hunk("ancient@example.com", 10, 100_000)];
    let owners = analyze_by_recent_activity(&hunks, 1);
    assert_eq!(owners[0].score_milli, 1_000);
}

#[test]
fn test_output_lines_name_top_owner_per_file() {
    let owners = analyze_by_lines(&blame_70_20_10(), 3);
    let with_owner = analyze_file_ownership("src/main.rs".to_string(), Vec::new(), owners, 20);
    let without_owner =
        analyze_file_ownership("empty.md".to_string(), Vec::new(), Vec::new(), 20);
    let lines = codeowners_output_lines(&vec![with_owner, without_owner]);
    assert_eq!(lines.len(), 1);
    assert_eq!(lines[0], "src/main.rs a@example.com");
}

#[test]
fn test_paths_touch_file_checks_both_sides() {
    let file = "src/main.rs";
    let renamed_from = "src/old.rs".to_string();
    let target = "src/main.rs".to_string();
    let other = "src/other.rs".to_string();
    assert!(codeinput::paths_touch_file(Some(&target), None, file));
    assert!(codeinput::paths_touch_file(None, Some(&target), file));
    assert!(codeinput::paths_touch_file(Some(&other), Some(&target), file));
    assert!(!codeinput::paths_touch_file(Some(&other), Some(&renamed_from), file));
    assert!(!codeinput::paths_touch_file(None, None, file));
}
