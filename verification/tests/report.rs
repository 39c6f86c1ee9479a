use kagu::report::{build, lint_exit_code, scan_exit_code, FullReport};
use kagu::scanner::CommitRecord;
use kagu::validator::{validate, ValidationResult, ValidatorOptions};

fn record(sha: &str, author: &str, subject: &str) -> CommitRecord {
    CommitRecord {
        sha: sha.to_string(),
        author: author.to_string(),
        subject: subject.to_string(),
    }
}

fn sample(include_authors: bool) -> FullReport {
    let commits = vec![
        record("a1", "bob", "feat(core): add a"),
        record("a2", "alice", "broken commit message"),
        record("a3", "bob", "fix: trailing dot."),
        record("a4", "carol", "Merge branch 'x'"),
        record("a5", "alice", "feat: more"),
        record("a6", "dave", "docs: readme"),
    ];
    let results: Vec<ValidationResult> = commits
        .iter()
        .map(|c| validate(&c.subject, ValidatorOptions::default()))
        .collect();
    build(&commits, &results, include_authors)
}

#[test]
fn statuses_follow_violations() {
    let r = sample(false);
    let statuses: Vec<&str> = r.commits.iter().map(|c| c.status).collect();
    assert_eq!(statuses, vec!["clean", "error", "warning", "skipped", "clean", "clean"]);
    assert_eq!(r.commits[1].violations[0].code, "format");
    assert_eq!(r.commits[2].sha, "a3");
    assert_eq!(r.commits[2].author, "bob");
}

#[test]
fn summary_counts_partition_commits() {
    let s = sample(false).summary;
    assert_eq!(s.total, 6);
    assert_eq!(s.skipped, 1);
    assert_eq!(s.errors, 1);
    assert_eq!(s.clean, 4);
    assert_eq!(s.warnings, 1);
    assert_eq!(s.skipped + s.clean + s.errors, s.total);
    assert_eq!(s.score, 66);
}

#[test]
fn by_type_is_sorted_by_type() {
    let s = sample(false).summary;
    let got: Vec<(&str, usize)> = s.by_type.iter().map(|(k, v)| (k.as_str(), *v)).collect();
    assert_eq!(got, vec![("docs", 1), ("feat", 2), ("fix", 1)]);
}

#[test]
fn authors_ranked_by_total_then_name() {
    assert!(sample(false).authors.is_none());
    let a = sample(true).authors.unwrap();
    let rows: Vec<(&str, usize, usize, usize, u8)> = a
        .iter()
        .map(|x| (x.author.as_str(), x.total, x.clean, x.errors, x.score))
        .collect();
    assert_eq!(
        rows,
        vec![
            ("alice", 2, 1, 1, 50),
            ("bob", 2, 2, 0, 100),
            ("dave", 1, 1, 0, 100),
        ]
    );
}

#[test]
fn empty_report_scores_full_marks() {
    let r = build(&[], &[], true);
    assert_eq!(r.summary.total, 0);
    assert_eq!(r.summary.score, 100);
    assert!(r.summary.by_type.is_empty());
    assert!(r.authors.unwrap().is_empty());
    let only_skipped = vec![record("m", "x", "Merge branch 'y'")];
    let res = vec![validate("Merge branch 'y'", ValidatorOptions::default())];
    assert_eq!(build(&only_skipped, &res, false).summary.score, 100);
}

#[test]
fn score_is_whole_percent_of_all_commits_rounded_down() {
    let commits: Vec<CommitRecord> = (0..40).map(|i| record(&i.to_string(), "x", "")).collect();
    let results: Vec<ValidationResult> = (0..40)
        .map(|i| {
            let subject = if i < 23 { "feat: ok" } else { "bad" };
            validate(subject, ValidatorOptions::default())
        })
        .collect();
    let r = build(&commits, &results, false);
    assert_eq!(r.summary.clean, 23);
    assert_eq!(r.summary.score, 57);
}

#[test]
fn exit_codes() {
    assert_eq!(scan_exit_code(&sample(false).summary), 1);
    let r = build(&[record("a", "b", "feat: x")], &[validate("feat: x", ValidatorOptions::default())], false);
    assert_eq!(scan_exit_code(&r.summary), 0);
    assert_eq!(lint_exit_code(&validate("feat(cli): add scan", ValidatorOptions::default())), 0);
    assert_eq!(lint_exit_code(&validate("feat: warn only.", ValidatorOptions::default())), 0);
    assert_eq!(lint_exit_code(&validate("no type here", ValidatorOptions::default())), 1);
}

#[test]
fn readme_full_history_example() {
    let mut subjects: Vec<&str> = Vec::new();
    subjects.extend(["feat: a"; 5]);
    subjects.extend(["fix: b"; 3]);
    subjects.extend(["chore: c"; 3]);
    subjects.push("WIP stuff happening");
    let commits: Vec<CommitRecord> = subjects
        .iter()
        .enumerate()
        .map(|(i, s)| record(&i.to_string(), "dev@example.com", s))
        .collect();
    let results: Vec<ValidationResult> = subjects
        .iter()
        .map(|s| validate(s, ValidatorOptions::default()))
        .collect();
    let r = build(&commits, &results, false);
    let s = &r.summary;
    assert_eq!((s.total, s.clean, s.warnings, s.errors, s.skipped), (12, 11, 0, 1, 0));
    assert_eq!(s.score, 91);
    let types: Vec<(&str, usize)> = s.by_type.iter().map(|(k, v)| (k.as_str(), *v)).collect();
    assert_eq!(types, vec![("chore", 3), ("feat", 5), ("fix", 3)]);
    assert!(r.authors.is_none());
}

#[test]
fn readme_demo_example() {
    let mut subjects: Vec<&str> = vec!["Merge branch 'x'", "WIP stuff happening", "release the thing", "feat: add database connection."];
    subjects.extend(["chore: c"; 4]);
    subjects.extend(["feat: f"; 8]);
    subjects.extend(["fix: x"; 5]);
    subjects.extend(["refactor: r"; 3]);
    assert_eq!(subjects.len(), 24);
    let commits: Vec<CommitRecord> = subjects
        .iter()
        .enumerate()
        .map(|(i, s)| record(&i.to_string(), "dev@example.com", s))
        .collect();
    let results: Vec<ValidationResult> = subjects
        .iter()
        .map(|s| validate(s, ValidatorOptions::default()))
        .collect();
    let s = build(&commits, &results, false).summary;
    assert_eq!((s.total, s.clean, s.warnings, s.errors, s.skipped), (24, 21, 1, 2, 1));
    assert_eq!(s.score, 87);
    let types: Vec<(&str, usize)> = s.by_type.iter().map(|(k, v)| (k.as_str(), *v)).collect();
    assert_eq!(types, vec![("chore", 4), ("feat", 9), ("fix", 5), ("refactor", 3)]);
}

#[test]
fn score_laws_on_concrete_reports() {
    let s = sample(true);
    assert!(s.summary.score <= 100);
    for a in s.authors.unwrap() {
        assert!(a.score <= 100);
        if a.errors == 0 {
            assert_eq!(a.score, 100);
        }
    }
    let clean = vec![record("a", "x", "feat: a"), record("b", "y", "fix: b")];
    let res: Vec<ValidationResult> = clean.iter().map(|c| validate(&c.subject, ValidatorOptions::default())).collect();
    assert_eq!(build(&clean, &res, false).summary.score, 100);
}

#[test]
fn author_score_rounds_to_nearest() {
    let mut commits = vec![
        record("1", "ann", "feat: a"),
        record("2", "ann", "fix: b"),
        record("3", "ann", "oops"),
        record("4", "ben", "feat: c"),
        record("5", "ben", "bad one"),
        record("6", "ben", "bad two"),
    ];
    for i in 0..7 {
        commits.push(record(&format!("c{i}"), "cat", "not conventional"));
    }
    commits.push(record("c7", "cat", "docs: fine"));
    let results: Vec<ValidationResult> = commits
        .iter()
        .map(|c| validate(&c.subject, ValidatorOptions::default()))
        .collect();
    let a = build(&commits, &results, true).authors.unwrap();
    let rows: Vec<(&str, usize, usize, u8)> =
        a.iter().map(|x| (x.author.as_str(), x.total, x.clean, x.score)).collect();
    assert_eq!(rows, vec![("cat", 8, 1, 13), ("ann", 3, 2, 67), ("ben", 3, 1, 33)]);
}
