use kagu::render::{render_pretty, render_with};
use kagu::report::build;
use kagu::scanner::CommitRecord;
use kagu::validator::{validate, ValidationResult, ValidatorOptions};

fn report(subjects: &[(&str, &str, &str)], authors: bool) -> kagu::report::FullReport {
    let commits: Vec<CommitRecord> = subjects
        .iter()
        .map(|(s, a, m)| CommitRecord {
            sha: s.to_string(),
            author: a.to_string(),
            subject: m.to_string(),
        })
        .collect();
    let results: Vec<ValidationResult> = commits
        .iter()
        .map(|c| validate(&c.subject, ValidatorOptions::default()))
        .collect();
    build(&commits, &results, authors)
}

#[test]
fn no_commits() {
    let r = report(&[], false);
    assert_eq!(render_with(&r, false, false), "no commits to scan\n");
    assert_eq!(render_with(&r, false, true), "\x1b[2mno commits to scan\x1b[0m\n");
}

#[test]
fn plain_report_lists_only_problems() {
    let r = report(
        &[
            ("a1b2c3d4e5", "alice@example.com", "feat(core): add a"),
            ("d4e5f6789", "bob@example.com", "broken commit message"),
            ("0123456789", "alice@example.com", "fix: trailing dot."),
        ],
        false,
    );
    let expected = "kagu scan\n\n  \u{2717} d4e5f67  broken commit message\n      error [format] subject does not match `<type>(<scope>)?!?: <description>`\n  ! 0123456  fix: trailing dot.\n      warn  [punctuation] description should not end with `.`\n\nsummary\n  total: 3  clean: 2  warnings: 1  errors: 1  skipped: 0\n  score: 66/100\n\ntypes\n  feat       1\n  fix        1\n";
    assert_eq!(render_with(&r, false, false), expected);
}

#[test]
fn verbose_lists_every_commit() {
    let r = report(&[("abc", "x", "feat: y"), ("def", "x", "Initial commit")], false);
    let out = render_with(&r, true, false);
    assert!(out.starts_with("kagu scan\n\n  \u{2713} abc  feat: y\n  \u{b7} def  Initial commit\n"));
    assert!(out.contains("  score: 50/100\n"));
}

#[test]
fn authors_table() {
    let r = report(
        &[("1", "alice", "feat: a"), ("2", "bob", "oops"), ("3", "bob", "fix: b")],
        true,
    );
    let out = render_with(&r, false, false);
    let tail = "\nauthors\n  author                    total  clean errors  score\n  bob                           2      1      1    50/100\n  alice                         1      1      0   100/100\n";
    assert!(out.ends_with(tail), "got: {out}");
}

#[test]
fn colours_follow_the_styles() {
    let r = report(&[("1234567890", "a", "nope")], false);
    let out = render_with(&r, false, true);
    assert!(out.starts_with("\x1b[1mkagu scan\x1b[0m\n\n  \x1b[31m\u{2717}\x1b[39m \x1b[2m1234567\x1b[0m  nope\n"));
    assert!(out.contains("      \x1b[31merror\x1b[39m [format]"));
    assert!(out.contains("  clean: \x1b[32m0\x1b[39m  warnings: \x1b[33m0\x1b[39m  errors: \x1b[31m1\x1b[39m  skipped: \x1b[2m0\x1b[0m\n"));
    assert!(out.contains("  score: \x1b[31m0\x1b[39m/100\n"));
}

#[test]
fn pretty_is_plain_or_coloured() {
    let r = report(&[("1", "a", "feat: x"), ("2", "a", "bad")], true);
    let out = render_pretty(&r, true);
    assert!(out == render_with(&r, true, false) || out == render_with(&r, true, true));
}

#[test]
fn plain_layout_is_title_blocks_summary_types_authors() {
    let r = report(&[("1234567890", "dev@example.com", "feat: a"), ("2", "dev@example.com", "oops")], true);
    let out = render_with(&r, false, false);
    let expected = "kagu scan\n\n  \u{2717} 2  oops\n      error [format] subject does not match `<type>(<scope>)?!?: <description>`\n\nsummary\n  total: 2  clean: 1  warnings: 0  errors: 1  skipped: 0\n  score: 50/100\n\ntypes\n  feat       1\n\nauthors\n  author                    total  clean errors  score\n  dev@example.com               2      1      1    50/100\n";
    assert_eq!(out, expected);
}

#[test]
fn plain_report_shows_summary_and_broken_subjects() {
    let r = report(
        &[("a", "x", "fix: ok"), ("b", "x", "broken one"), ("c", "x", "also broken"), ("d", "x", "Merge branch 'x'")],
        false,
    );
    let out = render_with(&r, false, false);
    assert!(out.contains("\nsummary\n  total: 4  clean: 1  warnings: 0  errors: 2  skipped: 1\n  score: 25/100\n"));
    assert!(out.contains("broken one"));
    assert!(out.contains("also broken"));
    assert!(!out.contains("fix: ok"));
    assert!(!out.contains("Merge branch"));
}

#[test]
fn types_are_listed_in_increasing_order() {
    let r = report(&[("1", "x", "fix: a"), ("2", "x", "chore: b"), ("3", "x", "feat: c"), ("4", "x", "fix: d")], false);
    let out = render_with(&r, false, false);
    assert!(out.ends_with("\ntypes\n  chore      1\n  feat       1\n  fix        2\n"));
    let none = report(&[("1", "x", "no type here")], false);
    assert!(!render_with(&none, false, false).contains("types"));
}
