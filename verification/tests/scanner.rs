use kagu::scanner::{
    log_failure, log_format_arg, parse_log, read_log, since_range, CommitRecord, ScanError,
    FIELD_SEP, RECORD_END,
};

fn entry(sha: &str, author: &str, subject: &str) -> String {
    format!("{sha}{FIELD_SEP}{author}{FIELD_SEP}{subject}{RECORD_END}")
}

fn fields(c: &CommitRecord) -> (&str, &str, &str) {
    (c.sha.as_str(), c.author.as_str(), c.subject.as_str())
}

#[test]
fn log_format_uses_both_separators() {
    assert_eq!(
        log_format_arg(),
        "--pretty=format:%H\u{1e}KAGU\u{1e}%ae\u{1e}KAGU\u{1e}%s\u{1f}END\u{1f}"
    );
}

#[test]
fn parse_log_returns_oldest_first() {
    let text = format!(
        "{}\n{}\n{}",
        entry("ccc", "Carol", "fix: third"),
        entry("bbb", "Bob", "feat: second"),
        entry("aaa", "Alice", "first")
    );
    let commits = parse_log(&text);
    assert_eq!(commits.len(), 3);
    assert_eq!(fields(&commits[0]), ("aaa", "Alice", "first"));
    assert_eq!(fields(&commits[1]), ("bbb", "Bob", "feat: second"));
    assert_eq!(fields(&commits[2]), ("ccc", "Carol", "fix: third"));
}

#[test]
fn parse_log_keeps_separator_inside_subject() {
    let text = entry("a1", "Ann", &format!("feat: x{FIELD_SEP}y"));
    let commits = parse_log(&text);
    assert_eq!(commits.len(), 1);
    assert_eq!(commits[0].subject, format!("feat: x{FIELD_SEP}y"));
}

#[test]
fn parse_log_skips_malformed_and_blank_records() {
    let text = format!("  \n{}{}\n", format!("onlyone{FIELD_SEP}field{RECORD_END}"), entry("s", "A", "x"));
    let commits = parse_log(&text);
    assert_eq!(commits.len(), 1);
    assert_eq!(fields(&commits[0]), ("s", "A", "x"));
    assert!(parse_log("").is_empty());
}

#[test]
fn parse_log_trims_each_record() {
    let text = format!("\n  {}", entry("abc", "Dee", "chore: tidy  "));
    let commits = parse_log(&text);
    assert_eq!(fields(&commits[0]), ("abc", "Dee", "chore: tidy"));
}

#[test]
fn empty_repository_gives_no_commits() {
    let r = log_failure("fatal: your current branch 'main' does not have any commits yet\n");
    assert!(matches!(r, Ok(ref v) if v.is_empty()));
}

#[test]
fn other_git_failure_is_reported_trimmed() {
    match log_failure("  fatal: bad revision 'nope..HEAD'\n") {
        Err(ScanError::GitFailed(s)) => assert_eq!(s, "fatal: bad revision 'nope..HEAD'"),
        other => panic!("unexpected: {other:?}"),
    }
}

#[test]
fn read_log_decodes_output() {
    let text = entry("f00", "Zoë", "docs: ümlaut");
    let r = read_log(true, text.as_bytes(), b"").unwrap();
    assert_eq!(fields(&r[0]), ("f00", "Zoë", "docs: ümlaut"));
}

#[test]
fn read_log_replaces_invalid_utf8() {
    let mut bytes = b"h1\x1eKAGU\x1ebad \xff name\x1eKAGU\x1efix: x\x1fEND\x1f".to_vec();
    bytes.push(b'\n');
    let r = read_log(true, &bytes, b"").unwrap();
    assert_eq!(r[0].author, "bad \u{fffd} name");
}

#[test]
fn read_log_failure_uses_stderr() {
    match read_log(false, b"", b"fatal: not a git repository\n") {
        Err(ScanError::GitFailed(s)) => assert_eq!(s, "fatal: not a git repository"),
        other => panic!("unexpected: {other:?}"),
    }
    let r = read_log(false, b"", b"does not have any commits yet").unwrap();
    assert!(r.is_empty());
}

#[test]
fn scan_error_messages() {
    assert_eq!(ScanError::NotAGitRepo.message(), "not inside a git repository");
    assert_eq!(ScanError::GitMissing.message(), "`git` executable not found in PATH");
    assert_eq!(
        ScanError::GitFailed("boom".to_string()).message(),
        "git command failed: boom"
    );
    assert_eq!(
        ScanError::PathNotFound(std::path::PathBuf::from("/no/such")).message(),
        "path does not exist: /no/such"
    );
    let io = std::io::Error::new(std::io::ErrorKind::Other, "disk on fire");
    assert_eq!(ScanError::Io(io).message(), "io error: disk on fire");
}

#[test]
fn io_not_found_means_git_missing() {
    let e = std::io::Error::new(std::io::ErrorKind::NotFound, "no git");
    assert!(matches!(ScanError::from_io(e), ScanError::GitMissing));
    let e = std::io::Error::new(std::io::ErrorKind::PermissionDenied, "nope");
    assert!(matches!(ScanError::from_io(e), ScanError::Io(_)));
    let e = std::io::Error::new(std::io::ErrorKind::Other, "x");
    assert!(matches!(ScanError::from_io_kind(e, true), ScanError::GitMissing));
}

#[test]
fn since_means_ref_to_head() {
    assert_eq!(since_range("main"), "main..HEAD");
    assert_eq!(since_range("origin/main"), "origin/main..HEAD");
}
