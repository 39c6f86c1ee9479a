use kagu::validator::{parse_subject, should_skip, validate, ValidatorOptions};

fn opts() -> ValidatorOptions<'static> {
    ValidatorOptions::default()
}

#[test]
fn parses_simple() {
    let p = parse_subject("feat: add thing").unwrap();
    assert_eq!(p.commit_type, "feat");
    assert_eq!(p.scope, None);
    assert!(!p.breaking);
    assert_eq!(p.description, "add thing");
}

#[test]
fn parses_scope_and_breaking() {
    let p = parse_subject("fix(parser)!: handle eof").unwrap();
    assert_eq!(p.commit_type, "fix");
    assert_eq!(p.scope.as_deref(), Some("parser"));
    assert!(p.breaking);
    assert_eq!(p.description, "handle eof");
}

#[test]
fn rejects_garbage() {
    assert!(parse_subject("just a sentence").is_none());
    assert!(parse_subject("FEAT add thing").is_none());
    assert!(parse_subject("feat(: bad").is_none());
    assert!(parse_subject("feat(): empty scope").is_none());
}

#[test]
fn validates_clean_commit() {
    let r = validate("feat(cli): add scan subcommand", opts());
    assert!(r.ok());
    assert!(r.violations.is_empty());
}

#[test]
fn flags_unknown_type() {
    let r = validate("wibble: do thing", opts());
    assert!(!r.ok());
    assert!(r.violations.iter().any(|v| v.code == "type"));
}

#[test]
fn flags_format() {
    let r = validate("just doing some stuff", opts());
    assert!(!r.ok());
    assert!(r.violations.iter().any(|v| v.code == "format"));
}

#[test]
fn flags_long_description() {
    let long = "a".repeat(120);
    let subject = format!("feat: {long}");
    let r = validate(&subject, opts());
    assert!(r.violations.iter().any(|v| v.code == "length"));
}

#[test]
fn warns_trailing_period() {
    let r = validate("feat: add thing.", opts());
    // warning, not error → still ok overall
    assert!(r.ok());
    assert!(r.violations.iter().any(|v| v.code == "punctuation"));
}

#[test]
fn skips_merge() {
    let r = validate("Merge branch 'main'", opts());
    assert!(r.skipped);
    assert!(r.ok());
}

#[test]
fn skips_initial_commit() {
    let r = validate("Initial commit", opts());
    assert!(r.skipped);
}

#[test]
fn strict_requires_scope() {
    let mut o = opts();
    o.strict = true;
    let r = validate("feat: no scope here", o);
    assert!(!r.ok());
    assert!(r.violations.iter().any(|v| v.code == "scope"));

    let r2 = validate("feat(cli): with scope", o);
    assert!(r2.ok());
}

#[test]
fn empty_description() {
    let r = validate("feat: ", opts());
    assert!(r.violations.iter().any(|v| v.code == "description"));
}

#[test]
fn rejects_type_with_digits() {
    assert!(parse_subject("feat1: add thing").is_none());
    assert!(parse_subject("v2: release").is_none());
}

#[test]
fn parses_breaking_without_scope() {
    let p = parse_subject("feat!: drop legacy api").unwrap();
    assert_eq!(p.commit_type, "feat");
    assert_eq!(p.scope, None);
    assert!(p.breaking);
    assert_eq!(p.description, "drop legacy api");
}

#[test]
fn length_counts_characters_not_bytes() {
    // 50 multi-byte chars = 150 bytes, but only 50 chars → well under 100
    let desc: String = "é".repeat(50);
    let subject = format!("feat: {desc}");
    let r = validate(&subject, opts());
    assert!(
        !r.violations.iter().any(|v| v.code == "length"),
        "50 multi-byte chars should not trigger length violation"
    );

    // 101 multi-byte chars = 202 bytes → should fail length
    let desc: String = "é".repeat(101);
    let subject = format!("feat: {desc}");
    let r = validate(&subject, opts());
    let len_vio = r
        .violations
        .iter()
        .find(|v| v.code == "length")
        .expect("should have length violation");
    assert!(
        len_vio.message.contains("101 chars"),
        "got: {}",
        len_vio.message
    );
}

#[test]
fn empty_subject() {
    let r = validate("", opts());
    assert!(!r.ok());
    assert!(r.violations.iter().any(|v| v.code == "format"));
}

#[test]
fn whitespace_only_subject() {
    let r = validate("   ", opts());
    assert!(!r.ok());
    assert!(r.violations.iter().any(|v| v.code == "format"));
}

#[test]
fn multiple_violations_on_same_commit() {
    let long: String = "x".repeat(120);
    let subject = format!("wibble: {long}.");
    let r = validate(&subject, opts());
    // unknown type + length + trailing period
    let codes: Vec<&str> = r.violations.iter().map(|v| v.code.as_str()).collect();
    assert!(codes.contains(&"type"), "got: {codes:?}");
    assert!(codes.contains(&"length"), "got: {codes:?}");
    assert!(codes.contains(&"punctuation"), "got: {codes:?}");
}

#[test]
fn multiline_subject_uses_first_line_only() {
    let r = validate("feat: add thing\n\nLonger body here.", opts());
    assert!(r.ok(), "body should not affect validation");
}

#[test]
fn parse_unicode_description() {
    let p = parse_subject("feat: ✨ sparkle").unwrap();
    assert_eq!(p.description, "✨ sparkle");
}

#[test]
fn type_is_case_insensitive() {
    // uppercase type should be normalized and still match
    let r = validate("FEAT: upper case", opts());
    assert!(r.ok(), "case should be normalized");
}

#[test]
fn skip_merge_is_not_case_sensitive_prefix() {
    // "Merge " as a prefix is the convention git uses
    assert!(should_skip("Merge branch 'feature'"));
    assert!(should_skip("Merge pull request #1 from foo"));
    // Should NOT skip a normal commit that happens to mention merge
    assert!(!should_skip("feat: handle merge conflicts"));
}

#[test]
fn body_after_first_line_is_ignored() {
    let a = validate("wibble: x\nfeat: y", opts());
    let b = validate("wibble: x", opts());
    assert_eq!(a.violations, b.violations);
    assert_eq!(a.parsed, b.parsed);
    let c = validate("feat: ok  \r\nbody.", opts());
    assert!(c.violations.is_empty());
    assert_eq!(c.parsed.unwrap().description, "ok");
}

#[test]
fn skipped_commits_have_no_violations() {
    let r = validate("  initial COMMIT  ", opts());
    assert!(r.skipped);
    assert!(r.violations.is_empty());
    assert!(r.parsed.is_none());
    assert!(!should_skip("merge branch 'x'"));
}

#[test]
fn strict_only_adds_the_scope_violation() {
    let mut strict = opts();
    strict.strict = true;
    let normal = validate("wibble: thing.", opts());
    let s = validate("wibble: thing.", strict);
    assert_eq!(s.violations.len(), normal.violations.len() + 1);
    assert_eq!(s.violations[..normal.violations.len()], normal.violations[..]);
    assert_eq!(s.violations.last().unwrap().code, "scope");
    assert_eq!(
        s.violations.last().unwrap().message,
        "strict mode requires `(scope)` on every commit"
    );
    let scoped = validate("feat(x): y", strict);
    assert!(scoped.violations.is_empty());
}

#[test]
fn type_case_does_not_matter() {
    let a = validate("FeAt(Core)!: Go", opts());
    let b = validate("feat(Core)!: Go", opts());
    assert_eq!(a.parsed, b.parsed);
    assert_eq!(a.parsed.unwrap().commit_type, "feat");
    let mut custom = opts();
    let types = ["Feat", "WIP"];
    custom.allowed_types = &types;
    assert!(validate("wip: later", custom).ok());
    assert!(validate("FEAT: now", custom).ok());
}

#[test]
fn violation_messages_are_exact() {
    let mut o = opts();
    let types = ["feat", "fix"];
    o.allowed_types = &types;
    let r = validate("chore: x", o);
    assert_eq!(r.violations[0].message, "unknown type `chore` (allowed: feat, fix)");
    assert!(r.violations[0].is_error());
    let long = "z".repeat(101);
    let r = validate(&format!("feat: {long}"), opts());
    assert_eq!(r.violations[0].code, "length");
    assert_eq!(r.violations[0].message, "description is 101 chars (max 100)");
    let r = validate("feat:", opts());
    assert_eq!(r.violations[0].message, "description is empty");
    let r = validate("feat: dot.", opts());
    assert_eq!(r.violations[0].severity, kagu::validator::Severity::Warning);
    assert!(!r.violations[0].is_error());
    let exactly_100 = "y".repeat(100);
    assert!(validate(&format!("feat: {exactly_100}"), opts()).violations.is_empty());
}

#[test]
fn parse_edge_cases() {
    let p = parse_subject("feat(a(b)): x").unwrap();
    assert_eq!(p.scope.as_deref(), Some("a(b)"));
    assert!(parse_subject("feat)!: x").is_none());
    assert!(parse_subject(": x").is_none());
    assert!(parse_subject("!: x").is_none());
    let p = parse_subject("fix:   spaced").unwrap();
    assert_eq!(p.description, "spaced");
    let p = parse_subject("fix:a:b").unwrap();
    assert_eq!(p.description, "a:b");
    assert!(parse_subject("fe at: x").is_none());
    assert!(parse_subject("féat: x").is_none());
}

#[test]
fn default_options_list_the_conventional_types() {
    let o = opts();
    assert_eq!(
        o.allowed_types,
        &["feat", "fix", "docs", "style", "refactor", "perf", "test", "build", "ci", "chore", "revert"]
    );
    assert!(!o.strict);
}

#[test]
fn formatted_subjects_parse_back() {
    let cases: [(&str, Option<&str>, bool, &str); 5] = [
        ("feat", None, false, "add thing"),
        ("fix", Some("parser"), true, "handle eof: now"),
        ("docs", Some("a(b)"), false, ""),
        ("refactor", None, true, "x."),
        ("chore", Some("ci)("), false, "bump"),
    ];
    for (t, scope, breaking, d) in cases {
        let mut line = t.to_string();
        if let Some(sc) = scope {
            line.push('(');
            line.push_str(sc);
            line.push(')');
        }
        if breaking {
            line.push('!');
        }
        line.push_str(": ");
        line.push_str(d);
        let p = parse_subject(&line).unwrap();
        assert_eq!(p.commit_type, t);
        assert_eq!(p.scope.as_deref(), scope);
        assert_eq!(p.breaking, breaking);
        assert_eq!(p.description, d);
    }
}

#[test]
fn parse_accepts_exactly_the_subject_shape() {
    let p = parse_subject("Feat(x)!:  y").unwrap();
    assert_eq!(p.commit_type, "feat");
    assert_eq!(p.scope.as_deref(), Some("x"));
    assert!(p.breaking);
    assert_eq!(p.description, "y");
    let p = parse_subject("feat(a)(b): x").unwrap();
    assert_eq!(p.scope.as_deref(), Some("a)(b"));
    assert!(parse_subject("feat(x)y: z").is_none());
    assert!(parse_subject("feat!!: z").is_none());
    assert!(parse_subject("feat no colon").is_none());
    assert!(parse_subject("(x): y").is_none());
}
