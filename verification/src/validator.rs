//! Parsing and validation of conventional-commit subject lines.
use vstd::prelude::*;
use vstd::string::*;

use crate::text::{
    back_ws, chars_of, decimal, ends_with_char, eq_ignore_case, find_char, find_from, has_prefix,
    is_ascii_alpha, is_ws, join, lemma_find_from, lemma_find_from_at, lemma_find_past_prefix, lemma_ws_start_bounds,
    lower, lower_char, lowercase, push_decimal, push_join, same_ignoring_case, skip_ws,
    starts_with, string_of, sub_vec, trim, trim_end, trim_start, trimmed, ws_end, ws_start,
};

verus! {

/// The commit types accepted when no other list is given.
pub const DEFAULT_TYPES: [&'static str; 11] = [
    "feat", "fix", "docs", "style", "refactor", "perf", "test", "build", "ci", "chore", "revert",
];

/// A subject line split into its conventional-commit parts.
#[derive(Debug, Clone, PartialEq, Eq)]
pub struct ParsedCommit {
    pub commit_type: String,
    pub scope: Option<String>,
    pub breaking: bool,
    pub description: String,
}

/// What a `ParsedCommit` holds, as character sequences.
pub struct ParsedView {
    pub commit_type: Seq<char>,
    pub scope: Option<Seq<char>>,
    pub breaking: bool,
    pub description: Seq<char>,
}

pub open spec fn opt_view(o: Option<String>) -> Option<Seq<char>> {
    match o {
        Some(s) => Some(s@),
        None => None,
    }
}

impl View for ParsedCommit {
    type V = ParsedView;

    open spec fn view(&self) -> ParsedView {
        ParsedView {
            commit_type: self.commit_type@,
            scope: opt_view(self.scope),
            breaking: self.breaking,
            description: self.description@,
        }
    }
}

#[derive(Debug, Clone, Copy, PartialEq, Eq, Structural)]
pub enum Severity {
    Error,
    Warning,
}

#[derive(Debug, Clone, PartialEq, Eq)]
pub struct Violation {
    pub code: String,
    pub message: String,
    pub severity: Severity,
}

/// What a `Violation` holds, as character sequences.
pub struct ViolationView {
    pub code: Seq<char>,
    pub message: Seq<char>,
    pub severity: Severity,
}

impl View for Violation {
    type V = ViolationView;

    open spec fn view(&self) -> ViolationView {
        ViolationView { code: self.code@, message: self.message@, severity: self.severity }
    }
}

pub open spec fn err_view(code: Seq<char>, message: Seq<char>) -> ViolationView {
    ViolationView { code, message, severity: Severity::Error }
}

pub open spec fn warn_view(code: Seq<char>, message: Seq<char>) -> ViolationView {
    ViolationView { code, message, severity: Severity::Warning }
}

impl Violation {
    fn err(code: &str, message: String) -> (v: Violation)
        ensures
            v@ == err_view(code@, message@),
    {
        Violation { code: String::from_str(code), message, severity: Severity::Error }
    }

    fn warn(code: &str, message: String) -> (v: Violation)
        ensures
            v@ == warn_view(code@, message@),
    {
        Violation { code: String::from_str(code), message, severity: Severity::Warning }
    }

    pub fn is_error(&self) -> (r: bool)
        ensures
            r == (self.severity == Severity::Error),
    {
        match self.severity {
            Severity::Error => true,
            Severity::Warning => false,
        }
    }

    /// A copy of this violation.
    pub(crate) fn duplicate(&self) -> (v: Violation)
        ensures
            v@ == self@,
    {
        Violation {
            code: self.code.clone(),
            message: self.message.clone(),
            severity: self.severity,
        }
    }
}

#[derive(Debug, Clone)]
pub struct ValidationResult {
    pub parsed: Option<ParsedCommit>,
    pub violations: Vec<Violation>,
    pub skipped: bool,
}

/// What a `ValidationResult` holds, as character sequences.
pub struct ResultView {
    pub parsed: Option<ParsedView>,
    pub violations: Seq<ViolationView>,
    pub skipped: bool,
}

pub open spec fn parsed_opt_view(o: Option<ParsedCommit>) -> Option<ParsedView> {
    match o {
        Some(p) => Some(p@),
        None => None,
    }
}

pub open spec fn violations_view(v: Seq<Violation>) -> Seq<ViolationView> {
    v.map_values(|x: Violation| x@)
}

impl View for ValidationResult {
    type V = ResultView;

    open spec fn view(&self) -> ResultView {
        ResultView {
            parsed: parsed_opt_view(self.parsed),
            violations: violations_view(self.violations@),
            skipped: self.skipped,
        }
    }
}

/// Some violation in `vs` is an error.
pub open spec fn has_error(vs: Seq<ViolationView>) -> bool {
    exists|i: int| 0 <= i < vs.len() && #[trigger] vs[i].severity == Severity::Error
}

impl ValidationResult {
    /// No violation is an error (warnings alone keep a commit ok).
    pub fn ok(&self) -> (r: bool)
        ensures
            r == !has_error(self@.violations),
    {
        let mut i: usize = 0;
        while i < self.violations.len()
            invariant
                i <= self.violations.len(),
                forall|k: int| 0 <= k < i ==> self.violations@[k].severity != Severity::Error,
            decreases self.violations.len() - i,
        {
            if self.violations[i].is_error() {
                assert(self@.violations[i as int].severity == Severity::Error);
                return false;
            }
            i += 1;
        }
        assert(forall|k: int| 0 <= k < self@.violations.len() ==> #[trigger] self@.violations[k].severity
            == self.violations@[k].severity);
        true
    }
}

/// Knobs for `validate`: which types are accepted, and whether a scope is required.
#[derive(Debug, Clone, Copy)]
pub struct ValidatorOptions<'a> {
    pub allowed_types: &'a [&'a str],
    pub strict: bool,
}

impl<'a> ValidatorOptions<'a> {
    /// The accepted types as character sequences.
    pub open spec fn allowed(&self) -> Seq<Seq<char>> {
        self.allowed_types@.map_values(|t: &str| t@)
    }
}

/// The accepted types as character sequences.
pub open spec fn default_types() -> Seq<Seq<char>> {
    seq![
        "feat"@, "fix"@, "docs"@, "style"@, "refactor"@, "perf"@, "test"@, "build"@, "ci"@,
        "chore"@, "revert"@
    ]
}

impl<'a> Default for ValidatorOptions<'a> {
    fn default() -> (r: Self)
        ensures
            r.allowed() == default_types(),
            !r.strict,
    {
        let types: &'static [&'static str] = &DEFAULT_TYPES;
        let r = ValidatorOptions { allowed_types: types, strict: false };
        assert(r.allowed() =~= default_types());
        r
    }
}

/// Every character of `s` is an ASCII letter.
pub open spec fn all_ascii_alpha(s: Seq<char>) -> bool {
    forall|i: int| 0 <= i < s.len() ==> is_ascii_alpha(#[trigger] s[i])
}

/// The parse of a subject line: `<type>(<scope>)?!?: <description>`, where the type is
/// one or more ASCII letters (returned lowercased), the scope, when its brackets are
/// there, is not empty, and the description is what follows the first `:` with leading
/// whitespace removed. `None` when the line does not have that shape.
pub open spec fn spec_parse(s: Seq<char>) -> Option<ParsedView> {
    let colon = find_from(s, ':', 0);
    let head = s.take(colon);
    let breaking = ends_with_char(head, '!');
    let bare = if breaking {
        head.drop_last()
    } else {
        head
    };
    let open = find_from(bare, '(', 0);
    let has_scope = open < bare.len();
    let type_part = if has_scope {
        bare.take(open)
    } else {
        bare
    };
    let scope = bare.subrange(open + 1, bare.len() - 1);
    if colon >= s.len() {
        None
    } else if has_scope && (!ends_with_char(bare, ')') || scope.len() == 0) {
        None
    } else if type_part.len() == 0 || !all_ascii_alpha(type_part) {
        None
    } else {
        Some(
            ParsedView {
                commit_type: lower(type_part),
                scope: if has_scope {
                    Some(scope)
                } else {
                    None
                },
                breaking,
                description: trim_start(s.skip(colon + 1)),
            },
        )
    }
}

/// Merge commits and the initial commit are not audited.
pub open spec fn spec_should_skip(subject: Seq<char>) -> bool {
    let t = trim(subject);
    starts_with(t, "Merge "@) || eq_ignore_case(t, "initial commit"@)
}

/// The first line of a commit message, without trailing whitespace.
pub open spec fn subject_line(msg: Seq<char>) -> Seq<char> {
    trim_end(msg.take(find_from(msg, '\n', 0)))
}

/// The longest description, in characters, that is accepted.
pub open spec fn max_description() -> nat {
    100
}

pub open spec fn format_violation() -> ViolationView {
    err_view("format"@, "subject does not match `<type>(<scope>)?!?: <description>`"@)
}

/// The type is one of `allowed`, ignoring ASCII case.
pub open spec fn type_allowed(t: Seq<char>, allowed: Seq<Seq<char>>) -> bool {
    exists|i: int| 0 <= i < allowed.len() && eq_ignore_case(#[trigger] allowed[i], t)
}

pub open spec fn type_violation(t: Seq<char>, allowed: Seq<Seq<char>>) -> ViolationView {
    err_view(
        "type"@,
        "unknown type `"@ + t + "` (allowed: "@ + join(allowed, ", "@) + ")"@,
    )
}

pub open spec fn empty_violation() -> ViolationView {
    err_view("description"@, "description is empty"@)
}

pub open spec fn length_violation(n: nat) -> ViolationView {
    err_view("length"@, "description is "@ + decimal(n) + " chars (max 100)"@)
}

pub open spec fn period_violation() -> ViolationView {
    warn_view("punctuation"@, "description should not end with `.`"@)
}

pub open spec fn scope_violation() -> ViolationView {
    err_view("scope"@, "strict mode requires `(scope)` on every commit"@)
}

/// The violations of a parsed subject, in the order they are reported:
/// type, then description (empty, or too long and/or ending in `.`), then scope.
pub open spec fn spec_violations(p: ParsedView, allowed: Seq<Seq<char>>, strict: bool) -> Seq<
    ViolationView,
> {
    let d = p.description;
    (if type_allowed(p.commit_type, allowed) {
        Seq::empty()
    } else {
        seq![type_violation(p.commit_type, allowed)]
    }) + (if d.len() == 0 {
        seq![empty_violation()]
    } else {
        (if d.len() > max_description() {
            seq![length_violation(d.len())]
        } else {
            Seq::empty()
        }) + (if ends_with_char(d, '.') {
            seq![period_violation()]
        } else {
            Seq::empty()
        })
    }) + (if strict && p.scope is None {
        seq![scope_violation()]
    } else {
        Seq::empty()
    })
}

/// The verdict on a commit message: only its first line counts.
pub open spec fn spec_validate(msg: Seq<char>, allowed: Seq<Seq<char>>, strict: bool) -> ResultView {
    let s = subject_line(msg);
    if spec_should_skip(s) {
        ResultView { parsed: None, violations: Seq::empty(), skipped: true }
    } else {
        match spec_parse(s) {
            None => ResultView { parsed: None, violations: seq![format_violation()], skipped: false },
            Some(p) => ResultView {
                parsed: Some(p),
                violations: spec_violations(p, allowed, strict),
                skipped: false,
            },
        }
    }
}

fn is_alpha(c: char) -> (r: bool)
    ensures
        r == is_ascii_alpha(c),
{
    ('A' <= c && c <= 'Z') || ('a' <= c && c <= 'z')
}

fn all_alpha(v: &Vec<char>, n: usize) -> (r: bool)
    requires
        n <= v.len(),
    ensures
        r == forall|k: int| 0 <= k < n ==> is_ascii_alpha(#[trigger] v@[k]),
{
    let mut i: usize = 0;
    while i < n
        invariant
            n <= v.len(),
            i <= n,
            forall|k: int| 0 <= k < i ==> is_ascii_alpha(#[trigger] v@[k]),
        decreases n - i,
    {
        if !is_alpha(v[i]) {
            return false;
        }
        i += 1;
    }
    true
}

fn parse_chars(s: &Vec<char>) -> (r: Option<ParsedCommit>)
    ensures
        parsed_opt_view(r) == spec_parse(s@),
{
    let colon = find_char(s, ':', 0);
    if colon == s.len() {
        return None;
    }
    let head = sub_vec(s, 0, colon);
    assert(head@ =~= s@.take(colon as int));
    let breaking = head.len() > 0 && head[head.len() - 1] == '!';
    let bare_len = if breaking {
        head.len() - 1
    } else {
        head.len()
    };
    let bare = sub_vec(&head, 0, bare_len);
    proof {
        assert(bare@ == (if breaking {
            head@.drop_last()
        } else {
            head@
        }));
    }
    let open = find_char(&bare, '(', 0);
    proof {
        lemma_find_from(bare@, '(', 0);
    }
    let scope: Option<String>;
    let type_end: usize;
    if open < bare.len() {
        if !(bare.len() > 0 && bare[bare.len() - 1] == ')') {
            return None;
        }
        assert(bare@[open as int] == '(');
        if open + 1 == bare.len() - 1 {
            return None;
        }
        assert(bare@.subrange(open + 1, bare.len() - 1).len() > 0);
        scope = Some(string_of(&bare, open + 1, bare.len() - 1));
        type_end = open;
    } else {
        scope = None;
        type_end = bare.len();
    }
    if type_end == 0 {
        return None;
    }
    let ghost tp = if open < bare.len() {
        bare@.take(open as int)
    } else {
        bare@
    };
    assert(tp =~= bare@.take(type_end as int));
    if !all_alpha(&bare, type_end) {
        let ghost w = choose|k: int| 0 <= k < type_end && !is_ascii_alpha(bare@[k]);
        assert(!is_ascii_alpha(tp[w]));
        return None;
    }
    let type_part = sub_vec(&bare, 0, type_end);
    assert(type_part@ == (if open < bare.len() {
        bare@.take(open as int)
    } else {
        bare@
    }));
    let commit_type = lowercase(&type_part);
    let rest = sub_vec(s, colon + 1, s.len());
    let start = skip_ws(&rest, 0);
    let description = string_of(&rest, start, rest.len());
    assert(description@ == trim_start(s@.skip(colon + 1)));
    Some(ParsedCommit { commit_type, scope, breaking, description })
}

/// Parse a commit subject line into a `ParsedCommit`, if it loosely matches the
/// conventional-commit shape. Returns `None` when the format is unrecognizable.
pub fn parse_subject(subject: &str) -> (r: Option<ParsedCommit>)
    ensures
        parsed_opt_view(r) == spec_parse(subject@),
{
    let v = chars_of(subject);
    parse_chars(&v)
}

fn skip_chars(v: &Vec<char>) -> (r: bool)
    ensures
        r == spec_should_skip(v@),
{
    let t = trimmed(v);
    let merge = chars_of("Merge ");
    if has_prefix(&t, &merge) {
        return true;
    }
    let initial = chars_of("initial commit");
    same_ignoring_case(&t, &initial)
}

/// Should this subject be skipped (merge / initial commit)?
pub fn should_skip(subject: &str) -> (r: bool)
    ensures
        r == spec_should_skip(subject@),
{
    let v = chars_of(subject);
    skip_chars(&v)
}

fn type_is_allowed(t: &String, allowed: &[&str]) -> (r: bool)
    ensures
        r == type_allowed(t@, allowed@.map_values(|x: &str| x@)),
{
    let ghost all = allowed@.map_values(|x: &str| x@);
    let tv = chars_of(t.as_str());
    let mut i: usize = 0;
    while i < allowed.len()
        invariant
            i <= allowed.len(),
            all == allowed@.map_values(|x: &str| x@),
            tv@ == t@,
            forall|k: int| 0 <= k < i ==> !eq_ignore_case(#[trigger] all[k], t@),
        decreases allowed.len() - i,
    {
        let a = chars_of(allowed[i]);
        if same_ignoring_case(&a, &tv) {
            assert(eq_ignore_case(all[i as int], t@));
            return true;
        }
        i += 1;
    }
    false
}

/// Validate a commit message against the conventional-commit rules.
pub fn validate(subject: &str, opts: ValidatorOptions<'_>) -> (r: ValidationResult)
    ensures
        r@ == spec_validate(subject@, opts.allowed(), opts.strict),
{
    let all = chars_of(subject);
    let nl = find_char(&all, '\n', 0);
    let first = sub_vec(&all, 0, nl);
    let e = back_ws(&first, first.len());
    let line = sub_vec(&first, 0, e);
    assert(line@ == subject_line(subject@));
    if skip_chars(&line) {
        let r = ValidationResult { parsed: None, violations: Vec::new(), skipped: true };
        assert(r@.violations =~= Seq::<ViolationView>::empty());
        return r;
    }
    let mut violations: Vec<Violation> = Vec::new();
    let parsed = match parse_chars(&line) {
        None => {
            violations.push(
                Violation::err(
                    "format",
                    String::from_str("subject does not match `<type>(<scope>)?!?: <description>`"),
                ),
            );
            let r = ValidationResult { parsed: None, violations, skipped: false };
            assert(r@.violations =~= seq![format_violation()]);
            return r;
        },
        Some(p) => p,
    };
    let ghost pv = parsed@;
    let ghost allowed = opts.allowed();
    let ghost d = pv.description;
    if !type_is_allowed(&parsed.commit_type, opts.allowed_types) {
        let mut m = String::from_str("unknown type `");
        m.append(parsed.commit_type.as_str());
        m.append("` (allowed: ");
        push_join(&mut m, opts.allowed_types, ", ");
        m.append(")");
        violations.push(Violation::err("type", m));
    }
    let ghost after_type = violations_view(violations@);
    assert(after_type =~= (if type_allowed(pv.commit_type, allowed) {
        Seq::empty()
    } else {
        seq![type_violation(pv.commit_type, allowed)]
    }));
    let desc = chars_of(parsed.description.as_str());
    if desc.len() == 0 {
        violations.push(Violation::err("description", String::from_str("description is empty")));
    } else {
        let count = desc.len();
        if count > 100 {
            let mut m = String::from_str("description is ");
            push_decimal(&mut m, count);
            m.append(" chars (max 100)");
            violations.push(Violation::err("length", m));
        }
        if desc[count - 1] == '.' {
            violations.push(
                Violation::warn("punctuation", String::from_str("description should not end with `.`")),
            );
        }
    }
    let ghost after_desc = violations_view(violations@);
    assert(after_desc =~= after_type + (if d.len() == 0 {
        seq![empty_violation()]
    } else {
        (if d.len() > max_description() {
            seq![length_violation(d.len())]
        } else {
            Seq::empty()
        }) + (if ends_with_char(d, '.') {
            seq![period_violation()]
        } else {
            Seq::empty()
        })
    }));
    if opts.strict && parsed.scope.is_none() {
        violations.push(
            Violation::err("scope", String::from_str("strict mode requires `(scope)` on every commit")),
        );
    }
    let r = ValidationResult { parsed: Some(parsed), violations, skipped: false };
    assert(r@.violations =~= spec_violations(pv, allowed, opts.strict));
    r
}

/// Only the first line of a message is validated: a body after the first newline
/// changes nothing.
pub proof fn lemma_body_ignored(line: Seq<char>, body: Seq<char>, allowed: Seq<Seq<char>>, strict: bool)
    requires
        forall|i: int| 0 <= i < line.len() ==> line[i] != '\n',
    ensures
        spec_validate(line + seq!['\n'] + body, allowed, strict) == spec_validate(line, allowed, strict),
{
    let msg = line + seq!['\n'] + body;
    lemma_find_from(msg, '\n', 0);
    lemma_find_from(line, '\n', 0);
    let r = find_from(msg, '\n', 0);
    assert(msg[line.len() as int] == '\n');
    if r < line.len() {
        assert(msg[r] == line[r]);
    }
    assert(r == line.len());
    assert(msg.take(r) =~= line);
    assert(line.take(line.len() as int) =~= line);
}

/// A skipped commit (a merge, or the initial commit) is never reported for anything.
pub proof fn lemma_skipped_has_no_violations(msg: Seq<char>, allowed: Seq<Seq<char>>, strict: bool)
    ensures
        spec_validate(msg, allowed, strict).skipped ==> spec_validate(msg, allowed, strict).violations
            =~= Seq::<ViolationView>::empty() && spec_validate(msg, allowed, strict).parsed is None,
{
}

/// Strict mode only adds the scope violation, last, and only to a commit without a
/// scope; every other verdict is the same as in normal mode.
pub proof fn lemma_strict_adds_only_scope(msg: Seq<char>, allowed: Seq<Seq<char>>)
    ensures
        ({
            let normal = spec_validate(msg, allowed, false);
            let strict = spec_validate(msg, allowed, true);
            &&& strict.parsed == normal.parsed
            &&& strict.skipped == normal.skipped
            &&& strict.violations == normal.violations + match normal.parsed {
                Some(p) => if p.scope is None {
                    seq![scope_violation()]
                } else {
                    Seq::empty()
                },
                None => Seq::empty(),
            }
        }),
{
    let normal = spec_validate(msg, allowed, false);
    let strict = spec_validate(msg, allowed, true);
    match normal.parsed {
        Some(p) => {
            assert(strict.violations =~= normal.violations + if p.scope is None {
                seq![scope_violation()]
            } else {
                Seq::empty()
            });
        },
        None => {
            assert(strict.violations =~= normal.violations + Seq::empty());
        },
    }
}

/// Whether a type is allowed does not depend on its ASCII letter case.
pub proof fn lemma_type_check_ignores_case(t1: Seq<char>, t2: Seq<char>, allowed: Seq<Seq<char>>)
    requires
        eq_ignore_case(t1, t2),
    ensures
        type_allowed(t1, allowed) == type_allowed(t2, allowed),
{
    if type_allowed(t1, allowed) {
        let i = choose|i: int| 0 <= i < allowed.len() && eq_ignore_case(allowed[i], t1);
        assert(eq_ignore_case(allowed[i], t2));
    }
    if type_allowed(t2, allowed) {
        let i = choose|i: int| 0 <= i < allowed.len() && eq_ignore_case(allowed[i], t2);
        assert(eq_ignore_case(allowed[i], t1));
    }
}

/// A parsed type is made of ASCII letters and is already lowercase.
pub proof fn lemma_parsed_type_is_lowercase(s: Seq<char>)
    ensures
        spec_parse(s) matches Some(p) ==> lower(p.commit_type) == p.commit_type && p.commit_type.len()
            > 0,
{
    if let Some(p) = spec_parse(s) {
        let t = p.commit_type;
        assert forall|i: int| 0 <= i < t.len() implies lower(t)[i] == t[i] by {
            let c = t[i];
            assert(lower_char(lower_char(c)) == lower_char(c)) by {
                if 'A' <= c && c <= 'Z' {
                    assert(((c as u32) + 32) as char >= 'a');
                }
            }
        }
        assert(lower(t) =~= t);
    }
}

/// Replacing the type of a subject by the same letters in another case changes
/// nothing in its parse: the type comes out lowercase either way.
pub proof fn lemma_parse_ignores_type_case(t: Seq<char>, u: Seq<char>, r: Seq<char>)
    requires
        t.len() > 0,
        all_ascii_alpha(t),
        all_ascii_alpha(u),
        lower(t) == lower(u),
    ensures
        spec_parse(t + r) == spec_parse(u + r),
{
    assert(lower(t).len() == t.len() && lower(u).len() == u.len());
    lemma_parse_shape(t, r);
    lemma_parse_shape(u, r);
    let kr = find_from(r, ':', 0);
    let hr = r.take(kr);
    let breaking = ends_with_char(hr, '!');
    let br = if breaking {
        hr.drop_last()
    } else {
        hr
    };
    let ob = find_from(br, '(', 0);
    let x = if ob < br.len() {
        br.take(ob)
    } else {
        br
    };
    assert(lower(t + x) =~= lower(t) + lower(x));
    assert(lower(u + x) =~= lower(u) + lower(x));
    assert(all_ascii_alpha(t + x) == all_ascii_alpha(x)) by {
        if all_ascii_alpha(x) {
            assert forall|i: int| 0 <= i < (t + x).len() implies is_ascii_alpha(#[trigger] (t + x)[i]) by {
                if i >= t.len() {
                    assert((t + x)[i] == x[i - t.len()]);
                } else {
                    assert((t + x)[i] == t[i]);
                }
            }
        }
        if all_ascii_alpha(t + x) {
            assert forall|i: int| 0 <= i < x.len() implies is_ascii_alpha(#[trigger] x[i]) by {
                assert((t + x)[i + t.len()] == x[i]);
            }
        }
    }
    assert(all_ascii_alpha(u + x) == all_ascii_alpha(x)) by {
        if all_ascii_alpha(x) {
            assert forall|i: int| 0 <= i < (u + x).len() implies is_ascii_alpha(#[trigger] (u + x)[i]) by {
                if i >= u.len() {
                    assert((u + x)[i] == x[i - u.len()]);
                } else {
                    assert((u + x)[i] == u[i]);
                }
            }
        }
        if all_ascii_alpha(u + x) {
            assert forall|i: int| 0 <= i < x.len() implies is_ascii_alpha(#[trigger] x[i]) by {
                assert((u + x)[i + u.len()] == x[i]);
            }
        }
    }
}

/// Validating a one-line message whose type is written in another letter case gives
/// the same verdict, unless only one of the two is a skipped subject (the "Merge "
/// prefix is case-sensitive).
pub proof fn lemma_validate_ignores_type_case(
    t: Seq<char>,
    u: Seq<char>,
    r: Seq<char>,
    allowed: Seq<Seq<char>>,
    strict: bool,
)
    requires
        t.len() > 0,
        all_ascii_alpha(t),
        all_ascii_alpha(u),
        lower(t) == lower(u),
        forall|i: int| 0 <= i < r.len() ==> r[i] != '\n',
        spec_should_skip(subject_line(t + r)) == spec_should_skip(subject_line(u + r)),
    ensures
        spec_validate(t + r, allowed, strict) == spec_validate(u + r, allowed, strict),
{
    assert(lower(t).len() == t.len() && lower(u).len() == u.len());
    assert(u.len() > 0);
    lemma_line_after_type(t, r);
    lemma_line_after_type(u, r);
    lemma_parse_ignores_type_case(t, u, trim_end(r));
}

/// A subject line in the conventional form: `<type>(<scope>)!: <description>`, the
/// scope part and the `!` written only where there is a scope and a breaking change.
pub open spec fn format_subject(p: ParsedView) -> Seq<char> {
    let scope_part = match p.scope {
        Some(sc) => seq!['('] + sc + seq![')'],
        None => Seq::empty(),
    };
    let bang = if p.breaking {
        seq!['!']
    } else {
        Seq::empty()
    };
    p.commit_type + scope_part + bang + seq![':', ' '] + p.description
}

/// Formatting the parts of a commit subject and parsing the line gives the parts back,
/// for a type of lowercase ASCII letters, a scope that is not empty and holds no `:`,
/// and a description that does not start with whitespace.
pub proof fn lemma_parse_formatted(p: ParsedView)
    requires
        p.commit_type.len() > 0,
        forall|i: int| 0 <= i < p.commit_type.len() ==> 'a' <= #[trigger] p.commit_type[i] <= 'z',
        p.scope matches Some(sc) ==> sc.len() > 0 && forall|i: int| 0 <= i < sc.len() ==> #[trigger] sc[i] != ':',
        p.description.len() > 0 ==> !is_ws(p.description[0]),
    ensures
        spec_parse(format_subject(p)) == Some(p),
{
    let t = p.commit_type;
    let d = p.description;
    let sp: Seq<char> = match p.scope {
        Some(sc) => seq!['('] + sc + seq![')'],
        None => Seq::empty(),
    };
    let bang: Seq<char> = if p.breaking {
        seq!['!']
    } else {
        Seq::empty()
    };
    let tail = seq![':', ' '] + d;
    let r = sp + bang + tail;
    assert(format_subject(p) =~= t + r);
    assert(all_ascii_alpha(t));
    lemma_parse_shape(t, r);
    // The first `:` of `r` is the one before the description.
    let pre = sp + bang;
    assert forall|j: int| 0 <= j < pre.len() implies pre[j] != ':' by {
        if let Some(sc) = p.scope {
            if 1 <= j < sp.len() - 1 {
                assert(sp[j] == sc[j - 1]);
            }
        }
    }
    assert(r =~= pre + tail);
    lemma_find_past_prefix(pre, tail, ':');
    assert(find_from(tail, ':', 0) == 0);
    let kr = find_from(r, ':', 0);
    assert(kr == pre.len());
    let hr = r.take(kr);
    assert(hr =~= pre);
    assert(ends_with_char(hr, '!') == p.breaking) by {
        if !p.breaking {
            assert(hr =~= sp);
        }
    }
    let br = if p.breaking {
        hr.drop_last()
    } else {
        hr
    };
    assert(br =~= sp);
    let ob = find_from(br, '(', 0);
    if let Some(sc) = p.scope {
        assert(ob == 0);
        assert(br.take(0) =~= Seq::<char>::empty());
        assert(br.subrange(1, br.len() - 1) =~= sc);
        assert(t + br.take(0) =~= t);
    } else {
        assert(ob == 0 && br.len() == 0);
        assert(t + br =~= t);
    }
    assert(lower(t) =~= t) by {
        assert forall|i: int| 0 <= i < t.len() implies lower(t)[i] == t[i] by {
            assert('a' <= t[i] <= 'z');
        }
    }
    // The space after the `:` is the only whitespace dropped.
    let rest = r.skip(kr + 1);
    assert(rest =~= seq![' '] + d);
    assert(is_ws(rest[0]));
    assert(ws_end(rest, 0) == ws_end(rest, 1));
    if d.len() > 0 {
        assert(rest[1] == d[0]);
    }
    assert(ws_end(rest, 1) == 1);
    assert(trim_start(rest) =~= d);
}

/// The shape that `spec_parse` accepts, stated with its parts: a `:` is present, and
/// the text before the first one, without one trailing `!`, is a type `t` of ASCII
/// letters, alone or followed by a scope `sc` that is not empty, in brackets.
pub open spec fn has_subject_shape(s: Seq<char>, t: Seq<char>, scope: Option<Seq<char>>) -> bool {
    let colon = find_from(s, ':', 0);
    let head = s.take(colon);
    let bare = if ends_with_char(head, '!') {
        head.drop_last()
    } else {
        head
    };
    &&& colon < s.len()
    &&& t.len() > 0
    &&& all_ascii_alpha(t)
    &&& match scope {
        None => bare == t,
        Some(sc) => sc.len() > 0 && bare == t + seq!['('] + sc + seq![')'],
    }
}

/// A subject parses exactly when it has that shape for some type and scope; the
/// parse then holds them, the type lowercased, with the `!` before the `:` as the
/// breaking flag and what follows the `:` without leading whitespace as description.
pub proof fn lemma_parse_characterized(s: Seq<char>)
    ensures
        spec_parse(s) is Some <==> exists|t: Seq<char>, sc: Option<Seq<char>>| #[trigger]
            has_subject_shape(s, t, sc),
        forall|t: Seq<char>, sc: Option<Seq<char>>| #[trigger]
            has_subject_shape(s, t, sc) ==> spec_parse(s) == Some(
                ParsedView {
                    commit_type: lower(t),
                    scope: sc,
                    breaking: ends_with_char(s.take(find_from(s, ':', 0)), '!'),
                    description: trim_start(s.skip(find_from(s, ':', 0) + 1)),
                },
            ),
{
    lemma_find_from(s, ':', 0);
    let colon = find_from(s, ':', 0);
    let head = s.take(colon);
    let bare = if ends_with_char(head, '!') {
        head.drop_last()
    } else {
        head
    };
    lemma_find_from(bare, '(', 0);
    let open = find_from(bare, '(', 0);
    if let Some(p) = spec_parse(s) {
        let tp = if open < bare.len() {
            bare.take(open)
        } else {
            bare
        };
        if open < bare.len() {
            let sc = bare.subrange(open + 1, bare.len() - 1);
            assert(bare =~= tp + seq!['('] + sc + seq![')']);
            assert(has_subject_shape(s, tp, Some(sc)));
        } else {
            assert(has_subject_shape(s, tp, None));
        }
    }
    assert forall|t: Seq<char>, sc: Option<Seq<char>>| #[trigger]
        has_subject_shape(s, t, sc) implies spec_parse(s) == Some(
        ParsedView {
            commit_type: lower(t),
            scope: sc,
            breaking: ends_with_char(head, '!'),
            description: trim_start(s.skip(colon + 1)),
        },
    ) by {
        assert forall|j: int| 0 <= j < t.len() implies t[j] != '(' by {
            assert(is_ascii_alpha(t[j]));
        }
        match sc {
            None => {
                lemma_find_from_at(bare, '(', 0, bare.len() as int);
            },
            Some(x) => {
                let rest = seq!['('] + x + seq![')'];
                assert(bare =~= t + rest);
                lemma_find_past_prefix(t, rest, '(');
                assert(find_from(rest, '(', 0) == 0);
                assert(open == t.len());
                assert(bare.take(open) =~= t);
                assert(bare.subrange(open + 1, bare.len() - 1) =~= x);
            },
        }
    }
}

/// The punctuation warning comes exactly when the description of a parsed, counted
/// subject ends in `.`: a description whose last character is anything else never
/// gets it, wherever else it holds a `.`. When it comes, it is a warning with its
/// fixed message.
pub proof fn lemma_punctuation_iff_final_period(msg: Seq<char>, allowed: Seq<Seq<char>>, strict: bool)
    ensures
        ({
            let r = spec_validate(msg, allowed, strict);
            &&& (exists|i: int|
                0 <= i < r.violations.len() && #[trigger] r.violations[i].code == "punctuation"@)
                <==> (!r.skipped && (r.parsed matches Some(p) && p.description.len() > 0
                && p.description[p.description.len() - 1] == '.'))
            &&& forall|i: int|
                0 <= i < r.violations.len() && #[trigger] r.violations[i].code == "punctuation"@
                    ==> r.violations[i].severity == Severity::Warning
                    && r.violations[i].message == "description should not end with `.`"@
        }),
{
    reveal_strlit("punctuation");
    reveal_strlit("type");
    reveal_strlit("description");
    reveal_strlit("length");
    reveal_strlit("scope");
    reveal_strlit("format");
    let pu = "punctuation"@;
    assert(pu.len() == 11);
    assert("type"@.len() != 11 && "length"@.len() != 11 && "scope"@.len() != 11
        && "format"@.len() != 11);
    assert("description"@ != pu) by {
        assert("description"@[0] != pu[0]);
    }
    let s = subject_line(msg);
    let r = spec_validate(msg, allowed, strict);
    if !spec_should_skip(s) {
        match spec_parse(s) {
            None => {
                assert(r.violations =~= seq![format_violation()]);
                assert(format_violation().code != pu);
            },
            Some(p) => {
                let d = p.description;
                let a = if type_allowed(p.commit_type, allowed) {
                    Seq::<ViolationView>::empty()
                } else {
                    seq![type_violation(p.commit_type, allowed)]
                };
                let l = if d.len() > max_description() {
                    seq![length_violation(d.len())]
                } else {
                    Seq::<ViolationView>::empty()
                };
                let w = if ends_with_char(d, '.') {
                    seq![period_violation()]
                } else {
                    Seq::<ViolationView>::empty()
                };
                let b = if d.len() == 0 {
                    seq![empty_violation()]
                } else {
                    l + w
                };
                let c = if strict && p.scope is None {
                    seq![scope_violation()]
                } else {
                    Seq::<ViolationView>::empty()
                };
                let vs = r.violations;
                assert(vs =~= a + b + c);
                assert forall|i: int| 0 <= i < vs.len() implies (#[trigger] vs[i].code == pu) == (d.len()
                    > 0 && ends_with_char(d, '.') && i == a.len() + l.len()) by {
                    if i < a.len() {
                        assert(vs[i] == a[i]);
                    } else if i < a.len() + b.len() {
                        assert(vs[i] == b[i - a.len()]);
                        if d.len() > 0 {
                            if i < a.len() + l.len() {
                                assert(b[i - a.len()] == l[i - a.len()]);
                            } else {
                                assert(b[i - a.len()] == w[i - a.len() - l.len()]);
                            }
                        }
                    } else {
                        assert(vs[i] == c[i - a.len() - b.len()]);
                    }
                }
                if d.len() > 0 && ends_with_char(d, '.') {
                    let k = (a.len() + l.len()) as int;
                    assert(vs[k].code == pu);
                }
            },
        }
    }
}

/// Only merge commits and the initial commit are skipped: a subject is skipped
/// exactly when, without surrounding whitespace, it starts with `Merge ` or reads
/// `initial commit` in any ASCII case. In particular a subject whose trimmed text
/// starts with any character other than `M`, `I` or `i` (a revert, a conventional
/// subject, free text) is never skipped.
pub proof fn lemma_skips_only_merges_and_initial_commit(subject: Seq<char>)
    ensures
        spec_should_skip(subject) <==> ({
            let t = trim(subject);
            ||| (t.len() >= 6 && t.take(6) == "Merge "@)
            ||| lower(t) == "initial commit"@
        }),
        trim(subject).len() > 0 && trim(subject)[0] != 'M' && trim(subject)[0] != 'I' && trim(
            subject,
        )[0] != 'i' ==> !spec_should_skip(subject),
{
    reveal_strlit("Merge ");
    reveal_strlit("initial commit");
    let ic = "initial commit"@;
    let t = trim(subject);
    assert(lower(ic) =~= ic) by {
        assert forall|i: int| 0 <= i < ic.len() implies lower(ic)[i] == ic[i] by {
            assert(ic[i] == ' ' || ('a' <= ic[i] && ic[i] <= 'z'));
        }
    }
    if t.len() > 0 && t[0] != 'M' && t[0] != 'I' && t[0] != 'i' {
        if starts_with(t, "Merge "@) {
            assert(t[0] == t.take(6)[0]);
        }
        if lower(t) == ic {
            assert(lower(t)[0] == lower_char(t[0]));
            assert(lower_char(t[0]) == 'i');
            assert(t[0] == 'i' || t[0] == 'I') by {
                if 'A' <= t[0] && t[0] <= 'Z' {
                    assert(((t[0] as u32) + 32) as char == 'i');
                }
            }
        }
    }
}

/// The subject line of a one-line message that starts with a type of ASCII letters.
proof fn lemma_line_after_type(t: Seq<char>, r: Seq<char>)
    requires
        t.len() > 0,
        all_ascii_alpha(t),
        forall|i: int| 0 <= i < r.len() ==> r[i] != '\n',
    ensures
        subject_line(t + r) == t + trim_end(r),
{
    let s = t + r;
    assert forall|j: int| 0 <= j < t.len() implies t[j] != '\n' && !is_ws(t[j]) by {
        assert(is_ascii_alpha(t[j]));
    }
    lemma_find_past_prefix(t, r, '\n');
    lemma_find_from(r, '\n', 0);
    assert(find_from(r, '\n', 0) == r.len());
    assert(s.take(s.len() as int) =~= s);
    lemma_ws_start_shift(t, r, r.len() as int);
    lemma_ws_start_bounds(r, r.len() as int);
    assert(s.take(t.len() + ws_start(r, r.len() as int)) =~= t + r.take(ws_start(r, r.len() as int)));
}

/// Trailing whitespace of `t + r[..j]`, when `t` ends in something else, is that of `r[..j]`.
proof fn lemma_ws_start_shift(t: Seq<char>, r: Seq<char>, j: int)
    requires
        t.len() > 0,
        !is_ws(t.last()),
        0 <= j <= r.len(),
    ensures
        ws_start(t + r, t.len() + j) == t.len() + ws_start(r, j),
    decreases j,
{
    let s = t + r;
    if j > 0 {
        assert(s[t.len() + j - 1] == r[j - 1]);
        if is_ws(r[j - 1]) {
            lemma_ws_start_shift(t, r, j - 1);
        }
    } else {
        assert(s[t.len() - 1] == t.last());
    }
}

/// The parse of `t + r`, for a type `t` of ASCII letters, in terms of `r` alone:
/// everything but the type's own letters comes from `r`.
proof fn lemma_parse_shape(t: Seq<char>, r: Seq<char>)
    requires
        t.len() > 0,
        all_ascii_alpha(t),
    ensures
        ({
            let kr = find_from(r, ':', 0);
            let hr = r.take(kr);
            let breaking = ends_with_char(hr, '!');
            let br = if breaking {
                hr.drop_last()
            } else {
                hr
            };
            let ob = find_from(br, '(', 0);
            let has_scope = ob < br.len();
            let x = if has_scope {
                br.take(ob)
            } else {
                br
            };
            let scope = br.subrange(ob + 1, br.len() - 1);
            spec_parse(t + r) == if kr >= r.len() {
                None
            } else if has_scope && (!ends_with_char(br, ')') || scope.len() == 0) {
                None
            } else if !all_ascii_alpha(t + x) {
                None
            } else {
                Some(
                    ParsedView {
                        commit_type: lower(t + x),
                        scope: if has_scope {
                            Some(scope)
                        } else {
                            None
                        },
                        breaking,
                        description: trim_start(r.skip(kr + 1)),
                    },
                )
            }
        }),
{
    let s = t + r;
    assert forall|j: int| 0 <= j < t.len() implies t[j] != ':' && t[j] != '(' && t[j] != '!' by {
        assert(is_ascii_alpha(t[j]));
    }
    lemma_find_past_prefix(t, r, ':');
    lemma_find_from(r, ':', 0);
    let kr = find_from(r, ':', 0);
    let colon = find_from(s, ':', 0);
    assert(colon == t.len() + kr);
    let head = s.take(colon);
    let hr = r.take(kr);
    assert(head =~= t + hr);
    let breaking = ends_with_char(hr, '!');
    assert(ends_with_char(head, '!') == breaking) by {
        if hr.len() == 0 {
            assert(head.last() == t.last());
            assert(is_ascii_alpha(t[t.len() - 1]));
        } else {
            assert(head.last() == hr.last());
        }
    }
    let br = if breaking {
        hr.drop_last()
    } else {
        hr
    };
    let bare = if breaking {
        head.drop_last()
    } else {
        head
    };
    assert(bare =~= t + br);
    lemma_find_past_prefix(t, br, '(');
    lemma_find_from(br, '(', 0);
    let ob = find_from(br, '(', 0);
    let open = find_from(bare, '(', 0);
    assert(open == t.len() + ob);
    let has_scope = ob < br.len();
    if has_scope {
        assert(bare.take(open) =~= t + br.take(ob));
        assert(ends_with_char(bare, ')') == ends_with_char(br, ')'));
        if ends_with_char(br, ')') {
            assert(br[ob] == '(');
            assert(bare.subrange(open + 1, bare.len() - 1) =~= br.subrange(ob + 1, br.len() - 1));
        }
    }
    if kr < r.len() {
        assert(s.skip(colon + 1) =~= r.skip(kr + 1));
    }
}

} // verus!
