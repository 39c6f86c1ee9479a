//! The human-readable report, optionally coloured with ANSI escapes.
use owo_colors::{OwoColorize, Stream};
use vstd::prelude::*;
use vstd::string::*;

use crate::report::{
    author_view, authors_view, is_summary_of, pairs_view, type_items, AuthorStats, CommitReport,
    CommitReportView, FullReport, Summary,
};
use crate::tally::count_key;
use crate::text::{
    chars_of, contains_seq, decimal, match_at, push_char, push_decimal, same_chars, seq_lt,
    string_of,
};
use crate::validator::{violations_view, ResultView, Severity, Violation, ViolationView};

verus! {

/// The styles the report uses.
#[derive(Clone, Copy, PartialEq, Eq, Structural)]
pub enum Style {
    Bold,
    Dimmed,
    Green,
    Yellow,
    Red,
}

/// The escape that starts `style`.
pub open spec fn style_start(style: Style) -> Seq<char> {
    match style {
        Style::Bold => "\u{1b}[1m"@,
        Style::Dimmed => "\u{1b}[2m"@,
        Style::Green => "\u{1b}[32m"@,
        Style::Yellow => "\u{1b}[33m"@,
        Style::Red => "\u{1b}[31m"@,
    }
}

/// The escape that ends `style`.
pub open spec fn style_end(style: Style) -> Seq<char> {
    match style {
        Style::Bold | Style::Dimmed => "\u{1b}[0m"@,
        _ => "\u{1b}[39m"@,
    }
}

/// `t` in `style` when colour is on, else `t` as it is.
pub open spec fn paint(style: Style, color: bool, t: Seq<char>) -> Seq<char> {
    if color {
        style_start(style) + t + style_end(style)
    } else {
        t
    }
}

/// `OwoColorize::bold`, displayed.
#[verifier::external_body]
fn owo_bold(t: &str) -> (s: String)
    ensures
        s@ == style_start(Style::Bold) + t@ + style_end(Style::Bold),
{
    t.bold().to_string()
}

/// `OwoColorize::dimmed`, displayed.
#[verifier::external_body]
fn owo_dimmed(t: &str) -> (s: String)
    ensures
        s@ == style_start(Style::Dimmed) + t@ + style_end(Style::Dimmed),
{
    t.dimmed().to_string()
}

/// `OwoColorize::green`, displayed.
#[verifier::external_body]
fn owo_green(t: &str) -> (s: String)
    ensures
        s@ == style_start(Style::Green) + t@ + style_end(Style::Green),
{
    t.green().to_string()
}

/// `OwoColorize::yellow`, displayed.
#[verifier::external_body]
fn owo_yellow(t: &str) -> (s: String)
    ensures
        s@ == style_start(Style::Yellow) + t@ + style_end(Style::Yellow),
{
    t.yellow().to_string()
}

/// `OwoColorize::red`, displayed.
#[verifier::external_body]
fn owo_red(t: &str) -> (s: String)
    ensures
        s@ == style_start(Style::Red) + t@ + style_end(Style::Red),
{
    t.red().to_string()
}

/// `OwoColorize::if_supports_color` on standard output, applied to `"x"` with `bold`.
///
/// Which of the two comes back depends on the terminal, the environment and
/// owo-colors' override: only that it is one of them is stated.
#[verifier::external_body]
fn stdout_color_probe() -> (s: String)
    ensures
        s@ == "x"@ || s@ == style_start(Style::Bold) + "x"@ + style_end(Style::Bold),
{
    "x".if_supports_color(Stream::Stdout, <&str as OwoColorize>::bold).to_string()
}

/// Whether owo-colors colours what is written to standard output, read from what
/// `stdout_color_probe` gave: colour is on exactly when `"x"` came back styled.
fn stdout_supports_color(probe: &String) -> (r: bool)
    ensures
        r == (probe@ != "x"@),
{
    let plain = String::from_str("x");
    !(*probe == plain)
}

/// Appends `t`, painted in `style` when `color` is on.
fn push_painted(out: &mut String, style: Style, color: bool, t: &str)
    ensures
        final(out)@ == old(out)@ + paint(style, color, t@),
{
    if color {
        let s = match style {
            Style::Bold => owo_bold(t),
            Style::Dimmed => owo_dimmed(t),
            Style::Green => owo_green(t),
            Style::Yellow => owo_yellow(t),
            Style::Red => owo_red(t),
        };
        out.append(s.as_str());
    } else {
        out.append(t);
    }
}

/// `n` spaces.
pub open spec fn spaces(n: int) -> Seq<char> {
    Seq::new(if n > 0 { n as nat } else { 0 }, |i: int| ' ')
}

/// `t` padded with spaces on the right to `w` characters (`{:<w}`).
pub open spec fn pad_right(t: Seq<char>, w: nat) -> Seq<char> {
    t + spaces(w - t.len())
}

/// `t` padded with spaces on the left to `w` characters (`{:>w}`).
pub open spec fn pad_left(t: Seq<char>, w: nat) -> Seq<char> {
    spaces(w - t.len()) + t
}

fn push_spaces(out: &mut String, n: usize)
    ensures
        final(out)@ == old(out)@ + spaces(n as int),
{
    let mut i: usize = 0;
    while i < n
        invariant
            i <= n,
            out@ == old(out)@ + spaces(i as int),
        decreases n - i,
    {
        push_char(out, ' ');
        i += 1;
        assert(spaces(i as int) =~= spaces(i - 1).push(' '));
    }
}

fn push_pad_right(out: &mut String, t: &str, w: usize)
    ensures
        final(out)@ == old(out)@ + pad_right(t@, w as nat),
{
    let n = chars_of(t).len();
    out.append(t);
    let fill = if n < w {
        w - n
    } else {
        0
    };
    push_spaces(out, fill);
    assert(spaces(fill as int) =~= spaces(w - t@.len()));
}

fn push_pad_left(out: &mut String, t: &str, w: usize)
    ensures
        final(out)@ == old(out)@ + pad_left(t@, w as nat),
{
    let n = chars_of(t).len();
    let fill = if n < w {
        w - n
    } else {
        0
    };
    push_spaces(out, fill);
    assert(spaces(fill as int) =~= spaces(w - t@.len()));
    out.append(t);
}

fn decimal_string(n: usize) -> (s: String)
    ensures
        s@ == decimal(n as nat),
{
    let mut s = String::new();
    push_decimal(&mut s, n);
    s
}

/// The mark shown before a commit of the given status.
pub open spec fn badge(status: Seq<char>, color: bool) -> Seq<char> {
    if status == "clean"@ {
        paint(Style::Green, color, "\u{2713}"@)
    } else if status == "warning"@ {
        paint(Style::Yellow, color, "!"@)
    } else if status == "error"@ {
        paint(Style::Red, color, "\u{2717}"@)
    } else if status == "skipped"@ {
        paint(Style::Dimmed, color, "\u{b7}"@)
    } else {
        "?"@
    }
}

/// One line per violation: its severity tag, code and message.
pub open spec fn violation_line(v: ViolationView, color: bool) -> Seq<char> {
    "      "@ + (if v.severity == Severity::Error {
        paint(Style::Red, color, "error"@)
    } else {
        paint(Style::Yellow, color, "warn "@)
    }) + " ["@ + v.code + "] "@ + v.message + "\n"@
}

pub open spec fn violation_lines(vs: Seq<ViolationView>, color: bool) -> Seq<char>
    decreases vs.len(),
{
    if vs.len() == 0 {
        Seq::empty()
    } else {
        violation_lines(vs.drop_last(), color) + violation_line(vs.last(), color)
    }
}

/// The first seven characters of a hash (all of it when shorter).
pub open spec fn short_sha(sha: Seq<char>) -> Seq<char> {
    if sha.len() < 7 {
        sha
    } else {
        sha.take(7)
    }
}

/// Errors and warnings are always listed; clean and skipped commits only when verbose.
pub open spec fn is_listed(status: Seq<char>, verbose: bool) -> bool {
    verbose || status == "error"@ || status == "warning"@
}

/// The lines for one commit: badge, short hash and subject, then its violations.
pub open spec fn commit_block(c: CommitReportView, verbose: bool, color: bool) -> Seq<char> {
    if is_listed(c.status, verbose) {
        "  "@ + badge(c.status, color) + " "@ + paint(Style::Dimmed, color, short_sha(c.sha)) + "  "@
            + c.subject + "\n"@ + violation_lines(c.violations, color)
    } else {
        Seq::empty()
    }
}

pub open spec fn commit_blocks(cs: Seq<CommitReportView>, verbose: bool, color: bool) -> Seq<char>
    decreases cs.len(),
{
    if cs.len() == 0 {
        Seq::empty()
    } else {
        commit_blocks(cs.drop_last(), verbose, color) + commit_block(cs.last(), verbose, color)
    }
}

pub open spec fn score_style(score: u8) -> Style {
    if score >= 90 {
        Style::Green
    } else if score >= 70 {
        Style::Yellow
    } else {
        Style::Red
    }
}

/// `label` followed by `n`, the number painted in `style`.
pub open spec fn labeled(label: Seq<char>, style: Style, color: bool, n: nat) -> Seq<char> {
    label + paint(style, color, decimal(n))
}

/// The line of totals by status.
pub open spec fn counts_line(s: Summary, color: bool) -> Seq<char> {
    "  total: "@ + decimal(s.total as nat) + labeled("  clean: "@, Style::Green, color, s.clean as nat)
        + labeled("  warnings: "@, Style::Yellow, color, s.warnings as nat) + labeled(
        "  errors: "@,
        Style::Red,
        color,
        s.errors as nat,
    ) + labeled("  skipped: "@, Style::Dimmed, color, s.skipped as nat) + "\n"@
}

/// The score line, green from 90, yellow from 70, red below.
pub open spec fn score_line(s: Summary, color: bool) -> Seq<char> {
    labeled("  score: "@, score_style(s.score), color, s.score as nat) + "/100\n"@
}

/// The summary section: totals by status and the score.
pub open spec fn summary_block(s: Summary, color: bool) -> Seq<char> {
    "\n"@ + paint(Style::Bold, color, "summary"@) + "\n"@ + counts_line(s, color) + score_line(s, color)
}

pub open spec fn type_line(t: (Seq<char>, usize)) -> Seq<char> {
    "  "@ + pad_right(t.0, 10) + " "@ + decimal(t.1 as nat) + "\n"@
}

pub open spec fn type_lines(ts: Seq<(Seq<char>, usize)>) -> Seq<char>
    decreases ts.len(),
{
    if ts.len() == 0 {
        Seq::empty()
    } else {
        type_lines(ts.drop_last()) + type_line(ts.last())
    }
}

/// The section listing commits per type (absent when there are none).
pub open spec fn types_block(ts: Seq<(Seq<char>, usize)>, color: bool) -> Seq<char> {
    if ts.len() == 0 {
        Seq::empty()
    } else {
        "\n"@ + paint(Style::Bold, color, "types"@) + "\n"@ + type_lines(ts)
    }
}

pub open spec fn author_header() -> Seq<char> {
    "  "@ + pad_right("author"@, 24) + " "@ + pad_left("total"@, 6) + " "@ + pad_left("clean"@, 6)
        + " "@ + pad_left("errors"@, 6) + " "@ + pad_left("score"@, 6) + "\n"@
}

pub open spec fn author_line(a: (Seq<char>, usize, usize, usize, u8)) -> Seq<char> {
    "  "@ + pad_right(a.0, 24) + " "@ + pad_left(decimal(a.1 as nat), 6) + " "@ + pad_left(
        decimal(a.2 as nat),
        6,
    ) + " "@ + pad_left(decimal(a.3 as nat), 6) + " "@ + pad_left(decimal(a.4 as nat), 5)
        + "/100\n"@
}

pub open spec fn author_lines(v: Seq<(Seq<char>, usize, usize, usize, u8)>) -> Seq<char>
    decreases v.len(),
{
    if v.len() == 0 {
        Seq::empty()
    } else {
        author_lines(v.drop_last()) + author_line(v.last())
    }
}

/// The per-author section, when the report has one.
pub open spec fn authors_block(authors: Option<Vec<AuthorStats>>, color: bool) -> Seq<char> {
    match authors {
        None => Seq::empty(),
        Some(a) => "\n"@ + paint(Style::Bold, color, "authors"@) + "\n"@ + author_header()
            + author_lines(authors_view(a@)),
    }
}

pub open spec fn reports_view(cs: Seq<CommitReport>) -> Seq<CommitReportView> {
    cs.map_values(|c: CommitReport| c@)
}

/// The whole human-readable report.
pub open spec fn spec_render(r: FullReport, verbose: bool, color: bool) -> Seq<char> {
    if r.commits@.len() == 0 {
        paint(Style::Dimmed, color, "no commits to scan"@) + "\n"@
    } else {
        paint(Style::Bold, color, "kagu scan"@) + "\n"@ + "\n"@ + commit_blocks(
            reports_view(r.commits@),
            verbose,
            color,
        ) + summary_block(r.summary, color) + types_block(pairs_view(r.summary.by_type@), color)
            + authors_block(r.authors, color)
    }
}

fn push_violation_lines(out: &mut String, vs: &Vec<Violation>, color: bool)
    ensures
        final(out)@ == old(out)@ + violation_lines(violations_view(vs@), color),
{
    let ghost vv = violations_view(vs@);
    let mut i: usize = 0;
    while i < vs.len()
        invariant
            i <= vs.len(),
            vv == violations_view(vs@),
            out@ == old(out)@ + violation_lines(vv.take(i as int), color),
        decreases vs.len() - i,
    {
        let v = &vs[i];
        let ghost before = out@;
        out.append("      ");
        if v.is_error() {
            push_painted(out, Style::Red, color, "error");
        } else {
            push_painted(out, Style::Yellow, color, "warn ");
        }
        out.append(" [");
        out.append(v.code.as_str());
        out.append("] ");
        out.append(v.message.as_str());
        out.append("\n");
        proof {
            assert(vv.take(i + 1).drop_last() =~= vv.take(i as int));
            assert(vv[i as int] == v@);
            assert(out@ =~= before + violation_line(v@, color));
        }
        i += 1;
    }
    assert(vv.take(vs.len() as int) =~= vv);
}

fn push_badge(out: &mut String, status: &str, color: bool)
    ensures
        final(out)@ == old(out)@ + badge(status@, color),
{
    let s = chars_of(status);
    if same_chars(&s, &chars_of("clean")) {
        push_painted(out, Style::Green, color, "\u{2713}");
    } else if same_chars(&s, &chars_of("warning")) {
        push_painted(out, Style::Yellow, color, "!");
    } else if same_chars(&s, &chars_of("error")) {
        push_painted(out, Style::Red, color, "\u{2717}");
    } else if same_chars(&s, &chars_of("skipped")) {
        push_painted(out, Style::Dimmed, color, "\u{b7}");
    } else {
        out.append("?");
    }
}

fn listed(status: &str, verbose: bool) -> (r: bool)
    ensures
        r == is_listed(status@, verbose),
{
    let s = chars_of(status);
    verbose || same_chars(&s, &chars_of("error")) || same_chars(&s, &chars_of("warning"))
}

fn push_commit_block(out: &mut String, c: &CommitReport, verbose: bool, color: bool)
    ensures
        final(out)@ == old(out)@ + commit_block(c@, verbose, color),
{
    if !listed(c.status, verbose) {
        assert(old(out)@ + commit_block(c@, verbose, color) =~= old(out)@);
        return;
    }
    let ghost before = out@;
    out.append("  ");
    push_badge(out, c.status, color);
    out.append(" ");
    let sha = chars_of(c.sha.as_str());
    let n = if sha.len() < 7 {
        sha.len()
    } else {
        7
    };
    let short = string_of(&sha, 0, n);
    assert(short@ =~= short_sha(c.sha@));
    push_painted(out, Style::Dimmed, color, short.as_str());
    out.append("  ");
    out.append(c.subject.as_str());
    out.append("\n");
    push_violation_lines(out, &c.violations, color);
    assert(out@ =~= before + commit_block(c@, verbose, color));
}

fn push_labeled(out: &mut String, label: &str, style: Style, color: bool, n: usize)
    ensures
        final(out)@ == old(out)@ + labeled(label@, style, color, n as nat),
{
    let ghost before = out@;
    out.append(label);
    let d = decimal_string(n);
    push_painted(out, style, color, d.as_str());
    assert(out@ =~= before + labeled(label@, style, color, n as nat));
}

fn push_counts_line(out: &mut String, s: &Summary, color: bool)
    ensures
        final(out)@ == old(out)@ + counts_line(*s, color),
{
    let ghost before = out@;
    out.append("  total: ");
    push_decimal(out, s.total);
    push_labeled(out, "  clean: ", Style::Green, color, s.clean);
    push_labeled(out, "  warnings: ", Style::Yellow, color, s.warnings);
    push_labeled(out, "  errors: ", Style::Red, color, s.errors);
    push_labeled(out, "  skipped: ", Style::Dimmed, color, s.skipped);
    out.append("\n");
    assert(out@ =~= before + counts_line(*s, color));
}

fn push_score_line(out: &mut String, s: &Summary, color: bool)
    ensures
        final(out)@ == old(out)@ + score_line(*s, color),
{
    let ghost before = out@;
    let style = if s.score >= 90 {
        Style::Green
    } else if s.score >= 70 {
        Style::Yellow
    } else {
        Style::Red
    };
    push_labeled(out, "  score: ", style, color, s.score as usize);
    out.append("/100\n");
    assert(out@ =~= before + score_line(*s, color));
}

fn push_summary(out: &mut String, s: &Summary, color: bool)
    ensures
        final(out)@ == old(out)@ + summary_block(*s, color),
{
    let ghost before = out@;
    out.append("\n");
    push_painted(out, Style::Bold, color, "summary");
    out.append("\n");
    push_counts_line(out, s, color);
    push_score_line(out, s, color);
    assert(out@ =~= before + summary_block(*s, color));
}

fn push_types(out: &mut String, ts: &Vec<(String, usize)>, color: bool)
    ensures
        final(out)@ == old(out)@ + types_block(pairs_view(ts@), color),
{
    let ghost tv = pairs_view(ts@);
    if ts.len() == 0 {
        assert(old(out)@ + types_block(tv, color) =~= old(out)@);
        return;
    }
    let ghost before = out@;
    out.append("\n");
    push_painted(out, Style::Bold, color, "types");
    out.append("\n");
    let ghost head = out@;
    let mut i: usize = 0;
    while i < ts.len()
        invariant
            i <= ts.len(),
            tv == pairs_view(ts@),
            out@ == head + type_lines(tv.take(i as int)),
        decreases ts.len() - i,
    {
        let ghost b = out@;
        out.append("  ");
        push_pad_right(out, ts[i].0.as_str(), 10);
        out.append(" ");
        push_decimal(out, ts[i].1);
        out.append("\n");
        proof {
            assert(tv.take(i + 1).drop_last() =~= tv.take(i as int));
            assert(tv[i as int] == (ts@[i as int].0@, ts@[i as int].1));
            assert(out@ =~= b + type_line(tv[i as int]));
        }
        i += 1;
    }
    assert(tv.take(ts.len() as int) =~= tv);
    assert(out@ =~= before + types_block(tv, color));
}

fn push_author_header(out: &mut String)
    ensures
        final(out)@ == old(out)@ + author_header(),
{
    let ghost before = out@;
    out.append("  ");
    push_pad_right(out, "author", 24);
    out.append(" ");
    push_pad_left(out, "total", 6);
    out.append(" ");
    push_pad_left(out, "clean", 6);
    out.append(" ");
    push_pad_left(out, "errors", 6);
    out.append(" ");
    push_pad_left(out, "score", 6);
    out.append("\n");
    assert(out@ =~= before + author_header());
}

fn push_author_line(out: &mut String, a: &AuthorStats)
    ensures
        final(out)@ == old(out)@ + author_line(author_view(*a)),
{
    let ghost before = out@;
    out.append("  ");
    push_pad_right(out, a.author.as_str(), 24);
    out.append(" ");
    push_pad_left(out, decimal_string(a.total).as_str(), 6);
    out.append(" ");
    push_pad_left(out, decimal_string(a.clean).as_str(), 6);
    out.append(" ");
    push_pad_left(out, decimal_string(a.errors).as_str(), 6);
    out.append(" ");
    push_pad_left(out, decimal_string(a.score as usize).as_str(), 5);
    out.append("/100\n");
    assert(out@ =~= before + author_line(author_view(*a)));
}

fn push_authors(out: &mut String, authors: &Option<Vec<AuthorStats>>, color: bool)
    ensures
        final(out)@ == old(out)@ + authors_block(*authors, color),
{
    match authors {
        None => {
            assert(old(out)@ + authors_block(*authors, color) =~= old(out)@);
        },
        Some(v) => {
            let ghost av = authors_view(v@);
            let ghost before = out@;
            out.append("\n");
            push_painted(out, Style::Bold, color, "authors");
            out.append("\n");
            push_author_header(out);
            let ghost head = out@;
            let mut i: usize = 0;
            while i < v.len()
                invariant
                    i <= v.len(),
                    av == authors_view(v@),
                    out@ == head + author_lines(av.take(i as int)),
                decreases v.len() - i,
            {
                push_author_line(out, &v[i]);
                proof {
                    assert(av.take(i + 1).drop_last() =~= av.take(i as int));
                    assert(av[i as int] == author_view(v@[i as int]));
                }
                i += 1;
            }
            assert(av.take(v.len() as int) =~= av);
            assert(out@ =~= before + authors_block(*authors, color));
        },
    }
}

/// The human-readable report, coloured when `color` is on.
pub fn render_with(report: &FullReport, verbose: bool, color: bool) -> (out: String)
    ensures
        out@ == spec_render(*report, verbose, color),
{
    let mut out = String::new();
    if report.commits.len() == 0 {
        push_painted(&mut out, Style::Dimmed, color, "no commits to scan");
        out.append("\n");
        return out;
    }
    push_painted(&mut out, Style::Bold, color, "kagu scan");
    out.append("\n");
    out.append("\n");
    let ghost head = out@;
    let ghost cv = reports_view(report.commits@);
    let mut i: usize = 0;
    while i < report.commits.len()
        invariant
            i <= report.commits.len(),
            cv == reports_view(report.commits@),
            out@ == head + commit_blocks(cv.take(i as int), verbose, color),
        decreases report.commits.len() - i,
    {
        push_commit_block(&mut out, &report.commits[i], verbose, color);
        proof {
            assert(cv.take(i + 1).drop_last() =~= cv.take(i as int));
            assert(cv[i as int] == report.commits@[i as int]@);
        }
        i += 1;
    }
    assert(cv.take(report.commits.len() as int) =~= cv);
    push_summary(&mut out, &report.summary, color);
    push_types(&mut out, &report.summary.by_type, color);
    push_authors(&mut out, &report.authors, color);
    out
}

/// The human-readable report, coloured when standard output supports colour.
pub fn render_pretty(report: &FullReport, verbose: bool) -> (out: String)
    ensures
        out@ == spec_render(*report, verbose, false) || out@ == spec_render(*report, verbose, true),
{
    let probe = stdout_color_probe();
    let color = stdout_supports_color(&probe);
    render_with(report, verbose, color)
}

/// The mark before a listed commit when colour is off.
pub open spec fn plain_badge(status: Seq<char>) -> Seq<char> {
    if status == "clean"@ {
        "\u{2713}"@
    } else if status == "warning"@ {
        "!"@
    } else if status == "error"@ {
        "\u{2717}"@
    } else if status == "skipped"@ {
        "\u{b7}"@
    } else {
        "?"@
    }
}

/// A violation's line when colour is off.
pub open spec fn plain_violation_line(v: ViolationView) -> Seq<char> {
    "      "@ + (if v.severity == Severity::Error {
        "error"@
    } else {
        "warn "@
    }) + " ["@ + v.code + "] "@ + v.message + "\n"@
}

/// The summary section when colour is off.
pub open spec fn plain_summary(s: Summary) -> Seq<char> {
    "\nsummary\n"@ + "  total: "@ + decimal(s.total as nat) + "  clean: "@ + decimal(s.clean as nat)
        + "  warnings: "@ + decimal(s.warnings as nat) + "  errors: "@ + decimal(s.errors as nat)
        + "  skipped: "@ + decimal(s.skipped as nat) + "\n"@ + "  score: "@ + decimal(s.score as nat)
        + "/100\n"@
}

/// The section of commits per type when colour is off: none without types.
pub open spec fn plain_types(ts: Seq<(Seq<char>, usize)>) -> Seq<char> {
    if ts.len() == 0 {
        Seq::empty()
    } else {
        "\ntypes\n"@ + type_lines(ts)
    }
}

/// The per-author section when colour is off: none without a breakdown.
pub open spec fn plain_authors(authors: Option<Vec<AuthorStats>>) -> Seq<char> {
    match authors {
        None => Seq::empty(),
        Some(a) => "\nauthors\n"@ + author_header() + author_lines(authors_view(a@)),
    }
}

/// Without colour, a listed commit is shown as two spaces, its badge, a space, its
/// short hash, two spaces and its subject, then one line per violation; a commit that
/// is not listed shows nothing.
pub proof fn lemma_plain_commit_block(c: CommitReportView, verbose: bool)
    ensures
        commit_block(c, verbose, false) == if is_listed(c.status, verbose) {
            "  "@ + plain_badge(c.status) + " "@ + short_sha(c.sha) + "  "@ + c.subject + "\n"@
                + violation_lines(c.violations, false)
        } else {
            Seq::empty()
        },
        forall|i: int|
            0 <= i < c.violations.len() ==> #[trigger] violation_line(c.violations[i], false)
                == plain_violation_line(c.violations[i]),
{
}

/// Without colour, a report of at least one commit is the title, the blocks of the
/// commits in order, the summary, the types section and the authors section, and
/// nothing else.
pub proof fn lemma_plain_layout(r: FullReport, verbose: bool)
    requires
        r.commits@.len() > 0,
    ensures
        spec_render(r, verbose, false) == "kagu scan\n\n"@ + commit_blocks(
            reports_view(r.commits@),
            verbose,
            false,
        ) + plain_summary(r.summary) + plain_types(pairs_view(r.summary.by_type@)) + plain_authors(
            r.authors,
        ),
{
    reveal_strlit("kagu scan\n\n");
    reveal_strlit("kagu scan");
    reveal_strlit("\n");
    reveal_strlit("\nsummary\n");
    reveal_strlit("summary");
    reveal_strlit("\ntypes\n");
    reveal_strlit("types");
    reveal_strlit("\nauthors\n");
    reveal_strlit("authors");
    let s = r.summary;
    assert(summary_block(s, false) =~= plain_summary(s));
    assert(types_block(pairs_view(s.by_type@), false) =~= plain_types(pairs_view(s.by_type@)));
    assert(authors_block(r.authors, false) =~= plain_authors(r.authors));
    assert(spec_render(r, verbose, false) =~= "kagu scan\n\n"@ + commit_blocks(
        reports_view(r.commits@),
        verbose,
        false,
    ) + plain_summary(s) + plain_types(pairs_view(s.by_type@)) + plain_authors(r.authors));
}

/// An occurrence of `p` in `s` is one in any text that holds `s`.
proof fn lemma_match_within(x: Seq<char>, s: Seq<char>, y: Seq<char>, p: Seq<char>, k: int)
    requires
        match_at(s, p, k),
    ensures
        match_at(x + s + y, p, x.len() + k),
{
    assert((x + s + y).subrange(x.len() + k, x.len() + k + p.len()) =~= s.subrange(k, k + p.len()));
}

/// The block of every commit stands in the commit blocks.
proof fn lemma_block_in_blocks(cs: Seq<CommitReportView>, verbose: bool, color: bool, i: int)
    requires
        0 <= i < cs.len(),
    ensures
        contains_seq(commit_blocks(cs, verbose, color), commit_block(cs[i], verbose, color)),
    decreases cs.len(),
{
    let b = commit_block(cs[i], verbose, color);
    let front = commit_blocks(cs.drop_last(), verbose, color);
    if i == cs.len() - 1 {
        assert(b.subrange(0, b.len() as int) =~= b);
        lemma_match_within(front, b, Seq::empty(), b, 0);
        assert(front + b + Seq::<char>::empty() =~= front + b);
        assert(match_at(commit_blocks(cs, verbose, color), b, front.len() as int));
    } else {
        lemma_block_in_blocks(cs.drop_last(), verbose, color, i);
        assert(cs.drop_last()[i] == cs[i]);
        let k = choose|k: int| match_at(front, b, k);
        lemma_match_within(Seq::empty(), front, commit_block(cs.last(), verbose, color), b, k);
        assert(Seq::<char>::empty() + front + commit_block(cs.last(), verbose, color) =~= commit_blocks(
            cs,
            verbose,
            color,
        ));
        assert(match_at(commit_blocks(cs, verbose, color), b, k));
    }
}

/// The subject of a commit with an error stands in any text that holds the commit
/// blocks drawn without colour.
proof fn lemma_error_subject_shown(
    title: Seq<char>,
    cs: Seq<CommitReportView>,
    rest: Seq<char>,
    verbose: bool,
    i: int,
)
    requires
        0 <= i < cs.len(),
        cs[i].status == "error"@,
    ensures
        contains_seq(title + commit_blocks(cs, verbose, false) + rest, cs[i].subject),
{
    let c = cs[i];
    let blocks = commit_blocks(cs, verbose, false);
    let out = title + blocks + rest;
    lemma_plain_commit_block(c, verbose);
    let b = commit_block(c, verbose, false);
    let lead = "  "@ + plain_badge(c.status) + " "@ + short_sha(c.sha) + "  "@;
    let after = "\n"@ + violation_lines(c.violations, false);
    assert(b =~= lead + c.subject + after);
    lemma_block_in_blocks(cs, verbose, false, i);
    let k = choose|k: int| match_at(blocks, b, k);
    lemma_match_within(title, blocks, rest, b, k);
    let at = title.len() + k;
    assert(match_at(out, b, at));
    let l = lead.len() as int;
    let n = c.subject.len() as int;
    assert(out.subrange(at + l, at + l + n) =~= out.subrange(at, at + b.len()).subrange(l, l + n));
    assert(b.subrange(l, l + n) =~= c.subject);
    assert(match_at(out, c.subject, at + l));
}

/// The summary, and the subject of every commit with an error, stand in a text made
/// of a title, the commit blocks without colour, the summary and two sections more.
proof fn lemma_parts_shown(
    title: Seq<char>,
    cs: Seq<CommitReportView>,
    sum: Seq<char>,
    t1: Seq<char>,
    t2: Seq<char>,
    verbose: bool,
    i: int,
)
    requires
        0 <= i < cs.len(),
    ensures
        contains_seq(title + commit_blocks(cs, verbose, false) + sum + t1 + t2, sum),
        cs[i].status == "error"@ ==> contains_seq(
            title + commit_blocks(cs, verbose, false) + sum + t1 + t2,
            cs[i].subject,
        ),
{
    let blocks = commit_blocks(cs, verbose, false);
    let out = title + blocks + sum + t1 + t2;
    assert(out =~= (title + blocks) + sum + (t1 + t2));
    assert(sum.subrange(0, sum.len() as int) =~= sum);
    lemma_match_within(title + blocks, sum, t1 + t2, sum, 0);
    if cs[i].status == "error"@ {
        lemma_error_subject_shown(title, cs, sum + t1 + t2, verbose, i);
        assert(title + blocks + (sum + t1 + t2) =~= out);
    }
}

/// Without colour, a report of at least one commit shows the summary with every count
/// and the score, and the subject of every commit with an error.
pub proof fn lemma_plain_report_shows(r: FullReport, verbose: bool, i: int)
    requires
        r.commits@.len() > 0,
        0 <= i < r.commits@.len(),
    ensures
        contains_seq(spec_render(r, verbose, false), plain_summary(r.summary)),
        r.commits@[i]@.status == "error"@ ==> contains_seq(
            spec_render(r, verbose, false),
            r.commits@[i]@.subject,
        ),
{
    lemma_plain_layout(r, verbose);
    let cs = reports_view(r.commits@);
    assert(cs[i] == r.commits@[i]@);
    lemma_parts_shown(
        "kagu scan\n\n"@,
        cs,
        plain_summary(r.summary),
        plain_types(pairs_view(r.summary.by_type@)),
        plain_authors(r.authors),
        verbose,
        i,
    );
}

/// Without colour, a report of at least one commit whose summary counts the results
/// `rs` (as `build` makes it) shows after the score line one line per commit type in
/// strictly increasing order of type, each with the number of parsed commits of that
/// type, under a `types` heading that is there exactly when some commit parsed; then
/// the authors section; and nothing else.
pub proof fn lemma_plain_types_in_order(r: FullReport, verbose: bool, rs: Seq<ResultView>)
    requires
        r.commits@.len() > 0,
        is_summary_of(r.summary, rs),
    ensures
        ({
            let ts = pairs_view(r.summary.by_type@);
            &&& spec_render(r, verbose, false) == "kagu scan\n\n"@ + commit_blocks(
                reports_view(r.commits@),
                verbose,
                false,
            ) + plain_summary(r.summary) + plain_types(ts) + plain_authors(r.authors)
            &&& plain_types(ts) == if ts.len() == 0 {
                Seq::empty()
            } else {
                "\ntypes\n"@ + type_lines(ts)
            }
            &&& forall|i: int, j: int| 0 <= i < j < ts.len() ==> seq_lt(#[trigger] ts[i].0, #[trigger] ts[j].0)
            &&& forall|i: int|
                0 <= i < ts.len() ==> (#[trigger] ts[i]).1 == count_key(type_items(rs), ts[i].0)
            &&& (ts.len() == 0 <==> forall|k: Seq<char>| count_key(type_items(rs), k) == 0)
        }),
{
    lemma_plain_layout(r, verbose);
    let ts = pairs_view(r.summary.by_type@);
    if ts.len() > 0 {
        assert(count_key(type_items(rs), ts[0].0) > 0);
    }
}

/// The violation lines of a sequence are one line per violation, in order: the
/// lines of two sequences one after the other are those of the first followed by
/// those of the second, and a single violation gives exactly its own line.
pub proof fn lemma_violation_lines_concat(
    vs: Seq<ViolationView>,
    ws: Seq<ViolationView>,
    v: ViolationView,
    color: bool,
)
    ensures
        violation_lines(vs + ws, color) == violation_lines(vs, color) + violation_lines(ws, color),
        violation_lines(seq![v], color) == violation_line(v, color),
        violation_lines(vs.push(v), color) == violation_lines(vs, color) + violation_line(v, color),
    decreases ws.len(),
{
    let one = seq![v];
    assert(one.drop_last() =~= Seq::<ViolationView>::empty());
    assert(one.last() == v);
    assert(violation_lines(one.drop_last(), color) =~= Seq::<char>::empty());
    assert(Seq::<char>::empty() + violation_line(v, color) =~= violation_line(v, color));
    assert(vs.push(v).drop_last() =~= vs);
    if ws.len() == 0 {
        assert(vs + ws =~= vs);
        assert(violation_lines(vs, color) + Seq::<char>::empty() =~= violation_lines(vs, color));
    } else {
        lemma_violation_lines_concat(vs, ws.drop_last(), v, color);
        assert((vs + ws).drop_last() =~= vs + ws.drop_last());
        assert((vs + ws).last() == ws.last());
        assert(violation_lines(vs, color) + violation_lines(ws.drop_last(), color) + violation_line(
            ws.last(),
            color,
        ) =~= violation_lines(vs, color) + (violation_lines(ws.drop_last(), color) + violation_line(
            ws.last(),
            color,
        )));
    }
}

} // verus!
