//! Turning validation results into a report: per-commit status, totals, a score,
//! counts by commit type, and an optional per-author breakdown.
use vstd::prelude::*;

use crate::scanner::{records_view, CommitRecord, RecordView};
use crate::tally::{
    count_flagged, count_key, entry_view, is_tally_of, lemma_counts_bounded, tally_add,
    tally_view, Entry,
};
use crate::text::{lemma_seq_lt_order, seq_lt};
use crate::validator::{
    has_error, violations_view, ResultView, ValidationResult, Violation, ViolationView,
};

verus! {

#[derive(Debug)]
pub struct CommitReport {
    pub sha: String,
    pub author: String,
    pub subject: String,
    pub status: &'static str,
    pub violations: Vec<Violation>,
}

/// What a `CommitReport` holds, as character sequences.
pub struct CommitReportView {
    pub sha: Seq<char>,
    pub author: Seq<char>,
    pub subject: Seq<char>,
    pub status: Seq<char>,
    pub violations: Seq<ViolationView>,
}

impl View for CommitReport {
    type V = CommitReportView;

    open spec fn view(&self) -> CommitReportView {
        CommitReportView {
            sha: self.sha@,
            author: self.author@,
            subject: self.subject@,
            status: self.status@,
            violations: violations_view(self.violations@),
        }
    }
}

#[derive(Debug)]
pub struct Summary {
    pub total: usize,
    pub clean: usize,
    pub warnings: usize,
    pub errors: usize,
    pub skipped: usize,
    pub score: u8,
    /// Commits per type, in increasing order of type.
    pub by_type: Vec<(String, usize)>,
}

#[derive(Debug)]
pub struct AuthorStats {
    pub author: String,
    pub total: usize,
    pub clean: usize,
    pub errors: usize,
    pub score: u8,
}

#[derive(Debug)]
pub struct FullReport {
    pub commits: Vec<CommitReport>,
    pub summary: Summary,
    pub authors: Option<Vec<AuthorStats>>,
}

pub open spec fn results_view(rs: Seq<ValidationResult>) -> Seq<ResultView> {
    rs.map_values(|r: ValidationResult| r@)
}

/// A commit's status: skipped, error (some violation is an error), warning
/// (violations, none an error) or clean.
pub open spec fn status_of(r: ResultView) -> Seq<char> {
    if r.skipped {
        "skipped"@
    } else if has_error(r.violations) {
        "error"@
    } else if r.violations.len() > 0 {
        "warning"@
    } else {
        "clean"@
    }
}

pub open spec fn commit_report_of(c: RecordView, r: ResultView) -> CommitReportView {
    CommitReportView {
        sha: c.sha,
        author: c.author,
        subject: c.subject,
        status: status_of(r),
        violations: r.violations,
    }
}

/// How many of `rs` satisfy `f`.
pub open spec fn count_if(rs: Seq<ResultView>, f: spec_fn(ResultView) -> bool) -> nat
    decreases rs.len(),
{
    if rs.len() == 0 {
        0
    } else {
        count_if(rs.drop_last(), f) + if f(rs.last()) {
            1nat
        } else {
            0nat
        }
    }
}

pub open spec fn is_skipped(r: ResultView) -> bool {
    r.skipped
}

/// Counted and without errors: warnings still count as clean.
pub open spec fn is_clean(r: ResultView) -> bool {
    !r.skipped && !has_error(r.violations)
}

pub open spec fn is_failed(r: ResultView) -> bool {
    !r.skipped && has_error(r.violations)
}

pub open spec fn is_warned(r: ResultView) -> bool {
    !r.skipped && !has_error(r.violations) && r.violations.len() > 0
}

/// The parsed types of `rs`, in order.
pub open spec fn type_items(rs: Seq<ResultView>) -> Seq<(Seq<char>, bool)>
    decreases rs.len(),
{
    if rs.len() == 0 {
        Seq::empty()
    } else {
        type_items(rs.drop_last()) + match rs.last().parsed {
            Some(p) => seq![(p.commit_type, false)],
            None => Seq::empty(),
        }
    }
}

/// The authors of the commits that were not skipped, each flagged when the commit
/// has an error.
pub open spec fn author_items(cs: Seq<RecordView>, rs: Seq<ResultView>) -> Seq<(Seq<char>, bool)>
    decreases rs.len(),
{
    if rs.len() == 0 || cs.len() == 0 {
        Seq::empty()
    } else {
        author_items(cs.drop_last(), rs.drop_last()) + if rs.last().skipped {
            Seq::empty()
        } else {
            seq![(cs.last().author, has_error(rs.last().violations))]
        }
    }
}

/// `pairs` counts `items` by key: one pair per key that occurs, in strictly
/// increasing key order.
pub open spec fn is_count_of(pairs: Seq<(Seq<char>, usize)>, items: Seq<(Seq<char>, bool)>) -> bool {
    &&& forall|i: int, j: int|
        0 <= i < j < pairs.len() ==> seq_lt(#[trigger] pairs[i].0, #[trigger] pairs[j].0)
    &&& forall|i: int|
        0 <= i < pairs.len() ==> (#[trigger] pairs[i]).1 == count_key(items, pairs[i].0)
            && pairs[i].1 > 0
    &&& forall|k: Seq<char>| #[trigger]
        count_key(items, k) > 0 ==> exists|i: int| 0 <= i < pairs.len() && pairs[i].0 == k
}

pub open spec fn pairs_view(v: Seq<(String, usize)>) -> Seq<(Seq<char>, usize)> {
    v.map_values(|e: (String, usize)| (e.0@, e.1))
}

/// What an `AuthorStats` holds: author, total, clean, errors, score.
pub open spec fn author_view(a: AuthorStats) -> (Seq<char>, usize, usize, usize, u8) {
    (a.author@, a.total, a.clean, a.errors, a.score)
}

pub open spec fn authors_view(v: Seq<AuthorStats>) -> Seq<(Seq<char>, usize, usize, usize, u8)> {
    v.map_values(|a: AuthorStats| author_view(a))
}

/// Authors are listed by decreasing number of commits, ties by author.
pub open spec fn ranks_before(a: (Seq<char>, usize, usize, usize, u8), b: (
    Seq<char>,
    usize,
    usize,
    usize,
    u8,
)) -> bool {
    a.1 > b.1 || (a.1 == b.1 && seq_lt(a.0, b.0))
}

/// The whole percent of `part` in `whole`, rounded down (`whole > 0`).
pub open spec fn percent_of(part: nat, whole: nat) -> nat {
    100 * part / whole
}

/// The percent of `part` in `whole`, rounded to the nearest whole number, halves
/// up (`whole > 0`).
pub open spec fn rounded_percent_of(part: nat, whole: nat) -> nat {
    (200 * part + whole) / (2 * whole)
}

/// `v` is the per-author breakdown of `items`: one row per author, ranked, with the
/// author's commits, error commits, the rest as clean, and the percent of clean
/// commits, rounded to the nearest, as the score.
pub open spec fn is_author_breakdown(
    v: Seq<(Seq<char>, usize, usize, usize, u8)>,
    items: Seq<(Seq<char>, bool)>,
) -> bool {
    &&& forall|i: int, j: int| 0 <= i < j < v.len() ==> ranks_before(#[trigger] v[i], #[trigger] v[j])
    &&& forall|i: int|
        0 <= i < v.len() ==> {
            &&& (#[trigger] v[i]).1 == count_key(items, v[i].0)
            &&& v[i].1 > 0
            &&& v[i].3 == count_flagged(items, v[i].0)
            &&& v[i].2 == v[i].1 - v[i].3
            &&& v[i].4 == rounded_percent_of(v[i].2 as nat, v[i].1 as nat)
        }
    &&& forall|k: Seq<char>| #[trigger]
        count_key(items, k) > 0 ==> exists|i: int| 0 <= i < v.len() && v[i].0 == k
}

fn copy_violations(v: &Vec<Violation>) -> (r: Vec<Violation>)
    ensures
        violations_view(r@) == violations_view(v@),
{
    let mut r: Vec<Violation> = Vec::new();
    let mut i: usize = 0;
    while i < v.len()
        invariant
            i <= v.len(),
            r@.len() == i,
            violations_view(r@) == violations_view(v@).take(i as int),
        decreases v.len() - i,
    {
        let d = v[i].duplicate();
        r.push(d);
        assert(r@[i as int]@ == v@[i as int]@);
        assert(violations_view(r@) =~= violations_view(v@).take(i + 1));
        i += 1;
    }
    assert(violations_view(v@).take(v.len() as int) =~= violations_view(v@));
    r
}

fn status_text(r: &ValidationResult) -> (s: &'static str)
    ensures
        s@ == status_of(r@),
{
    if r.skipped {
        "skipped"
    } else if !r.ok() {
        "error"
    } else if r.violations.len() > 0 {
        "warning"
    } else {
        "clean"
    }
}

fn commit_reports(commits: &[CommitRecord], results: &[ValidationResult]) -> (out: Vec<CommitReport>)
    requires
        commits.len() == results.len(),
    ensures
        out@.len() == commits.len(),
        forall|i: int|
            0 <= i < out@.len() ==> #[trigger] out@[i]@ == commit_report_of(
                commits@[i]@,
                results@[i]@,
            ),
{
    let mut out: Vec<CommitReport> = Vec::new();
    let mut i: usize = 0;
    while i < commits.len()
        invariant
            commits.len() == results.len(),
            i <= commits.len(),
            out@.len() == i,
            forall|j: int|
                0 <= j < i ==> #[trigger] out@[j]@ == commit_report_of(
                    commits@[j]@,
                    results@[j]@,
                ),
        decreases commits.len() - i,
    {
        let c = &commits[i];
        let r = &results[i];
        let report = CommitReport {
            sha: c.sha.clone(),
            author: c.author.clone(),
            subject: c.subject.clone(),
            status: status_text(r),
            violations: copy_violations(&r.violations),
        };
        out.push(report);
        i += 1;
    }
    out
}

proof fn lemma_count_step(rs: Seq<ResultView>, i: int, f: spec_fn(ResultView) -> bool)
    requires
        0 <= i < rs.len(),
    ensures
        count_if(rs.take(i + 1), f) == count_if(rs.take(i), f) + if f(rs[i]) {
            1nat
        } else {
            0nat
        },
{
    assert(rs.take(i + 1).drop_last() =~= rs.take(i));
}

/// Skipped, clean, warning and error counts, in that order.
fn status_counts(results: &[ValidationResult]) -> (r: (usize, usize, usize, usize))
    ensures
        r.0 == count_if(results_view(results@), |x: ResultView| is_skipped(x)),
        r.1 == count_if(results_view(results@), |x: ResultView| is_clean(x)),
        r.2 == count_if(results_view(results@), |x: ResultView| is_warned(x)),
        r.3 == count_if(results_view(results@), |x: ResultView| is_failed(x)),
        r.0 + r.1 + r.3 == results.len(),
        r.2 <= r.1,
{
    let ghost rs = results_view(results@);
    let ghost fs = |x: ResultView| is_skipped(x);
    let ghost fc = |x: ResultView| is_clean(x);
    let ghost fw = |x: ResultView| is_warned(x);
    let ghost fe = |x: ResultView| is_failed(x);
    let mut skipped: usize = 0;
    let mut clean: usize = 0;
    let mut warnings: usize = 0;
    let mut errors: usize = 0;
    let mut i: usize = 0;
    while i < results.len()
        invariant
            i <= results.len(),
            rs == results_view(results@),
            fs == (|x: ResultView| is_skipped(x)),
            fc == (|x: ResultView| is_clean(x)),
            fw == (|x: ResultView| is_warned(x)),
            fe == (|x: ResultView| is_failed(x)),
            skipped == count_if(rs.take(i as int), fs),
            clean == count_if(rs.take(i as int), fc),
            warnings == count_if(rs.take(i as int), fw),
            errors == count_if(rs.take(i as int), fe),
            skipped + clean + errors == i,
            warnings <= clean,
        decreases results.len() - i,
    {
        let r = &results[i];
        proof {
            lemma_count_step(rs, i as int, fs);
            lemma_count_step(rs, i as int, fc);
            lemma_count_step(rs, i as int, fw);
            lemma_count_step(rs, i as int, fe);
            assert(rs[i as int] == r@);
        }
        if r.skipped {
            skipped += 1;
        } else if !r.ok() {
            errors += 1;
        } else if r.violations.len() > 0 {
            warnings += 1;
            clean += 1;
        } else {
            clean += 1;
        }
        i += 1;
    }
    assert(rs.take(results.len() as int) =~= rs);
    (skipped, clean, warnings, errors)
}

/// Commits per parsed type, in increasing order of type.
fn type_counts(results: &[ValidationResult]) -> (out: Vec<(String, usize)>)
    ensures
        is_count_of(pairs_view(out@), type_items(results_view(results@))),
{
    let ghost rs = results_view(results@);
    let mut t: Vec<Entry> = Vec::new();
    let mut i: usize = 0;
    proof {
        lemma_type_items_len(rs.take(0));
    }
    while i < results.len()
        invariant
            i <= results.len(),
            rs == results_view(results@),
            is_tally_of(tally_view(t@), type_items(rs.take(i as int))),
        decreases results.len() - i,
    {
        let ghost before = type_items(rs.take(i as int));
        proof {
            assert(rs.take(i + 1).drop_last() =~= rs.take(i as int));
            lemma_type_items_len(rs.take(i as int));
        }
        assert(rs.take(i + 1).last() == results@[i as int]@);
        match &results[i].parsed {
            Some(p) => {
                tally_add(&mut t, &p.commit_type, false, Ghost(before));
                assert(type_items(rs.take(i + 1)) =~= before.push((p.commit_type@, false)));
            },
            None => {
                assert(type_items(rs.take(i + 1)) =~= before);
            },
        }
        i += 1;
    }
    assert(rs.take(results.len() as int) =~= rs);
    let ghost items = type_items(rs);
    let ghost tv = tally_view(t@);
    let mut out: Vec<(String, usize)> = Vec::new();
    let mut k: usize = 0;
    while k < t.len()
        invariant
            k <= t.len(),
            out@.len() == k,
            tv == tally_view(t@),
            pairs_view(out@) == tv.take(k as int).map_values(
                |e: (Seq<char>, usize, usize)| (e.0, e.1),
            ),
        decreases t.len() - k,
    {
        let ghost prev = pairs_view(out@);
        out.push((t[k].0.clone(), t[k].1));
        assert(pairs_view(out@) =~= prev.push((tv[k as int].0, tv[k as int].1)));
        assert(tv.take(k + 1).map_values(|e: (Seq<char>, usize, usize)| (e.0, e.1)) =~= tv.take(
            k as int,
        ).map_values(|e: (Seq<char>, usize, usize)| (e.0, e.1)).push(
            (tv[k as int].0, tv[k as int].1),
        ));
        assert(pairs_view(out@) =~= tv.take(k + 1).map_values(
            |e: (Seq<char>, usize, usize)| (e.0, e.1),
        ));
        k += 1;
    }
    let ghost pv = pairs_view(out@);
    assert(tv.take(t.len() as int) =~= tv);
    assert forall|kk: Seq<char>| #[trigger] count_key(items, kk) > 0 implies exists|i: int|
        0 <= i < pv.len() && pv[i].0 == kk by {
        let i = choose|i: int| 0 <= i < tv.len() && tv[i].0 == kk;
        assert(pv[i].0 == kk);
    }
    assert forall|a: int, b: int| 0 <= a < b < pv.len() implies seq_lt(
        #[trigger] pv[a].0,
        #[trigger] pv[b].0,
    ) by {
        assert(pv[a].0 == tv[a].0 && pv[b].0 == tv[b].0);
    }
    assert forall|a: int| 0 <= a < pv.len() implies (#[trigger] pv[a]).1 == count_key(
        items,
        pv[a].0,
    ) && pv[a].1 > 0 by {
        assert(pv[a].0 == tv[a].0 && pv[a].1 == tv[a].1);
    }
    out
}

proof fn lemma_type_items_len(rs: Seq<ResultView>)
    ensures
        type_items(rs).len() <= rs.len(),
    decreases rs.len(),
{
    if rs.len() > 0 {
        lemma_type_items_len(rs.drop_last());
    }
}

proof fn lemma_author_items_len(cs: Seq<RecordView>, rs: Seq<ResultView>)
    ensures
        author_items(cs, rs).len() <= rs.len(),
    decreases rs.len(),
{
    if rs.len() > 0 && cs.len() > 0 {
        lemma_author_items_len(cs.drop_last(), rs.drop_last());
    }
}

/// Commits and error commits per author, over the commits that were not skipped.
fn author_tally(commits: &[CommitRecord], results: &[ValidationResult]) -> (t: Vec<Entry>)
    requires
        commits.len() == results.len(),
    ensures
        is_tally_of(
            tally_view(t@),
            author_items(records_view(commits@), results_view(results@)),
        ),
{
    let ghost cs = records_view(commits@);
    let ghost rs = results_view(results@);
    let mut t: Vec<Entry> = Vec::new();
    let mut i: usize = 0;
    while i < results.len()
        invariant
            commits.len() == results.len(),
            i <= results.len(),
            cs == records_view(commits@),
            rs == results_view(results@),
            is_tally_of(tally_view(t@), author_items(cs.take(i as int), rs.take(i as int))),
        decreases results.len() - i,
    {
        let ghost before = author_items(cs.take(i as int), rs.take(i as int));
        proof {
            assert(rs.take(i + 1).drop_last() =~= rs.take(i as int));
            assert(cs.take(i + 1).drop_last() =~= cs.take(i as int));
            assert(rs.take(i + 1).last() == results@[i as int]@);
            assert(cs.take(i + 1).last() == commits@[i as int]@);
            lemma_author_items_len(cs.take(i as int), rs.take(i as int));
        }
        let r = &results[i];
        if !r.skipped {
            let failed = !r.ok();
            tally_add(&mut t, &commits[i].author, failed, Ghost(before));
            assert(author_items(cs.take(i + 1), rs.take(i + 1)) =~= before.push(
                (commits@[i as int].author@, failed),
            ));
        } else {
            assert(author_items(cs.take(i + 1), rs.take(i + 1)) =~= before);
        }
        i += 1;
    }
    assert(rs.take(results.len() as int) =~= rs);
    assert(cs.take(results.len() as int) =~= cs);
    t
}

/// The ranking order on tally entries: more items first, ties by key.
pub open spec fn entry_before(a: (Seq<char>, usize, usize), b: (Seq<char>, usize, usize)) -> bool {
    a.1 > b.1 || (a.1 == b.1 && seq_lt(a.0, b.0))
}

proof fn lemma_entry_before(
    a: (Seq<char>, usize, usize),
    b: (Seq<char>, usize, usize),
    c: (Seq<char>, usize, usize),
)
    ensures
        !entry_before(a, a),
        entry_before(a, b) ==> !entry_before(b, a),
        entry_before(a, b) && entry_before(b, c) ==> entry_before(a, c),
        a.0 != b.0 ==> entry_before(a, b) || entry_before(b, a),
{
    lemma_seq_lt_order(a.0, b.0, c.0);
}

fn entry_ranks_before(a: &Entry, b: &Entry) -> (r: bool)
    ensures
        r == entry_before(entry_view(*a), entry_view(*b)),
{
    if a.1 != b.1 {
        a.1 > b.1
    } else {
        let ka = crate::text::chars_of(a.0.as_str());
        let kb = crate::text::chars_of(b.0.as_str());
        crate::text::compare_chars(&ka, &kb) < 0
    }
}

/// `v` is in strictly increasing `entry_before` order.
pub open spec fn ranked(v: Seq<(Seq<char>, usize, usize)>) -> bool {
    forall|i: int, j: int| 0 <= i < j < v.len() ==> entry_before(#[trigger] v[i], #[trigger] v[j])
}

/// Inserts `e` where it belongs in a ranked vector whose keys all differ from its key.
fn insert_ranked(out: &mut Vec<Entry>, e: &Entry) -> (p: usize)
    requires
        ranked(tally_view(old(out)@)),
        forall|j: int|
            0 <= j < old(out)@.len() ==> (#[trigger] tally_view(old(out)@)[j]).0 != e.0@,
    ensures
        p <= old(out)@.len(),
        tally_view(final(out)@) == tally_view(old(out)@).insert(p as int, entry_view(*e)),
        ranked(tally_view(final(out)@)),
{
    let ghost ov = tally_view(out@);
    let ghost ev = entry_view(*e);
    let mut p: usize = 0;
    while p < out.len() && !entry_ranks_before(e, &out[p])
        invariant
            p <= out@.len(),
            ov == tally_view(out@),
            ev == entry_view(*e),
            forall|j: int| 0 <= j < p ==> !entry_before(ev, #[trigger] ov[j]),
        decreases out@.len() - p,
    {
        p += 1;
    }
    out.insert(p, (e.0.clone(), e.1, e.2));
    let ghost nv = tally_view(out@);
    assert(nv =~= ov.insert(p as int, ev));
    assert forall|j: int| 0 <= j < p implies entry_before(#[trigger] ov[j], ev) by {
        lemma_entry_before(ov[j], ev, ev);
    }
    assert forall|j: int| p <= j < ov.len() implies entry_before(ev, #[trigger] ov[j]) by {
        if j > p {
            lemma_entry_before(ev, ov[p as int], ov[j]);
        }
    }
    assert forall|i: int, j: int| 0 <= i < j < nv.len() implies entry_before(
        #[trigger] nv[i],
        #[trigger] nv[j],
    ) by {
        if j < p {
        } else if j == p {
        } else if i < p {
            assert(nv[j] == ov[j - 1]);
            lemma_entry_before(nv[i], ev, nv[j]);
        } else if i == p {
            assert(nv[j] == ov[j - 1]);
        } else {
            assert(nv[i] == ov[i - 1] && nv[j] == ov[j - 1]);
        }
    }
    p
}

/// Every element of `v` is one of `w.take(k)`.
#[verifier::opaque]
pub open spec fn elements_from(
    v: Seq<(Seq<char>, usize, usize)>,
    w: Seq<(Seq<char>, usize, usize)>,
    k: int,
) -> bool {
    forall|j: int| 0 <= j < v.len() ==> exists|m: int| 0 <= m < k && #[trigger] v[j] == w[m]
}

/// Every element of `w.take(k)` is in `v`.
#[verifier::opaque]
pub open spec fn elements_kept(
    v: Seq<(Seq<char>, usize, usize)>,
    w: Seq<(Seq<char>, usize, usize)>,
    k: int,
) -> bool {
    forall|m: int| 0 <= m < k ==> exists|j: int| 0 <= j < v.len() && v[j] == #[trigger] w[m]
}

/// `v` holds exactly the elements of `w.take(k)`.
pub open spec fn same_elements(
    v: Seq<(Seq<char>, usize, usize)>,
    w: Seq<(Seq<char>, usize, usize)>,
    k: int,
) -> bool {
    elements_from(v, w, k) && elements_kept(v, w, k)
}

proof fn lemma_same_elements_insert(
    v: Seq<(Seq<char>, usize, usize)>,
    w: Seq<(Seq<char>, usize, usize)>,
    k: int,
    p: int,
)
    requires
        0 <= k < w.len(),
        0 <= p <= v.len(),
        same_elements(v, w, k),
    ensures
        same_elements(v.insert(p, w[k]), w, k + 1),
{
    let nv = v.insert(p, w[k]);
    reveal(elements_from);
    reveal(elements_kept);
    assert forall|j: int| 0 <= j < nv.len() implies exists|m: int|
        0 <= m < k + 1 && #[trigger] nv[j] == w[m] by {
        if j < p {
            assert(nv[j] == v[j]);
            let m = choose|m: int| 0 <= m < k && v[j] == w[m];
        } else if j == p {
            assert(nv[j] == w[k]);
        } else {
            assert(nv[j] == v[j - 1]);
            let m = choose|m: int| 0 <= m < k && v[j - 1] == w[m];
        }
    }
    assert forall|m: int| 0 <= m < k + 1 implies exists|j: int|
        0 <= j < nv.len() && nv[j] == #[trigger] w[m] by {
        if m == k {
            assert(nv[p] == w[m]);
        } else {
            let j = choose|j: int| 0 <= j < v.len() && v[j] == w[m];
            if j < p {
                assert(nv[j] == v[j]);
            } else {
                assert(nv[j + 1] == v[j]);
            }
        }
    }
}

/// The keys of `w` are strictly increasing.
pub open spec fn keys_increasing(w: Seq<(Seq<char>, usize, usize)>) -> bool {
    forall|i: int, j: int| 0 <= i < j < w.len() ==> seq_lt(#[trigger] w[i].0, #[trigger] w[j].0)
}

proof fn lemma_new_key(v: Seq<(Seq<char>, usize, usize)>, w: Seq<(Seq<char>, usize, usize)>, k: int)
    requires
        0 <= k < w.len(),
        keys_increasing(w),
        same_elements(v, w, k),
    ensures
        forall|j: int| 0 <= j < v.len() ==> (#[trigger] v[j]).0 != w[k].0,
{
    reveal(elements_from);
    assert forall|j: int| 0 <= j < v.len() implies (#[trigger] v[j]).0 != w[k].0 by {
        let m = choose|m: int| 0 <= m < k && v[j] == w[m];
        assert(seq_lt(w[m].0, w[k].0));
        lemma_seq_lt_order(w[m].0, w[k].0, w[k].0);
    }
}

/// Entries of a tally, reordered by `entry_before`.
fn rank_entries(t: &Vec<Entry>, Ghost(items): Ghost<Seq<(Seq<char>, bool)>>) -> (out: Vec<Entry>)
    requires
        is_tally_of(tally_view(t@), items),
    ensures
        ranked(tally_view(out@)),
        same_elements(tally_view(out@), tally_view(t@), t@.len() as int),
{
    let ghost tv = tally_view(t@);
    let mut out: Vec<Entry> = Vec::new();
    let mut k: usize = 0;
    proof {
        reveal(elements_from);
        reveal(elements_kept);
    }
    while k < t.len()
        invariant
            k <= t.len(),
            tv == tally_view(t@),
            keys_increasing(tv),
            ranked(tally_view(out@)),
            same_elements(tally_view(out@), tv, k as int),
        decreases t.len() - k,
    {
        let ghost ov = tally_view(out@);
        assert(entry_view(t@[k as int]) == tv[k as int]);
        proof {
            lemma_new_key(ov, tv, k as int);
        }
        let p = insert_ranked(&mut out, &t[k]);
        proof {
            lemma_same_elements_insert(ov, tv, k as int, p as int);
        }
        k += 1;
    }
    out
}

/// Each entry of `v` has the counts of its key in `items`.
pub open spec fn entries_counted(v: Seq<(Seq<char>, usize, usize)>, items: Seq<(Seq<char>, bool)>) -> bool {
    forall|j: int|
        0 <= j < v.len() ==> {
            &&& (#[trigger] v[j]).1 == count_key(items, v[j].0)
            &&& v[j].2 == count_flagged(items, v[j].0)
            &&& v[j].1 > 0
            &&& v[j].2 <= v[j].1
        }
}

/// Every key that occurs in `items` has an entry in `v`.
pub open spec fn entries_cover(v: Seq<(Seq<char>, usize, usize)>, items: Seq<(Seq<char>, bool)>) -> bool {
    forall|k: Seq<char>| #[trigger]
        count_key(items, k) > 0 ==> exists|j: int| 0 <= j < v.len() && v[j].0 == k
}

proof fn lemma_reordered_tally(
    v: Seq<(Seq<char>, usize, usize)>,
    t: Seq<(Seq<char>, usize, usize)>,
    items: Seq<(Seq<char>, bool)>,
)
    requires
        is_tally_of(t, items),
        same_elements(v, t, t.len() as int),
    ensures
        entries_counted(v, items),
        entries_cover(v, items),
{
    lemma_reordered_counts(v, t, items);
    lemma_reordered_cover(v, t, items);
}

proof fn lemma_reordered_counts(
    v: Seq<(Seq<char>, usize, usize)>,
    t: Seq<(Seq<char>, usize, usize)>,
    items: Seq<(Seq<char>, bool)>,
)
    requires
        is_tally_of(t, items),
        elements_from(v, t, t.len() as int),
    ensures
        entries_counted(v, items),
{
    reveal(elements_from);
    assert forall|j: int| 0 <= j < v.len() implies {
        &&& (#[trigger] v[j]).1 == count_key(items, v[j].0)
        &&& v[j].2 == count_flagged(items, v[j].0)
        &&& v[j].1 > 0
        &&& v[j].2 <= v[j].1
    } by {
        let m = choose|m: int| 0 <= m < t.len() && v[j] == t[m];
        lemma_tally_entry(t, items, m);
    }
}

proof fn lemma_reordered_cover(
    v: Seq<(Seq<char>, usize, usize)>,
    t: Seq<(Seq<char>, usize, usize)>,
    items: Seq<(Seq<char>, bool)>,
)
    requires
        is_tally_of(t, items),
        elements_kept(v, t, t.len() as int),
    ensures
        entries_cover(v, items),
{
    reveal(elements_kept);
    assert forall|k: Seq<char>| #[trigger] count_key(items, k) > 0 implies exists|j: int|
        0 <= j < v.len() && v[j].0 == k by {
        let m = lemma_tally_has(t, items, k);
        let j = choose|j: int| 0 <= j < v.len() && v[j] == t[m];
    }
}

proof fn lemma_tally_entry(t: Seq<(Seq<char>, usize, usize)>, items: Seq<(Seq<char>, bool)>, m: int)
    requires
        is_tally_of(t, items),
        0 <= m < t.len(),
    ensures
        t[m].1 == count_key(items, t[m].0),
        t[m].2 == count_flagged(items, t[m].0),
        t[m].1 > 0,
        t[m].2 <= t[m].1,
{
    lemma_counts_bounded(items, t[m].0);
}

proof fn lemma_tally_has(t: Seq<(Seq<char>, usize, usize)>, items: Seq<(Seq<char>, bool)>, k: Seq<char>) -> (m: int)
    requires
        is_tally_of(t, items),
        count_key(items, k) > 0,
    ensures
        0 <= m < t.len(),
        t[m].0 == k,
{
    choose|m: int| 0 <= m < t.len() && t[m].0 == k
}

/// Rows of the per-author breakdown, from entries already in rank order.
fn author_rows(
    entries: &Vec<Entry>,
    Ghost(items): Ghost<Seq<(Seq<char>, bool)>>,
) -> (out: Vec<AuthorStats>)
    requires
        ranked(tally_view(entries@)),
        entries_counted(tally_view(entries@), items),
        entries_cover(tally_view(entries@), items),
    ensures
        is_author_breakdown(authors_view(out@), items),
{
    let ghost ev = tally_view(entries@);
    let mut out: Vec<AuthorStats> = Vec::new();
    let mut i: usize = 0;
    while i < entries.len()
        invariant
            i <= entries.len(),
            ev == tally_view(entries@),
            entries_counted(ev, items),
            out@.len() == i,
            forall|j: int|
                0 <= j < i ==> {
                    let a = #[trigger] author_view(out@[j]);
                    &&& a.0 == ev[j].0
                    &&& a.1 == ev[j].1
                    &&& a.3 == ev[j].2
                    &&& a.2 == a.1 - a.3
                    &&& a.4 == rounded_percent_of(a.2 as nat, a.1 as nat)
                },
        decreases entries.len() - i,
    {
        let e = &entries[i];
        assert(ev[i as int] == entry_view(*e));
        let total = e.1;
        let errors = e.2;
        let clean = total - errors;
        let score = rounded_percent(clean, total);
        out.push(AuthorStats { author: e.0.clone(), total, clean, errors, score });
        assert(author_view(out@[i as int]).0 == ev[i as int].0);
        i += 1;
    }
    let ghost av = authors_view(out@);
    assert forall|a: int, b: int| 0 <= a < b < av.len() implies ranks_before(
        #[trigger] av[a],
        #[trigger] av[b],
    ) by {
        assert(av[a] == author_view(out@[a]) && av[b] == author_view(out@[b]));
        assert(entry_before(ev[a], ev[b]));
    }
    assert forall|a: int| 0 <= a < av.len() implies {
        &&& (#[trigger] av[a]).1 == count_key(items, av[a].0)
        &&& av[a].1 > 0
        &&& av[a].3 == count_flagged(items, av[a].0)
        &&& av[a].2 == av[a].1 - av[a].3
        &&& av[a].4 == rounded_percent_of(av[a].2 as nat, av[a].1 as nat)
    } by {
        assert(av[a] == author_view(out@[a]));
    }
    assert forall|k: Seq<char>| #[trigger] count_key(items, k) > 0 implies exists|j: int|
        0 <= j < av.len() && av[j].0 == k by {
        let j = choose|j: int| 0 <= j < ev.len() && ev[j].0 == k;
        assert(av[j] == author_view(out@[j]));
    }
    out
}

/// The whole percent of `part` in `whole`, rounded down.
fn percent(part: usize, whole: usize) -> (p: u8)
    requires
        part <= whole,
        whole > 0,
    ensures
        p == percent_of(part as nat, whole as nat),
{
    let wide: u128 = (part as u128) * 100;
    let q: u128 = wide / (whole as u128);
    assert(q <= 100) by (nonlinear_arith)
        requires
            q == wide / (whole as u128),
            wide == part * 100,
            part <= whole,
            whole > 0,
    {
        assert(part * 100 <= whole * 100);
        vstd::arithmetic::div_mod::lemma_div_is_ordered(part as int * 100, whole as int * 100, whole as int);
        vstd::arithmetic::div_mod::lemma_div_multiples_vanish(100, whole as int);
    }
    q as u8
}

/// The percent of `part` in `whole`, rounded to the nearest, halves up.
fn rounded_percent(part: usize, whole: usize) -> (p: u8)
    requires
        part <= whole,
        whole > 0,
    ensures
        p == rounded_percent_of(part as nat, whole as nat),
{
    let num: u128 = (part as u128) * 200 + (whole as u128);
    let den: u128 = (whole as u128) * 2;
    let q: u128 = num / den;
    proof {
        lemma_rounded_percent_bounds(part as nat, whole as nat);
        assert(200 * part + whole == part * 200 + whole) by (nonlinear_arith);
        assert(2 * whole == whole * 2) by (nonlinear_arith);
    }
    q as u8
}

/// A rounded percent of a part is at most 100, and exactly 100 of the whole.
pub proof fn lemma_rounded_percent_bounds(part: nat, whole: nat)
    requires
        part <= whole,
        whole > 0,
    ensures
        rounded_percent_of(part, whole) <= 100,
        part == whole ==> rounded_percent_of(part, whole) == 100,
{
    let d = 2 * whole;
    assert(200 * part + whole <= 201 * whole) by (nonlinear_arith)
        requires
            part <= whole,
    ;
    assert(d > 0) by (nonlinear_arith)
        requires
            whole > 0,
            d == 2 * whole,
    ;
    vstd::arithmetic::div_mod::lemma_div_is_ordered((200 * part + whole) as int, (201 * whole) as int, d as int);
    assert(201 * whole == 100 * d + whole);
    vstd::arithmetic::div_mod::lemma_fundamental_div_mod_converse(
        (201 * whole) as int,
        d as int,
        100,
        whole as int,
    );
}

/// A percent of a part is at most 100, and exactly 100 of the whole.
pub proof fn lemma_percent_bounds(part: nat, whole: nat)
    requires
        part <= whole,
        whole > 0,
    ensures
        percent_of(part, whole) <= 100,
        part == whole ==> percent_of(part, whole) == 100,
{
    vstd::arithmetic::div_mod::lemma_div_is_ordered(part as int * 100, whole as int * 100, whole as int);
    vstd::arithmetic::div_mod::lemma_div_multiples_vanish(100, whole as int);
    assert(part * 100 <= whole * 100) by (nonlinear_arith)
        requires
            part <= whole,
    ;
    assert(100 * part == part * 100) by (nonlinear_arith);
    assert(100 * whole == whole * 100) by (nonlinear_arith);
}

/// Every author's score is at most 100, and 100 when none of the author's commits
/// has an error.
pub proof fn lemma_author_scores(v: Seq<(Seq<char>, usize, usize, usize, u8)>, items: Seq<(Seq<char>, bool)>)
    requires
        is_author_breakdown(v, items),
    ensures
        forall|i: int|
            0 <= i < v.len() ==> (#[trigger] v[i]).4 <= 100 && (v[i].3 == 0 ==> v[i].4 == 100),
{
    assert forall|i: int| 0 <= i < v.len() implies (#[trigger] v[i]).4 <= 100 && (v[i].3 == 0
        ==> v[i].4 == 100) by {
        lemma_rounded_percent_bounds(v[i].2 as nat, v[i].1 as nat);
    }
}

/// The results whose commit parsed with type `k`, whatever their violations.
pub open spec fn parsed_as(rs: Seq<ResultView>, k: Seq<char>) -> Seq<ResultView> {
    rs.filter(|r: ResultView| r.parsed matches Some(p) && p.commit_type == k)
}

proof fn lemma_type_count_is_parsed_count(rs: Seq<ResultView>, k: Seq<char>)
    ensures
        count_key(type_items(rs), k) == parsed_as(rs, k).len(),
    decreases rs.len(),
{
    if rs.len() > 0 {
        lemma_type_count_is_parsed_count(rs.drop_last(), k);
        reveal(Seq::filter);
        let pred = |r: ResultView| r.parsed matches Some(p) && p.commit_type == k;
        assert(parsed_as(rs, k) == rs.filter(pred));
        assert(parsed_as(rs.drop_last(), k) == rs.drop_last().filter(pred));
        assert(rs.filter(pred) == if pred(rs.last()) {
            rs.drop_last().filter(pred).push(rs.last())
        } else {
            rs.drop_last().filter(pred)
        });
        let front = type_items(rs.drop_last());
        match rs.last().parsed {
            Some(p) => {
                let items = front + seq![(p.commit_type, false)];
                assert(items.drop_last() =~= front);
            },
            None => {
                assert(front + Seq::<(Seq<char>, bool)>::empty() =~= front);
            },
        }
    }
}

/// Every parsed commit counts once under its type, whatever its violations: in the
/// summary of `rs`, each type's count is the number of results that parsed with that
/// type, and every type that some result parsed with is listed.
pub proof fn lemma_types_count_every_parsed_commit(s: Summary, rs: Seq<ResultView>)
    requires
        is_summary_of(s, rs),
    ensures
        forall|i: int|
            0 <= i < s.by_type@.len() ==> (#[trigger] pairs_view(s.by_type@)[i]).1 == parsed_as(
                rs,
                pairs_view(s.by_type@)[i].0,
            ).len(),
        forall|k: Seq<char>|
            #[trigger] parsed_as(rs, k).len() > 0 ==> exists|i: int|
                0 <= i < s.by_type@.len() && pairs_view(s.by_type@)[i].0 == k,
{
    let ps = pairs_view(s.by_type@);
    assert forall|i: int| 0 <= i < s.by_type@.len() implies (#[trigger] ps[i]).1 == parsed_as(
        rs,
        ps[i].0,
    ).len() by {
        lemma_type_count_is_parsed_count(rs, ps[i].0);
    }
    assert forall|k: Seq<char>| #[trigger] parsed_as(rs, k).len() > 0 implies exists|i: int|
        0 <= i < s.by_type@.len() && ps[i].0 == k by {
        lemma_type_count_is_parsed_count(rs, k);
        assert(count_key(type_items(rs), k) > 0);
    }
}

/// The overall score: the whole percent of clean commits among all commits,
/// rounded down, and 100 when no commit was counted (none, or all skipped).
pub open spec fn score_ok(clean: usize, counted: usize, total: usize, score: u8) -> bool {
    if counted == 0 {
        score == 100
    } else {
        score == percent_of(clean as nat, total as nat)
    }
}

/// `s` summarises `rs`: totals by status, the score, and commits per type.
pub open spec fn is_summary_of(s: Summary, rs: Seq<ResultView>) -> bool {
    &&& s.total == rs.len()
    &&& s.skipped == count_if(rs, |x: ResultView| is_skipped(x))
    &&& s.clean == count_if(rs, |x: ResultView| is_clean(x))
    &&& s.warnings == count_if(rs, |x: ResultView| is_warned(x))
    &&& s.errors == count_if(rs, |x: ResultView| is_failed(x))
    &&& score_ok(s.clean, (s.total - s.skipped) as usize, s.total, s.score)
    &&& is_count_of(pairs_view(s.by_type@), type_items(rs))
}

/// Builds the report for `commits` and their validation `results` (same order).
pub fn build(commits: &[CommitRecord], results: &[ValidationResult], include_authors: bool) -> (r:
    FullReport)
    requires
        commits.len() == results.len(),
    ensures
        r.commits@.len() == commits.len(),
        forall|i: int|
            0 <= i < r.commits@.len() ==> #[trigger] r.commits@[i]@ == commit_report_of(
                commits@[i]@,
                results@[i]@,
            ),
        is_summary_of(r.summary, results_view(results@)),
        r.summary.skipped + r.summary.clean + r.summary.errors == r.summary.total,
        r.summary.warnings <= r.summary.clean,
        r.summary.score <= 100,
        r.summary.skipped == r.summary.total ==> r.summary.score == 100,
        r.summary.skipped == 0 && r.summary.errors == 0 ==> r.summary.score == 100,
        include_authors ==> (r.authors matches Some(a) && is_author_breakdown(
            authors_view(a@),
            author_items(records_view(commits@), results_view(results@)),
        )),
        !include_authors ==> r.authors is None,
{
    let reports = commit_reports(commits, results);
    let (skipped, clean, warnings, errors) = status_counts(results);
    let by_type = type_counts(results);
    let counted = commits.len() - skipped;
    let score = if counted == 0 {
        100
    } else {
        proof {
            lemma_percent_bounds(clean as nat, commits.len() as nat);
        }
        percent(clean, commits.len())
    };
    let authors = if include_authors {
        let t = author_tally(commits, results);
        let ghost items = author_items(records_view(commits@), results_view(results@));
        let ranked_entries = rank_entries(&t, Ghost(items));
        proof {
            lemma_reordered_tally(tally_view(ranked_entries@), tally_view(t@), items);
        }
        Some(author_rows(&ranked_entries, Ghost(items)))
    } else {
        None
    };
    FullReport {
        commits: reports,
        summary: Summary {
            total: commits.len(),
            clean,
            warnings,
            errors,
            skipped,
            score,
            by_type,
        },
        authors,
    }
}

/// The exit status of a scan: 1 when some commit has an error, else 0.
pub fn scan_exit_code(summary: &Summary) -> (code: i32)
    ensures
        code == if summary.errors > 0 {
            1i32
        } else {
            0i32
        },
{
    if summary.errors > 0 {
        1
    } else {
        0
    }
}

/// The exit status of linting one message: 0 when it is ok, else 1.
pub fn lint_exit_code(result: &ValidationResult) -> (code: i32)
    ensures
        code == if has_error(result@.violations) {
            1i32
        } else {
            0i32
        },
{
    if result.ok() {
        0
    } else {
        1
    }
}

} // verus!
