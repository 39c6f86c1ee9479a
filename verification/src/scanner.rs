//! Reading commit records out of `git log` output.
use std::io;
use std::path::PathBuf;

use vstd::prelude::*;
use vstd::string::*;
use vstd::utf8::{decode_utf8, valid_utf8};

use crate::text::{
    chars_of, contains_seq, find_seq, is_ws, lemma_next_match, match_at, next_match, split_from,
    string_of, sub_vec, trim, trim_end, trim_start, trimmed, ws_end,
};

verus! {

/// `std::path::PathBuf`, carried through as an opaque value.
#[verifier::external_type_specification]
#[verifier::external_body]
pub struct ExPathBuf(PathBuf);

/// `std::io::Error`, carried through as an opaque value.
#[verifier::external_type_specification]
#[verifier::external_body]
pub struct ExIoError(io::Error);

/// Separates the fields of one record in the `git log` output.
pub const FIELD_SEP: &'static str = "\u{1e}KAGU\u{1e}";

/// Ends each record in the `git log` output.
pub const RECORD_END: &'static str = "\u{1f}END\u{1f}";

#[derive(Debug, Clone)]
pub struct CommitRecord {
    pub sha: String,
    pub author: String,
    pub subject: String,
}

/// What a `CommitRecord` holds, as character sequences.
pub struct RecordView {
    pub sha: Seq<char>,
    pub author: Seq<char>,
    pub subject: Seq<char>,
}

impl View for CommitRecord {
    type V = RecordView;

    open spec fn view(&self) -> RecordView {
        RecordView { sha: self.sha@, author: self.author@, subject: self.subject@ }
    }
}

pub open spec fn records_view(v: Seq<CommitRecord>) -> Seq<RecordView> {
    v.map_values(|r: CommitRecord| r@)
}

impl CommitRecord {
    /// A copy of this record.
    pub(crate) fn duplicate(&self) -> (r: CommitRecord)
        ensures
            r@ == self@,
    {
        CommitRecord {
            sha: self.sha.clone(),
            author: self.author.clone(),
            subject: self.subject.clone(),
        }
    }
}

#[derive(Debug)]
pub enum ScanError {
    NotAGitRepo,
    PathNotFound(PathBuf),
    GitMissing,
    GitFailed(String),
    Io(io::Error),
}

/// `Path::display`: the text it shows for a path.
pub uninterp spec fn path_display(p: PathBuf) -> Seq<char>;

/// `Display` of a `PathBuf` (`Path::display`), owned; its text is named `path_display`.
#[verifier::external_body]
fn path_text(p: &PathBuf) -> (s: String)
    ensures
        s@ == path_display(*p),
{
    format!("{}", p.display())
}

/// `Display` of a `std::io::Error`.
///
/// Nothing is stated of the text: it comes from the operating system's messages.
#[verifier::external_body]
pub(crate) fn io_error_text(e: &io::Error) -> String {
    format!("{}", e)
}

/// `std::io::Error::kind` is `ErrorKind::NotFound`.
pub uninterp spec fn io_not_found(e: io::Error) -> bool;

/// Whether `std::io::Error::kind` is `ErrorKind::NotFound`; the answer is named
/// `io_not_found`.
#[verifier::external_body]
fn io_error_is_not_found(e: &io::Error) -> (r: bool)
    ensures
        r == io_not_found(*e),
{
    matches!(e.kind(), io::ErrorKind::NotFound)
}

impl ScanError {
    /// The human-readable message for this error.
    pub fn message(&self) -> (m: String)
        ensures
            self is NotAGitRepo ==> m@ == "not inside a git repository"@,
            self is GitMissing ==> m@ == "`git` executable not found in PATH"@,
            self matches ScanError::GitFailed(s) ==> m@ == "git command failed: "@ + s@,
            self matches ScanError::PathNotFound(p) ==> m@ == "path does not exist: "@
                + path_display(*p),
            self is Io ==> m@.take(10) == "io error: "@,
    {
        match self {
            ScanError::NotAGitRepo => String::from_str("not inside a git repository"),
            ScanError::PathNotFound(p) => {
                let mut m = String::from_str("path does not exist: ");
                m.append(path_text(p).as_str());
                m
            },
            ScanError::GitMissing => String::from_str("`git` executable not found in PATH"),
            ScanError::GitFailed(s) => {
                let mut m = String::from_str("git command failed: ");
                m.append(s.as_str());
                m
            },
            ScanError::Io(e) => {
                let mut m = String::from_str("io error: ");
                proof {
                    reveal_strlit("io error: ");
                }
                let ghost head = m@;
                m.append(io_error_text(e).as_str());
                assert(m@.take(10) =~= head);
                m
            },
        }
    }

    /// The error for a failed attempt to run `git`, given whether the failure was
    /// "not found" (git is not installed).
    pub fn from_io_kind(e: io::Error, not_found: bool) -> (r: ScanError)
        ensures
            not_found ==> r is GitMissing,
            !not_found ==> r == ScanError::Io(e),
    {
        if not_found {
            ScanError::GitMissing
        } else {
            ScanError::Io(e)
        }
    }

    /// The error for a failed attempt to run `git`: `GitMissing` when the program
    /// was not found, otherwise the I/O error itself.
    pub fn from_io(e: io::Error) -> (r: ScanError)
        ensures
            io_not_found(e) ==> r is GitMissing,
            !io_not_found(e) ==> r == ScanError::Io(e),
    {
        let not_found = io_error_is_not_found(&e);
        Self::from_io_kind(e, not_found)
    }
}

/// `String::from_utf8_lossy`: what it makes of `bytes`.
pub uninterp spec fn utf8_lossy(bytes: Seq<u8>) -> Seq<char>;

/// `String::from_utf8_lossy`, owned.
///
/// Its result is named `utf8_lossy`; on valid UTF-8 it is the decoded text.
#[verifier::external_body]
pub(crate) fn lossy_text(bytes: &[u8]) -> (s: String)
    ensures
        s@ == utf8_lossy(bytes@),
        valid_utf8(bytes@) ==> s@ == decode_utf8(bytes@),
{
    String::from_utf8_lossy(bytes).to_string()
}

/// The `--pretty` argument that makes `git log` print one record per commit:
/// hash, author e-mail and subject, separated by `FIELD_SEP` and ended by `RECORD_END`.
pub open spec fn spec_log_format() -> Seq<char> {
    "--pretty=format:%H"@ + FIELD_SEP@ + "%ae"@ + FIELD_SEP@ + "%s"@ + RECORD_END@
}

/// The `--pretty` argument for `git log`.
pub fn log_format_arg() -> (s: String)
    ensures
        s@ == spec_log_format(),
{
    let mut s = String::from_str("--pretty=format:%H");
    s.append(FIELD_SEP);
    s.append("%ae");
    s.append(FIELD_SEP);
    s.append("%s");
    s.append(RECORD_END);
    s
}

/// The revision range for `--since <ref>`: the commits in `<ref>..HEAD`.
pub fn since_range(since: &str) -> (s: String)
    ensures
        s@ == since@ + "..HEAD"@,
{
    let mut s = String::from_str(since);
    s.append("..HEAD");
    s
}

/// One record of the log output: after trimming whitespace, the text up to the first
/// `FIELD_SEP` is the hash, up to the second the author, and the rest the subject.
/// `None` when there are fewer than two separators.
pub open spec fn parse_record(raw: Seq<char>) -> Option<RecordView> {
    let t = trim(raw);
    let sep = FIELD_SEP@;
    let m1 = next_match(t, sep, 0);
    let m2 = next_match(t, sep, m1 + sep.len());
    if m1 + sep.len() > t.len() || m2 + sep.len() > t.len() {
        None
    } else {
        Some(
            RecordView {
                sha: t.take(m1),
                author: t.subrange(m1 + sep.len(), m2),
                subject: t.skip(m2 + sep.len()),
            },
        )
    }
}

/// The records found in `pieces`, in order.
pub open spec fn records_in(pieces: Seq<Seq<char>>) -> Seq<RecordView>
    decreases pieces.len(),
{
    if pieces.len() == 0 {
        Seq::empty()
    } else {
        (match parse_record(pieces[0]) {
            Some(r) => seq![r],
            None => Seq::empty(),
        }) + records_in(pieces.drop_first())
    }
}

/// The commits in `git log` output, oldest first (git prints newest first).
pub open spec fn spec_parse_log(text: Seq<char>) -> Seq<RecordView> {
    records_in(split_from(text, RECORD_END@, 0)).reverse()
}

fn parse_record_chars(raw: &Vec<char>, sep: &Vec<char>) -> (r: Option<CommitRecord>)
    requires
        sep@ == FIELD_SEP@,
    ensures
        match r {
            Some(c) => parse_record(raw@) == Some(c@),
            None => parse_record(raw@) is None,
        },
{
    let t = trimmed(raw);
    let m1 = find_seq(&t, sep, 0);
    if sep.len() > t.len() - m1 {
        return None;
    }
    let m2 = find_seq(&t, sep, m1 + sep.len());
    if sep.len() > t.len() - m2 {
        return None;
    }
    proof {
        lemma_next_match(t@, sep@, (m1 + sep.len()) as int);
    }
    Some(
        CommitRecord {
            sha: string_of(&t, 0, m1),
            author: string_of(&t, m1 + sep.len(), m2),
            subject: string_of(&t, m2 + sep.len(), t.len()),
        },
    )
}

/// The commits in `git log` output printed with `log_format_arg`, oldest first.
pub fn parse_log(text: &str) -> (r: Vec<CommitRecord>)
    ensures
        records_view(r@) == spec_parse_log(text@),
{
    let v = chars_of(text);
    let rec = chars_of(RECORD_END);
    let sep = chars_of(FIELD_SEP);
    proof {
        reveal_strlit("\u{1f}END\u{1f}");
    }
    let mut found: Vec<CommitRecord> = Vec::new();
    let mut i: usize = 0;
    loop
        invariant_except_break
            records_in(split_from(v@, rec@, 0)) == records_view(found@) + records_in(
                split_from(v@, rec@, i as int),
            ),
        invariant
            i <= v.len(),
            v@ == text@,
            rec@ == RECORD_END@,
            rec@.len() > 0,
            sep@ == FIELD_SEP@,
        ensures
            records_in(split_from(v@, rec@, 0)) == records_view(found@),
        decreases v.len() - i,
    {
        let m = find_seq(&v, &rec, i);
        proof {
            lemma_next_match(v@, rec@, i as int);
        }
        let last = rec.len() > v.len() - m;
        let end = if last {
            v.len()
        } else {
            m
        };
        let piece = sub_vec(&v, i, end);
        let ghost rest = split_from(v@, rec@, i as int);
        let ghost before = records_view(found@);
        assert(rest[0] == piece@);
        match parse_record_chars(&piece, &sep) {
            Some(c) => {
                found.push(c);
            },
            None => {},
        }
        if last {
            assert(rest =~= seq![piece@]);
            assert(records_in(rest.drop_first()) =~= Seq::<RecordView>::empty());
            assert(records_view(found@) =~= before + records_in(rest));
            break;
        }
        assert(rest.drop_first() =~= split_from(v@, rec@, (m + rec.len()) as int));
        assert(records_view(found@) + records_in(rest.drop_first()) =~= before + records_in(rest));
        i = m + rec.len();
    }
    let mut out: Vec<CommitRecord> = Vec::new();
    let mut k = found.len();
    while k > 0
        invariant
            k <= found.len(),
            out@.len() == found.len() - k,
            forall|j: int| 0 <= j < out@.len() ==> #[trigger] out@[j]@ == found@[found.len() - 1 - j]@,
        decreases k,
    {
        k -= 1;
        out.push(found[k].duplicate());
    }
    assert(records_view(out@) =~= records_view(found@).reverse());
    out
}

/// The outcome of a `git log` run that failed, from its error output: a repository
/// without commits yet gives no commits; anything else is `GitFailed` with the
/// trimmed error text.
pub open spec fn spec_log_failure(stderr: Seq<char>) -> Result<Seq<RecordView>, Seq<char>> {
    if contains_seq(stderr, "does not have any commits"@) {
        Ok(Seq::empty())
    } else {
        Err(trim(stderr))
    }
}

/// What a failed `git log` run means, given its error output as text.
pub fn log_failure(stderr: &str) -> (r: Result<Vec<CommitRecord>, ScanError>)
    ensures
        match spec_log_failure(stderr@) {
            Ok(v) => (r matches Ok(c) && records_view(c@) == v),
            Err(m) => (r matches Err(ScanError::GitFailed(s)) && s@ == m),
        },
{
    let v = chars_of(stderr);
    let needle = chars_of("does not have any commits");
    let m = find_seq(&v, &needle, 0);
    proof {
        lemma_next_match(v@, needle@, 0);
        reveal_strlit("does not have any commits");
    }
    if needle.len() <= v.len() - m {
        let r: Vec<CommitRecord> = Vec::new();
        assert(records_view(r@) =~= Seq::<RecordView>::empty());
        Ok(r)
    } else {
        let t = trimmed(&v);
        Err(ScanError::GitFailed(string_of(&t, 0, t.len())))
    }
}

/// The commits of a `git log` run, from its exit status and raw output.
pub fn read_log(success: bool, stdout: &[u8], stderr: &[u8]) -> (r: Result<
    Vec<CommitRecord>,
    ScanError,
>)
    ensures
        success ==> (r matches Ok(c) && records_view(c@) == spec_parse_log(utf8_lossy(stdout@))),
        !success ==> match spec_log_failure(utf8_lossy(stderr@)) {
            Ok(v) => (r matches Ok(c) && records_view(c@) == v),
            Err(m) => (r matches Err(ScanError::GitFailed(s)) && s@ == m),
        },
{
    if !success {
        let text = lossy_text(stderr);
        log_failure(text.as_str())
    } else {
        let text = lossy_text(stdout);
        Ok(parse_log(text.as_str()))
    }
}

/// What git prints for one commit with `log_format_arg`.
pub open spec fn log_entry(c: RecordView) -> Seq<char> {
    c.sha + FIELD_SEP@ + c.author + FIELD_SEP@ + c.subject + RECORD_END@
}

/// What `git log` prints with `log_format_arg` for `cs`, newest first: the entries,
/// separated by newlines.
pub open spec fn log_text(cs: Seq<RecordView>) -> Seq<char>
    decreases cs.len(),
{
    if cs.len() == 0 {
        Seq::empty()
    } else if cs.len() == 1 {
        log_entry(cs[0])
    } else {
        log_entry(cs[0]) + seq!['\n'] + log_text(cs.drop_first())
    }
}

/// The field holds neither separator's control characters.
pub open spec fn plain_field(f: Seq<char>) -> bool {
    forall|j: int| 0 <= j < f.len() ==> f[j] != '\u{1e}' && f[j] != '\u{1f}'
}

/// A commit that its log entry describes without ambiguity: no separator characters
/// in its fields, no whitespace at the start of the hash or the end of the subject.
pub open spec fn printable_record(c: RecordView) -> bool {
    &&& plain_field(c.sha)
    &&& plain_field(c.author)
    &&& plain_field(c.subject)
    &&& (c.sha.len() > 0 ==> !is_ws(c.sha[0]))
    &&& (c.subject.len() > 0 ==> !is_ws(c.subject.last()))
}

/// `p` cannot occur where the text holds something other than its first character.
proof fn lemma_no_match_here(s: Seq<char>, p: Seq<char>, j: int)
    requires
        p.len() > 0,
        0 <= j < s.len(),
        s[j] != p[0],
    ensures
        !match_at(s, p, j),
{
    if match_at(s, p, j) {
        assert(s.subrange(j, j + p.len())[0] == s[j]);
    }
}

/// The first occurrence of `p` at or after `i` is at `k` when none starts before it.
proof fn lemma_next_match_at(s: Seq<char>, p: Seq<char>, i: int, k: int)
    requires
        0 <= i <= k,
        forall|j: int| i <= j < k ==> !match_at(s, p, j),
        match_at(s, p, k),
    ensures
        next_match(s, p, i) == k,
    decreases k - i,
{
    if i < k {
        lemma_next_match_at(s, p, i + 1, k);
    }
}

/// Searching past a prefix searches what follows it.
proof fn lemma_next_match_shift(a: Seq<char>, s: Seq<char>, p: Seq<char>, i: int)
    requires
        0 <= i <= s.len(),
    ensures
        next_match(a + s, p, a.len() + i) == a.len() + next_match(s, p, i),
    decreases s.len() + 1 - i,
{
    let t = a + s;
    if i + p.len() <= s.len() {
        assert(t.subrange(a.len() + i, a.len() + i + p.len()) =~= s.subrange(i, i + p.len()));
        if !match_at(s, p, i) {
            if p.len() == 0 {
                assert(s.subrange(i, i) =~= p);
            }
            lemma_next_match_shift(a, s, p, i + 1);
        }
    }
}

/// Splitting past a prefix splits what follows it.
proof fn lemma_split_shift(a: Seq<char>, s: Seq<char>, p: Seq<char>, i: int)
    requires
        p.len() > 0,
        0 <= i <= s.len(),
    ensures
        split_from(a + s, p, a.len() + i) == split_from(s, p, i),
    decreases s.len() - i,
{
    let t = a + s;
    lemma_next_match_shift(a, s, p, i);
    lemma_next_match(s, p, i);
    let m = next_match(s, p, i);
    if m + p.len() > s.len() {
        assert(t.skip(a.len() + i) =~= s.skip(i));
    } else {
        assert(t.subrange(a.len() + i, a.len() + m) =~= s.subrange(i, m));
        lemma_split_shift(a, s, p, m + p.len());
    }
}

/// Leading whitespace ends where the first non-whitespace character is.
proof fn lemma_ws_end_at(s: Seq<char>, i: int, k: int)
    requires
        0 <= i <= k < s.len(),
        forall|j: int| i <= j < k ==> is_ws(s[j]),
        !is_ws(s[k]),
    ensures
        ws_end(s, i) == k,
    decreases k - i,
{
    if i < k {
        lemma_ws_end_at(s, i + 1, k);
    }
}

/// A log entry read back: the hash, the author and the subject.
proof fn lemma_parse_entry(c: RecordView, lead: Seq<char>)
    requires
        printable_record(c),
        forall|j: int| 0 <= j < lead.len() ==> is_ws(lead[j]),
    ensures
        parse_record(lead + (c.sha + FIELD_SEP@ + c.author + FIELD_SEP@ + c.subject)) == Some(c),
{
    reveal_strlit("\u{1e}KAGU\u{1e}");
    let sep = FIELD_SEP@;
    let body = c.sha + sep + c.author + sep + c.subject;
    let s = lead + body;
    assert(body[0] == if c.sha.len() > 0 {
        c.sha[0]
    } else {
        sep[0]
    });
    lemma_ws_end_at(s, 0, lead.len() as int);
    assert(trim_start(s) =~= body);
    assert(body.last() == if c.subject.len() > 0 {
        c.subject.last()
    } else {
        sep[5]
    });
    assert(trim_end(body) =~= body);
    assert(trim(s) == body);
    let l1 = c.sha.len() as int;
    let l2 = l1 + 6 + c.author.len();
    assert forall|j: int| 0 <= j < l1 implies !match_at(body, sep, j) by {
        assert(body[j] == c.sha[j]);
        lemma_no_match_here(body, sep, j);
    }
    assert(body.subrange(l1, l1 + 6) =~= sep);
    lemma_next_match_at(body, sep, 0, l1);
    assert forall|j: int| l1 + 6 <= j < l2 implies !match_at(body, sep, j) by {
        assert(body[j] == c.author[j - l1 - 6]);
        lemma_no_match_here(body, sep, j);
    }
    assert(body.subrange(l2, l2 + 6) =~= sep);
    lemma_next_match_at(body, sep, l1 + 6, l2);
    assert(body.take(l1) =~= c.sha);
    assert(body.subrange(l1 + 6, l2) =~= c.author);
    assert(body.skip(l2 + 6) =~= c.subject);
}

/// Text that holds no record at all reads as no commits.
proof fn lemma_blank_has_no_record(lead: Seq<char>)
    requires
        forall|j: int| 0 <= j < lead.len() ==> is_ws(lead[j]),
    ensures
        parse_record(lead) is None,
{
    reveal_strlit("\u{1e}KAGU\u{1e}");
    if lead.len() > 0 {
        lemma_ws_end_blank(lead, 0);
    }
    assert(trim(lead).len() == 0);
}

proof fn lemma_ws_end_blank(s: Seq<char>, i: int)
    requires
        0 <= i <= s.len(),
        forall|j: int| 0 <= j < s.len() ==> is_ws(s[j]),
    ensures
        ws_end(s, i) == s.len(),
    decreases s.len() - i,
{
    if i < s.len() {
        lemma_ws_end_blank(s, i + 1);
    }
}

proof fn lemma_records_of_log(cs: Seq<RecordView>, lead: Seq<char>)
    requires
        forall|i: int| 0 <= i < cs.len() ==> printable_record(#[trigger] cs[i]),
        lead.len() <= 1,
        forall|j: int| 0 <= j < lead.len() ==> lead[j] == '\n',
    ensures
        records_in(split_from(lead + log_text(cs), RECORD_END@, 0)) == cs,
    decreases cs.len(),
{
    reveal_strlit("\u{1f}END\u{1f}");
    reveal_strlit("\u{1e}KAGU\u{1e}");
    let rec = RECORD_END@;
    let text = lead + log_text(cs);
    if cs.len() == 0 {
        assert(text =~= lead);
        lemma_next_match(text, rec, 0);
        assert forall|j: int| 0 <= j < text.len() implies !match_at(text, rec, j) by {
            lemma_no_match_here(text, rec, j);
        }
        assert(text.skip(0) =~= text);
        assert(split_from(text, rec, 0) =~= seq![text]);
        lemma_blank_has_no_record(text);
        assert(seq![text][0] == text);
        assert(seq![text].drop_first() =~= Seq::<Seq<char>>::empty());
        assert(records_in(Seq::<Seq<char>>::empty()).len() == 0);
        assert(parse_record(seq![text][0]) is None);
        assert(records_in(seq![text]).len() == 0);
        assert(records_in(seq![text]) =~= cs);
    } else {
        let c = cs[0];
        let body = c.sha + FIELD_SEP@ + c.author + FIELD_SEP@ + c.subject;
        let next_lead = if cs.len() > 1 {
            seq!['\n']
        } else {
            Seq::<char>::empty()
        };
        let rest = next_lead + log_text(cs.drop_first());
        assert(log_text(cs) =~= body + rec + rest);
        let head = lead + body;
        assert(text =~= head + rec + rest);
        let k = head.len() as int;
        assert forall|j: int| 0 <= j < k implies !match_at(text, rec, j) by {
            assert(text[j] == head[j]);
            if j < lead.len() {
                assert(head[j] == lead[j]);
            } else {
                let b = j - lead.len();
                assert(head[j] == body[b]);
                if b < c.sha.len() {
                    assert(body[b] == c.sha[b]);
                } else if b < c.sha.len() + 6 {
                    assert(body[b] == FIELD_SEP@[b - c.sha.len()]);
                } else if b < c.sha.len() + 6 + c.author.len() {
                    assert(body[b] == c.author[b - c.sha.len() - 6]);
                } else if b < c.sha.len() + 12 + c.author.len() {
                    assert(body[b] == FIELD_SEP@[b - c.sha.len() - 6 - c.author.len()]);
                } else {
                    assert(body[b] == c.subject[b - c.sha.len() - 12 - c.author.len()]);
                }
            }
            lemma_no_match_here(text, rec, j);
        }
        let hr = head + rec;
        assert(rec.len() == 5);
        assert(hr.subrange(k, k + 5) =~= rec);
        assert(text.subrange(k, k + 5) =~= hr.subrange(k, k + 5));
        lemma_next_match_at(text, rec, 0, k);
        assert(text.subrange(0, k) =~= head);
        let a = head + rec;
        assert(text =~= a + rest);
        lemma_split_shift(a, rest, rec, 0);
        assert(split_from(text, rec, 0) =~= seq![head] + split_from(rest, rec, 0));
        lemma_parse_entry(c, lead);
        assert forall|i: int| 0 <= i < cs.drop_first().len() implies printable_record(
            #[trigger] cs.drop_first()[i],
        ) by {
            assert(cs.drop_first()[i] == cs[i + 1]);
        }
        lemma_records_of_log(cs.drop_first(), next_lead);
        let pieces = seq![head] + split_from(rest, rec, 0);
        assert(pieces[0] == head);
        assert(pieces.drop_first() =~= split_from(rest, rec, 0));
        assert(records_in(pieces) =~= seq![c] + cs.drop_first());
        assert(cs =~= seq![c] + cs.drop_first());
    }
}

/// Reading back what `git log` prints: the commits it lists newest first come out
/// oldest first, field for field, when their fields are printable.
pub proof fn lemma_parse_log_reads_back(cs: Seq<RecordView>)
    requires
        forall|i: int| 0 <= i < cs.len() ==> printable_record(#[trigger] cs[i]),
    ensures
        spec_parse_log(log_text(cs)) == cs.reverse(),
{
    lemma_records_of_log(cs, Seq::empty());
    assert(Seq::<char>::empty() + log_text(cs) =~= log_text(cs));
}

} // verus!
