//! The commit-msg hook that kagu installs: its text, and when installing or
//! removing it is allowed.
use std::io;
use std::path::{Path, PathBuf};

use vstd::prelude::*;
use vstd::string::*;

use crate::scanner::{io_error_text, lossy_text, utf8_lossy};
use crate::text::{chars_of, contains_seq, find_seq, lemma_next_match, match_at, string_of, trim, trimmed};

verus! {

/// The line that marks a commit-msg hook as written by kagu.
pub const SENTINEL: &'static str = "# kagu-managed-hook";

#[derive(Debug)]
pub enum HookError {
    NotAGitRepo,
    AlreadyInstalled,
    NotManaged,
    NotInstalled,
    Io(io::Error),
}

impl HookError {
    /// The human-readable message for this error.
    pub fn message(&self) -> (m: String)
        ensures
            self is NotAGitRepo ==> m@ == "not inside a git repository"@,
            self is AlreadyInstalled ==> m@ == "a commit-msg hook already exists"@,
            self is NotManaged ==> m@ == "existing commit-msg hook is not managed by kagu"@,
            self is NotInstalled ==> m@ == "no commit-msg hook installed"@,
            self is Io ==> m@.take(10) == "io error: "@,
    {
        match self {
            HookError::NotAGitRepo => String::from_str("not inside a git repository"),
            HookError::AlreadyInstalled => String::from_str("a commit-msg hook already exists"),
            HookError::NotManaged => String::from_str(
                "existing commit-msg hook is not managed by kagu",
            ),
            HookError::NotInstalled => String::from_str("no commit-msg hook installed"),
            HookError::Io(e) => {
                let mut m = String::from_str("io error: ");
                proof {
                    reveal_strlit("io error: ");
                }
                let ghost head = m@;
                m.append(io_error_text(e).as_str());
                assert(m@.take(10) =~= head);
                m
            },
        }
    }
}

/// The hooks directory as `git rev-parse --git-path hooks` reported it: its output
/// without surrounding whitespace, or `NotAGitRepo` when the command failed.
pub fn hooks_dir_text(success: bool, stdout: &[u8]) -> (r: Result<String, HookError>)
    ensures
        !success ==> r matches Err(HookError::NotAGitRepo),
        success ==> (r matches Ok(s) && s@ == trim(utf8_lossy(stdout@))),
{
    if !success {
        return Err(HookError::NotAGitRepo);
    }
    let text = lossy_text(stdout);
    let v = chars_of(text.as_str());
    let t = trimmed(&v);
    Ok(string_of(&t, 0, t.len()))
}

/// `Path::is_absolute` of the path written as `s`, by the path rules of the platform
/// the crate is built for.
pub uninterp spec fn absolute_path(s: Seq<char>) -> bool;

/// `Path::is_absolute` on the path written as `s`; the answer is named `absolute_path`.
#[verifier::external_body]
fn path_is_absolute(s: &str) -> (r: bool)
    ensures
        r == absolute_path(s@),
{
    Path::new(s).is_absolute()
}

/// The path that `PathBuf::from` makes of the text `s`.
pub uninterp spec fn path_of_text(s: Seq<char>) -> PathBuf;

/// `PathBuf::from` on a string; the result is named `path_of_text`.
#[verifier::external_body]
fn path_from_text(s: &str) -> (p: PathBuf)
    ensures
        p == path_of_text(s@),
{
    PathBuf::from(s)
}

/// The path that `Path::join` makes of `base` and the text `s`.
pub uninterp spec fn joined_path(base: PathBuf, s: Seq<char>) -> PathBuf;

/// `Path::join` of `base` and a string; the result is named `joined_path`.
#[verifier::external_body]
fn join_path(base: &PathBuf, s: &str) -> (p: PathBuf)
    ensures
        p == joined_path(*base, s@),
{
    base.join(s)
}

/// `p == Path::new(".")`: the path is the current directory, written `.`.
pub uninterp spec fn is_current_dir(p: PathBuf) -> bool;

/// Whether a path equals `Path::new(".")` (`PartialEq` on paths compares their
/// components); the answer is named `is_current_dir`.
#[verifier::external_body]
fn path_is_current_dir(p: &PathBuf) -> (r: bool)
    ensures
        r == is_current_dir(*p),
{
    p.as_path() == Path::new(".")
}

/// Where the hooks directory is, given the repository directory and the path that
/// git reported for it: that path as it is when it is absolute or when the
/// repository is the current directory (`.git/hooks`, not `./.git/hooks`), else
/// that path under the repository directory.
pub fn hooks_path(repo_dir: &PathBuf, rel: &str) -> (p: PathBuf)
    ensures
        absolute_path(rel@) || is_current_dir(*repo_dir) ==> p == path_of_text(rel@),
        !absolute_path(rel@) && !is_current_dir(*repo_dir) ==> p == joined_path(*repo_dir, rel@),
{
    if path_is_absolute(rel) || path_is_current_dir(repo_dir) {
        path_from_text(rel)
    } else {
        join_path(repo_dir, rel)
    }
}

/// The text of the hook script: run `kagu lint` on the message file.
pub open spec fn spec_hook_body() -> Seq<char> {
    "#!/bin/sh\n"@ + SENTINEL@ + "\nexec kagu lint \"$1\"\n"@
}

/// The text of the hook script.
pub fn hook_body() -> (s: String)
    ensures
        s@ == spec_hook_body(),
{
    let mut s = String::from_str("#!/bin/sh\n");
    s.append(SENTINEL);
    s.append("\nexec kagu lint \"$1\"\n");
    s
}

/// A hook file with this text was written by kagu.
pub open spec fn is_managed(content: Seq<char>) -> bool {
    contains_seq(content, SENTINEL@)
}

fn managed(content: &str) -> (r: bool)
    ensures
        r == is_managed(content@),
{
    let v = chars_of(content);
    let s = chars_of(SENTINEL);
    let m = find_seq(&v, &s, 0);
    proof {
        lemma_next_match(v@, s@, 0);
        reveal_strlit("# kagu-managed-hook");
    }
    s.len() <= v.len() - m
}

/// A hook file is kagu's exactly when the sentinel line's text occurs somewhere in
/// it; text placed before and after the sentinel never changes that, and a file in
/// which it occurs nowhere is never kagu's (so it is neither replaced nor removed).
pub proof fn lemma_managed_iff_sentinel(content: Seq<char>, x: Seq<char>, y: Seq<char>)
    ensures
        is_managed(content) <==> exists|i: int|
            0 <= i && i + SENTINEL@.len() <= content.len() && #[trigger] content.subrange(
                i,
                i + SENTINEL@.len(),
            ) == SENTINEL@,
        is_managed(x + SENTINEL@ + y),
{
    let s = SENTINEL@;
    let c = x + s + y;
    assert(c.subrange(x.len() as int, (x.len() + s.len()) as int) =~= s);
    assert(match_at(c, s, x.len() as int));
    if is_managed(content) {
        let i = choose|i: int| match_at(content, s, i);
        assert(content.subrange(i, i + s.len()) == s);
    }
    if exists|i: int|
        0 <= i && i + s.len() <= content.len() && #[trigger] content.subrange(i, i + s.len()) == s {
        let i = choose|i: int|
            0 <= i && i + s.len() <= content.len() && #[trigger] content.subrange(i, i + s.len()) == s;
        assert(match_at(content, s, i));
    }
}

/// Whether a hook may be written where `existing` is the current hook file
/// (`None`: there is none; `Some(text)`: its text, empty when it cannot be read).
/// An existing hook that kagu did not write is never replaced.
pub fn check_install(existing: Option<&str>) -> (r: Result<(), HookError>)
    ensures
        match existing {
            None => r is Ok,
            Some(c) => (r is Ok <==> is_managed(c@)) && (r is Err ==> r matches Err(
                HookError::AlreadyInstalled,
            )),
        },
{
    match existing {
        None => Ok(()),
        Some(c) => if managed(c) {
            Ok(())
        } else {
            Err(HookError::AlreadyInstalled)
        },
    }
}

/// Whether the hook may be removed, where `existing` is as for `check_install`.
/// Only a hook that kagu wrote is removed.
pub fn check_uninstall(existing: Option<&str>) -> (r: Result<(), HookError>)
    ensures
        match existing {
            None => r matches Err(HookError::NotInstalled),
            Some(c) => (r is Ok <==> is_managed(c@)) && (r is Err ==> r matches Err(
                HookError::NotManaged,
            )),
        },
{
    match existing {
        None => Err(HookError::NotInstalled),
        Some(c) => if managed(c) {
            Ok(())
        } else {
            Err(HookError::NotManaged)
        },
    }
}

/// The hook that `install` writes is one that kagu recognises as its own: so
/// installing again over it is allowed, and `uninstall` removes it.
pub proof fn lemma_written_hook_is_managed()
    ensures
        is_managed(spec_hook_body()),
{
    reveal_strlit("#!/bin/sh\n");
    reveal_strlit("# kagu-managed-hook");
    reveal_strlit("\nexec kagu lint \"$1\"\n");
    let body = spec_hook_body();
    assert(body.subrange(10, 29) =~= SENTINEL@);
    assert(match_at(body, SENTINEL@, 10));
}

} // verus!
