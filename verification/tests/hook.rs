use std::path::PathBuf;

use kagu::hook::{
    check_install, check_uninstall, hook_body, hooks_dir_text, hooks_path, HookError, SENTINEL,
};

#[test]
fn hook_body_runs_lint_and_is_marked() {
    assert_eq!(
        hook_body(),
        "#!/bin/sh\n# kagu-managed-hook\nexec kagu lint \"$1\"\n"
    );
    assert!(hook_body().contains(SENTINEL));
}

#[test]
fn install_where_there_is_no_hook() {
    assert!(check_install(None).is_ok());
}

#[test]
fn install_does_not_clobber_a_foreign_hook() {
    let r = check_install(Some("#!/bin/sh\nnpx commitlint --edit \"$1\"\n"));
    assert!(matches!(r, Err(HookError::AlreadyInstalled)));
    assert!(matches!(check_install(Some("")), Err(HookError::AlreadyInstalled)));
}

#[test]
fn reinstall_over_own_hook_and_uninstall_it() {
    let body = hook_body();
    assert!(check_install(Some(&body)).is_ok());
    assert!(check_uninstall(Some(&body)).is_ok());
}

#[test]
fn uninstall_refuses_missing_or_foreign_hook() {
    assert!(matches!(check_uninstall(None), Err(HookError::NotInstalled)));
    assert!(matches!(
        check_uninstall(Some("#!/bin/sh\nexit 0\n")),
        Err(HookError::NotManaged)
    ));
}

#[test]
fn hooks_dir_from_git_output() {
    assert!(matches!(hooks_dir_text(false, b""), Err(HookError::NotAGitRepo)));
    assert_eq!(hooks_dir_text(true, b".git/hooks\n").unwrap(), ".git/hooks");
    assert_eq!(hooks_dir_text(true, b"  /abs/hooks \n").unwrap(), "/abs/hooks");
}

#[test]
fn hook_error_messages() {
    assert_eq!(HookError::NotAGitRepo.message(), "not inside a git repository");
    assert_eq!(HookError::AlreadyInstalled.message(), "a commit-msg hook already exists");
    assert_eq!(
        HookError::NotManaged.message(),
        "existing commit-msg hook is not managed by kagu"
    );
    assert_eq!(HookError::NotInstalled.message(), "no commit-msg hook installed");
    let io = std::io::Error::new(std::io::ErrorKind::Other, "read-only");
    assert_eq!(HookError::Io(io).message(), "io error: read-only");
}

#[test]
fn hooks_path_is_absolute_or_under_the_repository() {
    let repo = PathBuf::from("/work/repo");
    assert_eq!(hooks_path(&repo, "/abs/hooks"), PathBuf::from("/abs/hooks"));
    assert_eq!(hooks_path(&repo, ".git/hooks"), PathBuf::from("/work/repo/.git/hooks"));
    let rel = PathBuf::from("repo");
    assert_eq!(hooks_path(&rel, ".git/hooks"), PathBuf::from("repo/.git/hooks"));
    let here = PathBuf::from(".");
    let p = hooks_path(&here, ".git/hooks").join("commit-msg");
    assert_eq!(p.display().to_string(), ".git/hooks/commit-msg");
    assert_eq!(hooks_path(&here, "/abs/hooks"), PathBuf::from("/abs/hooks"));
}
