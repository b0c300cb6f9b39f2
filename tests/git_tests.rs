use gip::git::{
    add_note, fetch_notes, get_conflicted_files, get_current_commit, get_gip_dir,
    get_manifest_dir, get_note, get_repo_root, get_staged_diff, git_result, gitignore_with_gip,
    has_staged_changes,
    is_git_repo, push_notes, GitError, GitQuery, ToolOutput,
};
use std::path::Path;

fn ok(stdout: &str) -> ToolOutput {
    ToolOutput { success: true, stdout: stdout.to_string(), stderr: String::new() }
}

fn failed(stderr: &str) -> ToolOutput {
    ToolOutput { success: false, stdout: String::new(), stderr: stderr.to_string() }
}

#[test]
fn test_is_git_repo() {
    let _ = is_git_repo(&ok(".git\n"));
    assert!(is_git_repo(&ok(".git\n")));
    assert!(!is_git_repo(&failed("fatal: not a git repository")));
}

#[test]
fn test_get_gip_dir_structure() {
    let result = get_repo_root(&ok("/home/user/project\n"));
    if let Ok(root) = result {
        let manifest_dir = get_manifest_dir(&root);
        assert_eq!(Path::new(&manifest_dir).file_name().unwrap(), "manifest");
        assert_eq!(get_gip_dir(&root), "/home/user/project/.gip");
    }
}

#[test]
fn paths_join_like_path_join() {
    assert_eq!(get_gip_dir("/repo/"), "/repo/.gip");
    assert_eq!(get_manifest_dir("/repo"), "/repo/.gip/manifest");
    assert_eq!(get_gip_dir(""), ".gip");
}

#[test]
fn answers_are_trimmed_and_errors_carry_stderr() {
    assert_eq!(get_current_commit(&ok("  abc123\n")).unwrap(), "abc123");
    assert_eq!(get_staged_diff(&ok("diff --git a b\n+x\n\n")).unwrap(), "diff --git a b\n+x");
    assert_eq!(get_note(&ok("{\"a\": 1}\n")).unwrap(), "{\"a\": 1}");
    match git_result(&failed("fatal: bad revision")) {
        Err(GitError::CommandFailed(e)) => assert_eq!(e, "fatal: bad revision"),
        Ok(_) => panic!("expected an error"),
    }
    assert!(add_note(&ok("")).is_ok());
    assert!(push_notes(&failed("no remote")).is_err());
    assert!(fetch_notes(&ok("")).is_ok());
}

#[test]
fn staged_changes_when_quiet_diff_fails() {
    assert!(has_staged_changes(&failed("")));
    assert!(!has_staged_changes(&ok("")));
}

#[test]
fn conflicted_files_one_per_line() {
    let files = get_conflicted_files(&ok("src/a.rs\n  src/b.rs \r\nREADME.md\n")).unwrap();
    assert_eq!(files, vec!["src/a.rs", "src/b.rs", "README.md"]);
    assert!(get_conflicted_files(&ok("\n")).unwrap().is_empty());
    assert!(get_conflicted_files(&failed("boom")).is_err());
}

#[test]
fn query_arguments() {
    assert_eq!(GitQuery::GitDir.args(), vec!["rev-parse", "--git-dir"]);
    assert_eq!(
        GitQuery::AddNote { commit: "abc".to_string(), content: "{}".to_string() }.args(),
        vec!["notes", "--ref=gip", "add", "-f", "-m", "{}", "abc"]
    );
    assert_eq!(
        GitQuery::ShowNote { commit: "abc".to_string() }.args(),
        vec!["notes", "--ref=gip", "show", "abc"]
    );
    assert_eq!(
        GitQuery::PushNotes { remote: "origin".to_string() }.args(),
        vec!["push", "origin", "refs/notes/gip"]
    );
    assert_eq!(
        GitQuery::ConflictedFiles.args(),
        vec!["diff", "--name-only", "--diff-filter=U"]
    );
    assert_eq!(
        GitQuery::Resolve("MERGE_HEAD".to_string()).args(),
        vec!["rev-parse", "MERGE_HEAD"]
    );
}

#[test]
fn ignore_file_gets_the_control_directory_once() {
    assert_eq!(gitignore_with_gip(""), Some(".gip\n".to_string()));
    assert_eq!(gitignore_with_gip("target"), Some("target\n.gip\n".to_string()));
    assert_eq!(gitignore_with_gip("target\n"), Some("target\n.gip\n".to_string()));
    assert_eq!(gitignore_with_gip("target\n.gip\n"), None);
}
