//! The version-control tool as a narrow capability: the library says which
//! invocation it needs (`GitQuery::args`) and reads what the tool handed
//! back (`ToolOutput`); running the tool is left to the caller.
use vstd::prelude::*;
use crate::marker::strings;
use crate::rewrite::lines_of;
use crate::text::{chars_of, contains, contains_in, copy_range, string_from_chars, trim, trim_range};

verus! {

/// The notes namespace that holds manifests.
pub const NOTES_REF: &'static str = "refs/notes/gip";

/// The working-tree directory of pending and authoring files.
pub const GIP_DIR_NAME: &'static str = ".gip";

pub const MANIFEST_DIR_NAME: &'static str = "manifest";

/// What the tool handed back for one invocation.
pub struct ToolOutput {
    pub success: bool,
    pub stdout: String,
    pub stderr: String,
}

/// A failed invocation, with what the tool wrote to its error stream.
#[derive(Debug)]
pub enum GitError {
    CommandFailed(String),
}

/// The invocations the library needs.
pub enum GitQuery {
    /// Whether the working directory is inside a repository.
    GitDir,
    /// The top-level directory of the repository.
    TopLevel,
    /// The commit `HEAD` names.
    Head,
    /// A symbolic revision such as `MERGE_HEAD`, resolved.
    Resolve(String),
    /// The staged diff.
    StagedDiff,
    /// Succeeds only when nothing is staged.
    StagedQuiet,
    /// Attach `content` as the note of `commit`, replacing any earlier one.
    AddNote { commit: String, content: String },
    /// The note of `commit`.
    ShowNote { commit: String },
    PushNotes { remote: String },
    FetchNotes { remote: String },
    /// The files in an unresolved-merge state.
    ConflictedFiles,
}

/// The arguments of the tool for `q`.
pub open spec fn query_args(q: GitQuery) -> Seq<Seq<char>> {
    match q {
        GitQuery::GitDir => seq!["rev-parse"@, "--git-dir"@],
        GitQuery::TopLevel => seq!["rev-parse"@, "--show-toplevel"@],
        GitQuery::Head => seq!["rev-parse"@, "HEAD"@],
        GitQuery::Resolve(rev) => seq!["rev-parse"@, rev@],
        GitQuery::StagedDiff => seq!["diff"@, "--cached"@],
        GitQuery::StagedQuiet => seq!["diff"@, "--cached"@, "--quiet"@],
        GitQuery::AddNote { commit, content } => seq![
            "notes"@,
            "--ref=gip"@,
            "add"@,
            "-f"@,
            "-m"@,
            content@,
            commit@,
        ],
        GitQuery::ShowNote { commit } => seq!["notes"@, "--ref=gip"@, "show"@, commit@],
        GitQuery::PushNotes { remote } => seq!["push"@, remote@, NOTES_REF@],
        GitQuery::FetchNotes { remote } => seq!["fetch"@, remote@, "refs/notes/gip:refs/notes/gip"@],
        GitQuery::ConflictedFiles => seq!["diff"@, "--name-only"@, "--diff-filter=U"@],
    }
}

fn push_arg(v: &mut Vec<String>, s: &str)
    ensures
        strings(*final(v)) == strings(*old(v)).push(s@),
{
    v.push(String::from_str(s));
    assert(strings(*final(v)) =~= strings(*old(v)).push(s@));
}

impl GitQuery {
    pub fn args(&self) -> (r: Vec<String>)
        ensures
            strings(r) == query_args(*self),
    {
        let mut v: Vec<String> = Vec::new();
        assert(strings(v) =~= Seq::<Seq<char>>::empty());
        match self {
            GitQuery::GitDir => {
                push_arg(&mut v, "rev-parse");
                push_arg(&mut v, "--git-dir");
            },
            GitQuery::TopLevel => {
                push_arg(&mut v, "rev-parse");
                push_arg(&mut v, "--show-toplevel");
            },
            GitQuery::Head => {
                push_arg(&mut v, "rev-parse");
                push_arg(&mut v, "HEAD");
            },
            GitQuery::Resolve(rev) => {
                push_arg(&mut v, "rev-parse");
                push_arg(&mut v, rev.as_str());
            },
            GitQuery::StagedDiff => {
                push_arg(&mut v, "diff");
                push_arg(&mut v, "--cached");
            },
            GitQuery::StagedQuiet => {
                push_arg(&mut v, "diff");
                push_arg(&mut v, "--cached");
                push_arg(&mut v, "--quiet");
            },
            GitQuery::AddNote { commit, content } => {
                push_arg(&mut v, "notes");
                push_arg(&mut v, "--ref=gip");
                push_arg(&mut v, "add");
                push_arg(&mut v, "-f");
                push_arg(&mut v, "-m");
                push_arg(&mut v, content.as_str());
                push_arg(&mut v, commit.as_str());
            },
            GitQuery::ShowNote { commit } => {
                push_arg(&mut v, "notes");
                push_arg(&mut v, "--ref=gip");
                push_arg(&mut v, "show");
                push_arg(&mut v, commit.as_str());
            },
            GitQuery::PushNotes { remote } => {
                push_arg(&mut v, "push");
                push_arg(&mut v, remote.as_str());
                push_arg(&mut v, NOTES_REF);
            },
            GitQuery::FetchNotes { remote } => {
                push_arg(&mut v, "fetch");
                push_arg(&mut v, remote.as_str());
                push_arg(&mut v, "refs/notes/gip:refs/notes/gip");
            },
            GitQuery::ConflictedFiles => {
                push_arg(&mut v, "diff");
                push_arg(&mut v, "--name-only");
                push_arg(&mut v, "--diff-filter=U");
            },
        }
        assert(strings(v) =~= query_args(*self));
        v
    }
}

/// `s` trimmed, as a new string.
fn trimmed(s: &str) -> (r: String)
    ensures
        r@ == trim(s@),
{
    let v = chars_of(s);
    let (a, b) = trim_range(&v, 0, v.len());
    assert(v@.subrange(0, v@.len() as int) =~= v@);
    string_from_chars(&copy_range(&v, a, b))
}

/// The answer of a successful invocation, trimmed, or its error stream.
pub open spec fn answer(out: ToolOutput) -> Result<Seq<char>, Seq<char>> {
    if out.success {
        Ok(trim(out.stdout@))
    } else {
        Err(out.stderr@)
    }
}

/// Reads the answer of an invocation: its output trimmed when it
/// succeeded, its error stream otherwise.
pub fn git_result(out: &ToolOutput) -> (r: Result<String, GitError>)
    ensures
        match answer(*out) {
            Ok(s) => r matches Ok(t) && t@ == s,
            Err(e) => r matches Err(GitError::CommandFailed(t)) && t@ == e,
        },
{
    if out.success {
        Ok(trimmed(out.stdout.as_str()))
    } else {
        Err(GitError::CommandFailed(out.stderr.clone()))
    }
}

fn git_done(out: &ToolOutput) -> (r: Result<(), GitError>)
    ensures
        out.success ==> r is Ok,
        !out.success ==> (r matches Err(GitError::CommandFailed(t)) && t@ == out.stderr@),
{
    if out.success {
        Ok(())
    } else {
        Err(GitError::CommandFailed(out.stderr.clone()))
    }
}

/// Reads the answer to `GitQuery::GitDir`: inside a repository exactly when
/// the tool succeeded.
pub fn is_git_repo(out: &ToolOutput) -> (r: bool)
    ensures
        r == out.success,
{
    out.success
}

/// Reads the answer to `GitQuery::TopLevel`.
pub fn get_repo_root(out: &ToolOutput) -> (r: Result<String, GitError>)
    ensures
        match answer(*out) {
            Ok(s) => r matches Ok(t) && t@ == s,
            Err(e) => r matches Err(GitError::CommandFailed(t)) && t@ == e,
        },
{
    git_result(out)
}

/// Reads the answer to `GitQuery::Head`.
pub fn get_current_commit(out: &ToolOutput) -> (r: Result<String, GitError>)
    ensures
        match answer(*out) {
            Ok(s) => r matches Ok(t) && t@ == s,
            Err(e) => r matches Err(GitError::CommandFailed(t)) && t@ == e,
        },
{
    git_result(out)
}

/// Reads the answer to `GitQuery::StagedDiff`.
pub fn get_staged_diff(out: &ToolOutput) -> (r: Result<String, GitError>)
    ensures
        match answer(*out) {
            Ok(s) => r matches Ok(t) && t@ == s,
            Err(e) => r matches Err(GitError::CommandFailed(t)) && t@ == e,
        },
{
    git_result(out)
}

/// Reads the answer to `GitQuery::StagedQuiet`, which fails exactly when
/// something is staged.
pub fn has_staged_changes(out: &ToolOutput) -> (r: bool)
    ensures
        r == !out.success,
{
    !out.success
}

/// Reads the answer to `GitQuery::AddNote`.
pub fn add_note(out: &ToolOutput) -> (r: Result<(), GitError>)
    ensures
        out.success ==> r is Ok,
        !out.success ==> (r matches Err(GitError::CommandFailed(t)) && t@ == out.stderr@),
{
    git_done(out)
}

/// Reads the answer to `GitQuery::ShowNote`: the stored note, trimmed.
pub fn get_note(out: &ToolOutput) -> (r: Result<String, GitError>)
    ensures
        match answer(*out) {
            Ok(s) => r matches Ok(t) && t@ == s,
            Err(e) => r matches Err(GitError::CommandFailed(t)) && t@ == e,
        },
{
    git_result(out)
}

/// Reads the answer to `GitQuery::PushNotes`.
pub fn push_notes(out: &ToolOutput) -> (r: Result<(), GitError>)
    ensures
        out.success ==> r is Ok,
        !out.success ==> (r matches Err(GitError::CommandFailed(t)) && t@ == out.stderr@),
{
    git_done(out)
}

/// Reads the answer to `GitQuery::FetchNotes`.
pub fn fetch_notes(out: &ToolOutput) -> (r: Result<(), GitError>)
    ensures
        out.success ==> r is Ok,
        !out.success ==> (r matches Err(GitError::CommandFailed(t)) && t@ == out.stderr@),
{
    git_done(out)
}

/// `name` under the directory `dir`, as `Path::join` puts it.
pub open spec fn path_join(dir: Seq<char>, name: Seq<char>) -> Seq<char> {
    if dir.len() == 0 {
        name
    } else if dir.last() == '/' {
        dir + name
    } else {
        dir + seq!['/'] + name
    }
}

fn join_path(dir: &str, name: &str) -> (r: String)
    ensures
        r@ == path_join(dir@, name@),
{
    let d = chars_of(dir);
    let mut out = String::from_str(dir);
    if d.len() == 0 {
        return String::from_str(name);
    }
    if d[d.len() - 1] != '/' {
        proof {
            reveal_strlit("/");
        }
        out.append("/");
    }
    out.append(name);
    out
}

/// The control directory under the repository root `root`.
pub fn get_gip_dir(root: &str) -> (r: String)
    ensures
        r@ == path_join(root@, GIP_DIR_NAME@),
{
    join_path(root, GIP_DIR_NAME)
}

/// The manifest directory under the repository root `root`.
pub fn get_manifest_dir(root: &str) -> (r: String)
    ensures
        r@ == path_join(path_join(root@, GIP_DIR_NAME@), MANIFEST_DIR_NAME@),
{
    let g = get_gip_dir(root);
    join_path(g.as_str(), MANIFEST_DIR_NAME)
}

/// The ignore file with the control directory listed: none when the text
/// already mentions it; otherwise the text, a line break where it lacks a
/// final one, and the directory on a line of its own.
pub open spec fn ignore_with_gip(content: Seq<char>) -> Option<Seq<char>> {
    if contains(content, GIP_DIR_NAME@) {
        None
    } else if content.len() > 0 && content.last() != '\n' {
        Some(content + seq!['\n'] + GIP_DIR_NAME@ + seq!['\n'])
    } else {
        Some(content + GIP_DIR_NAME@ + seq!['\n'])
    }
}

/// The new text of the ignore file, or none when it needs no change.
pub fn gitignore_with_gip(content: &str) -> (r: Option<String>)
    ensures
        match ignore_with_gip(content@) {
            None => r is None,
            Some(t) => r matches Some(s) && s@ == t,
        },
{
    let v = chars_of(content);
    let name = chars_of(GIP_DIR_NAME);
    assert(v@.subrange(0, v@.len() as int) =~= v@);
    if contains_in(&v, 0, v.len(), &name) {
        return None;
    }
    proof {
        reveal_strlit("\n");
    }
    let mut out = String::from_str(content);
    if v.len() > 0 && v[v.len() - 1] != '\n' {
        out.append("\n");
    }
    out.append(GIP_DIR_NAME);
    out.append("\n");
    Some(out)
}

/// The conflicted files in the answer to `GitQuery::ConflictedFiles`: one
/// per line of the trimmed answer, each trimmed; none for an empty answer.
pub open spec fn conflicted_paths(answer: Seq<char>) -> Seq<Seq<char>> {
    if answer.len() == 0 {
        Seq::empty()
    } else {
        lines_of(answer).map_values(|l: Seq<char>| trim(l))
    }
}

/// Reads the answer to `GitQuery::ConflictedFiles`.
pub fn get_conflicted_files(out: &ToolOutput) -> (r: Result<Vec<String>, GitError>)
    ensures
        match answer(*out) {
            Ok(s) => r matches Ok(v) && strings(v) == conflicted_paths(s),
            Err(e) => r matches Err(GitError::CommandFailed(t)) && t@ == e,
        },
{
    match git_result(out) {
        Err(e) => Err(e),
        Ok(s) => {
            let (text, bounds) = crate::rewrite::split_lines(s.as_str());
            let mut v: Vec<String> = Vec::new();
            if text.len() == 0 {
                assert(strings(v) =~= conflicted_paths(s@));
                return Ok(v);
            }
            let ghost lines = lines_of(s@);
            let n = bounds.len();
            let mut k: usize = 0;
            while k < n
                invariant
                    n == bounds@.len() == lines.len(),
                    k <= n,
                    crate::resolver::bounds_ok(text@, bounds@),
                    crate::resolver::window_of(text@, bounds@, 0, n as int) == lines,
                    strings(v) == lines.take(k as int).map_values(|l: Seq<char>| trim(l)),
                decreases n - k,
            {
                let (a, b) = bounds[k];
                assert(lines[k as int] == text@.subrange(a as int, b as int));
                let line = copy_range(&text, a, b);
                let ls = string_from_chars(&line);
                let t = trimmed(ls.as_str());
                let ghost before = strings(v);
                v.push(t);
                assert(strings(v) =~= before.push(t@));
                assert(t@ == trim(lines[k as int]));
                assert(lines.take(k + 1).map_values(|l: Seq<char>| trim(l)) =~= lines.take(
                    k as int,
                ).map_values(|l: Seq<char>| trim(l)).push(trim(lines[k as int])));
                k = k + 1;
            }
            assert(lines.take(n as int) =~= lines);
            Ok(v)
        },
    }
}

} // verus!
