//! Checking the authoring file before a commit takes its manifest.
use vstd::prelude::*;
use crate::text::{chars_of, contains, contains_in, ranges_equal, trim, trim_range};

verus! {

/// The rationale that the template holds until someone writes one.
pub const PLACEHOLDER_RATIONALE: &'static str = "Describe your changes here";

/// The authoring file written where none exists, in compact notation.
pub const AUTHORING_TEMPLATE: &'static str = r#"; Gip Manifest Template
; This file describes the semantic intent of your changes.
; It is used to enrich merge conflicts with context.
;
; INSTRUCTIONS FOR LLM/AGENTS:
; 1. Analyze the code changes in the current commit.
; 2. Update the fields below to reflect the actual changes.
; 3. 'rationale' should explain WHY the change was made.
; 4. 'behaviorClass' options: feature, bugfix, refactor, perf, security, config.
; 5. 'changeType' options: add, modify, delete, rename.
; 6. Remove these instruction comments if desired, but keep the structure.

schemaVersion: "2.0"
commit: HEAD
entries[1]:
  - anchor:
      file: src/main.rs
      symbol: main
      hunkId: H#1
    changeType: modify
    rationale: Describe your changes here
    behaviorClass[1]: feature
    contract:
      preconditions[1]: none
      postconditions[1]: program_runs
      errorModel[1]: panic_on_error
"#;

/// Why an authoring file was refused.
#[derive(Debug, Clone, Copy, PartialEq, Eq, Structural)]
pub enum ValidationError {
    /// There is no authoring file; the template is to be written.
    Missing,
    /// The file is the template, unedited.
    Unchanged,
    /// The file still holds the placeholder rationale.
    Placeholder,
}

/// `s` with each `\r\n` turned into `\n`.
pub open spec fn unix_newlines(s: Seq<char>) -> Seq<char>
    decreases s.len(),
{
    if s.len() >= 2 && s[0] == '\r' && s[1] == '\n' {
        seq!['\n'] + unix_newlines(s.skip(2))
    } else if s.len() >= 1 {
        seq![s[0]] + unix_newlines(s.skip(1))
    } else {
        s
    }
}

/// The file is the template, up to line endings and surrounding white space.
pub open spec fn is_unedited(content: Seq<char>) -> bool {
    trim(unix_newlines(content)) == trim(unix_newlines(AUTHORING_TEMPLATE@))
}

/// The verdict on an authoring file (none when there is no file).
pub open spec fn verdict(content: Option<Seq<char>>) -> Result<(), ValidationError> {
    match content {
        None => Err(ValidationError::Missing),
        Some(c) => if is_unedited(c) {
            Err(ValidationError::Unchanged)
        } else if contains(c, PLACEHOLDER_RATIONALE@) {
            Err(ValidationError::Placeholder)
        } else {
            Ok(())
        },
    }
}

fn unix_chars(s: &str) -> (r: Vec<char>)
    ensures
        r@ == unix_newlines(s@),
{
    let v = chars_of(s);
    let n = v.len();
    let mut out: Vec<char> = Vec::new();
    let mut i: usize = 0;
    assert(v@.skip(0) =~= v@);
    while i < n
        invariant
            n == v@.len(),
            i <= n,
            unix_newlines(v@) == out@ + unix_newlines(v@.skip(i as int)),
        decreases n - i,
    {
        let ghost rest = v@.skip(i as int);
        if i + 1 < n && v[i] == '\r' && v[i + 1] == '\n' {
            assert(rest.skip(2) =~= v@.skip(i + 2));
            out.push('\n');
            assert(unix_newlines(v@) =~= out@ + unix_newlines(v@.skip(i + 2)));
            i = i + 2;
        } else {
            assert(rest.skip(1) =~= v@.skip(i + 1));
            assert(rest[0] == v@[i as int]);
            out.push(v[i]);
            assert(unix_newlines(v@) =~= out@ + unix_newlines(v@.skip(i + 1)));
            i = i + 1;
        }
    }
    assert(v@.skip(n as int) =~= Seq::<char>::empty());
    assert(out@ + Seq::<char>::empty() =~= out@);
    out
}

/// Checks the authoring file (none when there is no file): refused when it
/// is missing, when it is the template unedited (up to line endings and
/// surrounding white space), or when it still holds the placeholder
/// rationale anywhere, whatever else has been filled in.
pub fn validate_authoring(content: Option<&str>) -> (r: Result<(), ValidationError>)
    ensures
        r == verdict(
            match content {
                Some(c) => Some(c@),
                None => None,
            },
        ),
        content matches Some(c) && contains(c@, PLACEHOLDER_RATIONALE@) ==> r is Err,
{
    match content {
        None => Err(ValidationError::Missing),
        Some(c) => {
            let mine = unix_chars(c);
            let tmpl = unix_chars(AUTHORING_TEMPLATE);
            let (a0, a1) = trim_range(&mine, 0, mine.len());
            let (b0, b1) = trim_range(&tmpl, 0, tmpl.len());
            assert(mine@.subrange(0, mine@.len() as int) =~= mine@);
            assert(tmpl@.subrange(0, tmpl@.len() as int) =~= tmpl@);
            if ranges_equal(&mine, a0, a1, &tmpl, b0, b1) {
                return Err(ValidationError::Unchanged);
            }
            let raw = chars_of(c);
            let placeholder = chars_of(PLACEHOLDER_RATIONALE);
            assert(raw@.subrange(0, raw@.len() as int) =~= raw@);
            if contains_in(&raw, 0, raw.len(), &placeholder) {
                Err(ValidationError::Placeholder)
            } else {
                Ok(())
            }
        },
    }
}

} // verus!
