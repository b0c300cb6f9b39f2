//! The conflict rewriter: one forward pass over a conflicted file that
//! places an enrichment block after each ours-delimiter line and before each
//! end-delimiter line, leaving every input line as it was.
use vstd::prelude::*;
use crate::marker::{format_block, lemma_block_lines, marker_block, sentinel_text, CONTEXT_PREFIX};
use crate::resolver::{bounds_ok, resolve, resolve_in, window_of};
use crate::text::{chars_of, copy_range, starts_with, string_from_chars, trim, trim_range};
use crate::types::Manifest;

verus! {

/// Starts the ours side of a conflict region.
pub const OURS_MARKER: &'static str = "<<<<<<<";

/// Separates the two sides.
pub const SEPARATOR_MARKER: &'static str = "=======";

/// Ends the theirs side; the rest of its line names that side.
pub const THEIRS_MARKER: &'static str = ">>>>>>>";

/// The side label of the ours block.
pub const OURS_LABEL: &'static str = "HEAD";

pub const OURS_DESCRIPTION: &'static str = "Your changes";

pub const THEIRS_DESCRIPTION: &'static str = "Their changes";

/// Lines before an ours delimiter that the resolver sees.
pub const OURS_WINDOW: usize = 50;

/// Lines before an end delimiter that the resolver sees; wider, since the
/// conflict body stands between them and the anchor.
pub const THEIRS_WINDOW: usize = 100;

/// Where the pass stands.
#[derive(Clone, Copy, Debug, PartialEq, Eq, Structural)]
pub enum ScanState {
    Outside,
    InsideOurs,
    InsideTheirs,
}

/// The lines of `s`: split at each `\n`, the text after the last one
/// forming the last line (empty when `s` ends with `\n`).
pub open spec fn lines_of(s: Seq<char>) -> Seq<Seq<char>>
    decreases s.len(),
{
    if s.len() == 0 {
        seq![Seq::empty()]
    } else {
        let prev = lines_of(s.drop_last());
        if s.last() == '\n' {
            prev.push(Seq::empty())
        } else {
            prev.update(prev.len() - 1, prev.last().push(s.last()))
        }
    }
}

pub open spec fn step(st: ScanState, line: Seq<char>) -> ScanState {
    match st {
        ScanState::Outside => if starts_with(line, OURS_MARKER@) {
            ScanState::InsideOurs
        } else {
            ScanState::Outside
        },
        ScanState::InsideOurs => if starts_with(line, SEPARATOR_MARKER@) {
            ScanState::InsideTheirs
        } else {
            ScanState::InsideOurs
        },
        ScanState::InsideTheirs => if starts_with(line, THEIRS_MARKER@) {
            ScanState::Outside
        } else {
            ScanState::InsideTheirs
        },
    }
}

/// The state in which line `k` is read.
pub open spec fn state_before(lines: Seq<Seq<char>>, k: int) -> ScanState
    decreases k,
{
    if k <= 0 {
        ScanState::Outside
    } else {
        step(state_before(lines, k - 1), lines[k - 1])
    }
}

/// `s` without any number of leading copies of `token`.
pub open spec fn strip_leading(s: Seq<char>, token: Seq<char>) -> Seq<char>
    decreases s.len(),
{
    if token.len() > 0 && starts_with(s, token) {
        strip_leading(s.skip(token.len() as int), token)
    } else {
        s
    }
}

/// The side label on an end-delimiter line.
pub open spec fn end_label(line: Seq<char>) -> Seq<char> {
    trim(strip_leading(line, THEIRS_MARKER@))
}

pub open spec fn window_start(k: int, width: int) -> int {
    if k > width {
        k - width
    } else {
        0
    }
}

/// The block for `m`, placed for line `k`, whose window is the `width`
/// lines before it.
pub open spec fn block_for(
    lines: Seq<Seq<char>>,
    k: int,
    width: int,
    path: Seq<char>,
    side: Seq<char>,
    description: Seq<char>,
    m: Option<Manifest>,
) -> Seq<char> {
    match m {
        Some(m) => marker_block(
            side,
            description,
            m,
            resolve(m.entries@, path, Some(lines.subrange(window_start(k, width), k))),
        ),
        None => Seq::empty(),
    }
}

pub open spec fn opens(lines: Seq<Seq<char>>, k: int) -> bool {
    state_before(lines, k) == ScanState::Outside && starts_with(lines[k], OURS_MARKER@)
}

pub open spec fn closes(lines: Seq<Seq<char>>, k: int) -> bool {
    state_before(lines, k) == ScanState::InsideTheirs && starts_with(lines[k], THEIRS_MARKER@)
}

/// What comes before line `k` in the output.
pub open spec fn before_line(
    lines: Seq<Seq<char>>,
    k: int,
    path: Seq<char>,
    theirs: Option<Manifest>,
) -> Seq<char> {
    if closes(lines, k) {
        block_for(
            lines,
            k,
            THEIRS_WINDOW as int,
            path,
            end_label(lines[k]),
            THEIRS_DESCRIPTION@,
            theirs,
        )
    } else {
        Seq::empty()
    }
}

/// What comes after line `k` in the output: its line break, then the ours
/// block after an ours delimiter.
pub open spec fn after_line(
    lines: Seq<Seq<char>>,
    k: int,
    path: Seq<char>,
    ours: Option<Manifest>,
) -> Seq<char> {
    if opens(lines, k) {
        "\n"@ + block_for(
            lines,
            k,
            OURS_WINDOW as int,
            path,
            OURS_LABEL@,
            OURS_DESCRIPTION@,
            ours,
        )
    } else if k < lines.len() - 1 {
        "\n"@
    } else {
        Seq::empty()
    }
}

pub open spec fn piece(
    lines: Seq<Seq<char>>,
    k: int,
    path: Seq<char>,
    ours: Option<Manifest>,
    theirs: Option<Manifest>,
) -> Seq<char> {
    before_line(lines, k, path, theirs) + lines[k] + after_line(lines, k, path, ours)
}

/// The output for lines `0..k`.
pub open spec fn rewritten_upto(
    lines: Seq<Seq<char>>,
    k: int,
    path: Seq<char>,
    ours: Option<Manifest>,
    theirs: Option<Manifest>,
) -> Seq<char>
    decreases k,
{
    if k <= 0 {
        Seq::empty()
    } else {
        rewritten_upto(lines, k - 1, path, ours, theirs) + piece(lines, k - 1, path, ours, theirs)
    }
}

pub open spec fn has_ours_line(lines: Seq<Seq<char>>) -> bool {
    exists|k: int| 0 <= k < lines.len() && starts_with(#[trigger] lines[k], OURS_MARKER@)
}

pub open spec fn deref_opt(m: Option<&Manifest>) -> Option<Manifest> {
    match m {
        Some(x) => Some(*x),
        None => None,
    }
}

/// The rewritten text of a file, or none when it is to be left untouched.
pub open spec fn enriched(
    content: Seq<char>,
    path: Seq<char>,
    ours: Option<Manifest>,
    theirs: Option<Manifest>,
) -> Option<Seq<char>> {
    let lines = lines_of(content);
    if !has_ours_line(lines) || (ours is None && theirs is None) {
        None
    } else {
        Some(rewritten_upto(lines, lines.len() as int, path, ours, theirs))
    }
}

proof fn lemma_lines_nonempty(s: Seq<char>)
    ensures
        lines_of(s).len() >= 1,
    decreases s.len(),
{
    if s.len() > 0 {
        lemma_lines_nonempty(s.drop_last());
    }
}

/// The text as one buffer and the range of each of its lines.
pub(crate) fn split_lines(content: &str) -> (r: (Vec<char>, Vec<(usize, usize)>))
    ensures
        r.0@ == content@,
        bounds_ok(r.0@, r.1@),
        window_of(r.0@, r.1@, 0, r.1@.len() as int) == lines_of(content@),
{
    let text = chars_of(content);
    let n = text.len();
    let mut bounds: Vec<(usize, usize)> = Vec::new();
    let mut start: usize = 0;
    let mut i: usize = 0;
    assert(text@.take(0) =~= Seq::<char>::empty());
    assert(window_of(text@, bounds@, 0, 0).push(text@.subrange(0, 0)) =~= lines_of(
        text@.take(0),
    ));
    while i < n
        invariant
            n == text@.len(),
            start <= i <= n,
            bounds_ok(text@, bounds@),
            forall|t: int| 0 <= t < bounds@.len() ==> #[trigger] bounds@[t].1 <= start,
            window_of(text@, bounds@, 0, bounds@.len() as int).push(
                text@.subrange(start as int, i as int),
            ) == lines_of(text@.take(i as int)),
        decreases n - i,
    {
        let ghost w = window_of(text@, bounds@, 0, bounds@.len() as int);
        let ghost cur = text@.subrange(start as int, i as int);
        assert(text@.take(i + 1).drop_last() =~= text@.take(i as int));
        assert(text@.take(i + 1).last() == text@[i as int]);
        if text[i] == '\n' {
            bounds.push((start, i));
            proof {
                let w2 = window_of(text@, bounds@, 0, bounds@.len() as int);
                assert(w2 =~= w.push(cur));
                assert(text@.subrange(i + 1, i + 1) =~= Seq::<char>::empty());
                assert(w2.push(text@.subrange(i + 1, i + 1)) =~= lines_of(text@.take(i + 1)));
            }
            start = i + 1;
        } else {
            assert(text@.subrange(start as int, i + 1) =~= cur.push(text@[i as int]));
            assert(w.push(text@.subrange(start as int, i + 1)) =~= lines_of(text@.take(i + 1)));
        }
        i = i + 1;
    }
    let ghost w = window_of(text@, bounds@, 0, bounds@.len() as int);
    bounds.push((start, n));
    assert(text@.take(n as int) =~= text@);
    assert(window_of(text@, bounds@, 0, bounds@.len() as int) =~= w.push(
        text@.subrange(start as int, n as int),
    ));
    (text, bounds)
}

/// Whether `text[a..b]` starts with `prefix`.
fn range_starts_with(text: &Vec<char>, a: usize, b: usize, prefix: &Vec<char>) -> (r: bool)
    requires
        a <= b <= text.len(),
    ensures
        r == starts_with(text@.subrange(a as int, b as int), prefix@),
{
    let ghost s = text@.subrange(a as int, b as int);
    let m = prefix.len();
    if m > b - a {
        return false;
    }
    let mut j: usize = 0;
    while j < m
        invariant
            m == prefix@.len(),
            m <= b - a,
            a <= b <= text.len(),
            j <= m,
            s == text@.subrange(a as int, b as int),
            forall|t: int| 0 <= t < j ==> text@[a + t] == prefix@[t],
        decreases m - j,
    {
        if text[a + j] != prefix[j] {
            assert(s.take(m as int)[j as int] != prefix@[j as int]);
            return false;
        }
        j = j + 1;
    }
    assert(s.take(m as int) =~= prefix@);
    true
}

fn push_range(out: &mut Vec<char>, text: &Vec<char>, a: usize, b: usize)
    requires
        a <= b <= text.len(),
    ensures
        final(out)@ == old(out)@ + text@.subrange(a as int, b as int),
{
    let ghost start = out@;
    let mut i: usize = a;
    while i < b
        invariant
            a <= i <= b <= text.len(),
            out@ == start + text@.subrange(a as int, i as int),
        decreases b - i,
    {
        out.push(text[i]);
        assert(text@.subrange(a as int, i + 1) =~= text@.subrange(a as int, i as int).push(
            text@[i as int],
        ));
        i = i + 1;
    }
    assert(start + text@.subrange(a as int, a as int) =~= start);
}

fn push_str(out: &mut Vec<char>, s: &str)
    ensures
        final(out)@ == old(out)@ + s@,
{
    let cs = chars_of(s);
    push_range(out, &cs, 0, cs.len());
    assert(cs@.subrange(0, cs@.len() as int) =~= s@);
}

/// Start of what follows the leading copies of `token` in `text[a..b]`.
fn skip_tokens(text: &Vec<char>, a: usize, b: usize, token: &Vec<char>) -> (s: usize)
    requires
        a <= b <= text.len(),
        token@.len() > 0,
    ensures
        a <= s <= b,
        text@.subrange(s as int, b as int) == strip_leading(
            text@.subrange(a as int, b as int),
            token@,
        ),
{
    let mut s: usize = a;
    while range_starts_with(text, s, b, token)
        invariant
            a <= s <= b <= text.len(),
            token@.len() > 0,
            strip_leading(text@.subrange(a as int, b as int), token@) == strip_leading(
                text@.subrange(s as int, b as int),
                token@,
            ),
        decreases b - s,
    {
        assert(text@.subrange(s as int, b as int).skip(token@.len() as int) =~= text@.subrange(
            s + token@.len(),
            b as int,
        ));
        s = s + token.len();
    }
    s
}

/// The side label of the end-delimiter line `text[a..b]`.
fn label_of(text: &Vec<char>, a: usize, b: usize, token: &Vec<char>) -> (r: String)
    requires
        a <= b <= text.len(),
        token@ == THEIRS_MARKER@,
    ensures
        r@ == end_label(text@.subrange(a as int, b as int)),
{
    proof {
        reveal_strlit(">>>>>>>");
    }
    let s = skip_tokens(text, a, b, token);
    let (t0, t1) = trim_range(text, s, b);
    string_from_chars(&copy_range(text, t0, t1))
}

/// The block for an optional manifest, for the line at `k` whose window
/// starts at line `lo`.
fn block_chars(
    out: &mut Vec<char>,
    text: &Vec<char>,
    bounds: &Vec<(usize, usize)>,
    k: usize,
    lo: usize,
    path: &Vec<char>,
    side: &str,
    description: &str,
    m: Option<&Manifest>,
)
    requires
        lo <= k < bounds@.len(),
        bounds_ok(text@, bounds@),
    ensures
        final(out)@ == old(out)@ + match deref_opt(m) {
            Some(mm) => marker_block(
                side@,
                description@,
                mm,
                resolve(mm.entries@, path@, Some(window_of(text@, bounds@, lo as int, k as int))),
            ),
            None => Seq::empty(),
        },
{
    match m {
        Some(mm) => {
            let found = resolve_in(mm, path, Some((text, bounds)), lo, k);
            let b = format_block(side, description, mm, found);
            push_str(out, b.as_str());
        },
        None => {
            assert(old(out)@ + Seq::<char>::empty() =~= old(out)@);
        },
    }
}

/// Whether some line starts with the ours delimiter.
fn any_ours_line(text: &Vec<char>, bounds: &Vec<(usize, usize)>, ours_tok: &Vec<char>) -> (r: bool)
    requires
        bounds_ok(text@, bounds@),
        ours_tok@ == OURS_MARKER@,
    ensures
        r == has_ours_line(window_of(text@, bounds@, 0, bounds@.len() as int)),
{
    let ghost lines = window_of(text@, bounds@, 0, bounds@.len() as int);
    let n = bounds.len();
    let mut k: usize = 0;
    while k < n
        invariant
            n == bounds@.len(),
            k <= n,
            bounds_ok(text@, bounds@),
            lines == window_of(text@, bounds@, 0, bounds@.len() as int),
            ours_tok@ == OURS_MARKER@,
            forall|t: int| 0 <= t < k ==> !starts_with(#[trigger] lines[t], OURS_MARKER@),
        decreases n - k,
    {
        let (a, b) = bounds[k];
        assert(lines[k as int] == text@.subrange(a as int, b as int));
        if range_starts_with(text, a, b, ours_tok) {
            assert(starts_with(lines[k as int], OURS_MARKER@));
            return true;
        }
        k = k + 1;
    }
    false
}

/// Rewrites a conflicted file: each input line is kept as it is; after
/// a line that opens a conflict region comes the block of `ours`, before
/// the line that closes it the block of `theirs` under the label that line
/// carries. None, and the file is to be left untouched, when no line starts
/// with the ours delimiter or neither manifest is there.
pub fn enrich_text(
    content: &str,
    file_path: &str,
    ours: Option<&Manifest>,
    theirs: Option<&Manifest>,
) -> (r: Option<String>)
    ensures
        match enriched(content@, file_path@, deref_opt(ours), deref_opt(theirs)) {
            None => r is None,
            Some(t) => r matches Some(s) && s@ == t,
        },
{
    let (text, bounds) = split_lines(content);
    let ghost lines = lines_of(content@);
    let ours_tok = chars_of(OURS_MARKER);
    let sep_tok = chars_of(SEPARATOR_MARKER);
    let theirs_tok = chars_of(THEIRS_MARKER);
    if ours.is_none() && theirs.is_none() {
        return None;
    }
    if !any_ours_line(&text, &bounds, &ours_tok) {
        return None;
    }
    let path = chars_of(file_path);
    let n = bounds.len();
    proof {
        lemma_lines_nonempty(content@);
    }
    let mut out: Vec<char> = Vec::new();
    let mut state = ScanState::Outside;
    let mut k: usize = 0;
    while k < n
        invariant
            n == bounds@.len() == lines.len(),
            k <= n,
            bounds_ok(text@, bounds@),
            window_of(text@, bounds@, 0, n as int) == lines,
            ours_tok@ == OURS_MARKER@,
            sep_tok@ == SEPARATOR_MARKER@,
            theirs_tok@ == THEIRS_MARKER@,
            path@ == file_path@,
            state == state_before(lines, k as int),
            out@ == rewritten_upto(
                lines,
                k as int,
                file_path@,
                deref_opt(ours),
                deref_opt(theirs),
            ),
        decreases n - k,
    {
        let ghost prev = out@;
        let (a, b) = bounds[k];
        assert(lines[k as int] == text@.subrange(a as int, b as int));
        let is_ours = range_starts_with(&text, a, b, &ours_tok);
        let is_sep = range_starts_with(&text, a, b, &sep_tok);
        let is_end = range_starts_with(&text, a, b, &theirs_tok);
        let opening = state == ScanState::Outside && is_ours;
        let closing = state == ScanState::InsideTheirs && is_end;
        if closing {
            let label = label_of(&text, a, b, &theirs_tok);
            let label_str = label.as_str();
            let lo = if k > THEIRS_WINDOW {
                k - THEIRS_WINDOW
            } else {
                0
            };
            block_chars(
                &mut out,
                &text,
                &bounds,
                k,
                lo,
                &path,
                label_str,
                THEIRS_DESCRIPTION,
                theirs,
            );
            assert(window_of(text@, bounds@, lo as int, k as int) =~= lines.subrange(
                window_start(k as int, THEIRS_WINDOW as int),
                k as int,
            ));
            assert(out@ =~= prev + block_for(
                lines,
                k as int,
                THEIRS_WINDOW as int,
                file_path@,
                end_label(lines[k as int]),
                THEIRS_DESCRIPTION@,
                deref_opt(theirs),
            ));
        }
        assert(closing == closes(lines, k as int));
        assert(out@ =~= prev + before_line(lines, k as int, file_path@, deref_opt(theirs)));
        push_range(&mut out, &text, a, b);
        if opening {
            out.push('\n');
            let lo = if k > OURS_WINDOW {
                k - OURS_WINDOW
            } else {
                0
            };
            block_chars(
                &mut out,
                &text,
                &bounds,
                k,
                lo,
                &path,
                OURS_LABEL,
                OURS_DESCRIPTION,
                ours,
            );
            assert(window_of(text@, bounds@, lo as int, k as int) =~= lines.subrange(
                lo as int,
                k as int,
            ));
            proof {
                reveal_strlit("\n");
            }
        } else if k + 1 < n {
            out.push('\n');
            proof {
                reveal_strlit("\n");
            }
        }
        assert(out@ =~= prev + piece(lines, k as int, file_path@, deref_opt(ours), deref_opt(theirs)));
        state = if state == ScanState::Outside {
            if is_ours {
                ScanState::InsideOurs
            } else {
                ScanState::Outside
            }
        } else if state == ScanState::InsideOurs {
            if is_sep {
                ScanState::InsideTheirs
            } else {
                ScanState::InsideOurs
            }
        } else if is_end {
            ScanState::Outside
        } else {
            ScanState::InsideTheirs
        };
        k = k + 1;
    }
    Some(string_from_chars(&out))
}

/// A file in which no line starts with the ours delimiter, or for which
/// neither manifest is there, is left untouched.
pub proof fn lemma_rewrite_untouched(
    content: Seq<char>,
    path: Seq<char>,
    ours: Option<Manifest>,
    theirs: Option<Manifest>,
)
    requires
        !has_ours_line(lines_of(content)) || (ours is None && theirs is None),
    ensures
        enriched(content, path, ours, theirs) is None,
{
}

/// `s` read from a line start (`at_start`) or from inside a line that is
/// being dropped (`dropping`), without the lines that start with the
/// sentinel.
pub open spec fn strip_from(s: Seq<char>, at_start: bool, dropping: bool) -> Seq<char>
    decreases s.len(),
{
    if s.len() == 0 {
        s
    } else {
        let drop = if at_start {
            starts_with(s, CONTEXT_PREFIX@)
        } else {
            dropping
        };
        (if drop {
            Seq::empty()
        } else {
            seq![s[0]]
        }) + strip_from(s.drop_first(), s[0] == '\n', drop)
    }
}

/// `s` without its enrichment lines: every line that starts with the
/// sentinel, line break included.
pub open spec fn strip_blocks(s: Seq<char>) -> Seq<char> {
    strip_from(s, true, false)
}

/// The input text rebuilt from its lines: each but the last followed by a
/// line break.
pub open spec fn plain_upto(lines: Seq<Seq<char>>, k: int) -> Seq<char>
    decreases k,
{
    if k <= 0 {
        Seq::empty()
    } else {
        plain_upto(lines, k - 1) + lines[k - 1] + if k - 1 < lines.len() - 1 {
            seq!['\n']
        } else {
            Seq::empty()
        }
    }
}

proof fn lemma_strip_split(a: Seq<char>, b: Seq<char>, st: bool, d: bool)
    requires
        a.len() > 0,
        a.last() == '\n',
    ensures
        strip_from(a + b, st, d) == strip_from(a, st, d) + strip_blocks(b),
    decreases a.len(),
{
    let s = a + b;
    assert(s[0] == a[0]);
    let drop = if st {
        starts_with(s, CONTEXT_PREFIX@)
    } else {
        d
    };
    let drop_a = if st {
        starts_with(a, CONTEXT_PREFIX@)
    } else {
        d
    };
    if st {
        lemma_prefix_start(a, b);
    }
    assert(drop == drop_a);
    let head: Seq<char> = if drop {
        Seq::empty()
    } else {
        seq![a[0]]
    };
    assert(strip_from(s, st, d) == head + strip_from(s.drop_first(), a[0] == '\n', drop));
    assert(strip_from(a, st, d) == head + strip_from(a.drop_first(), a[0] == '\n', drop));
    if a.len() == 1 {
        assert(s.drop_first() =~= b);
        assert(a.drop_first() =~= Seq::<char>::empty());
        assert(strip_from(a.drop_first(), a[0] == '\n', drop) == Seq::<char>::empty());
        assert(strip_from(b, true, drop) == strip_blocks(b));
    } else {
        assert(s.drop_first() =~= a.drop_first() + b);
        lemma_strip_split(a.drop_first(), b, a[0] == '\n', drop);
    }
    assert(strip_from(s, st, d) =~= strip_from(a, st, d) + strip_blocks(b));
}

/// Whether `a + b` starts with the sentinel is settled by `a` when `a`
/// holds a line break.
proof fn lemma_prefix_start(a: Seq<char>, b: Seq<char>)
    requires
        a.len() > 0,
        a.last() == '\n',
    ensures
        starts_with(a + b, CONTEXT_PREFIX@) == starts_with(a, CONTEXT_PREFIX@),
{
    crate::marker::lemma_prefix_chars();
    let s = a + b;
    if a.len() >= 4 {
        assert(s.take(4) =~= a.take(4));
    } else if s.len() >= 4 {
        assert(s.take(4)[a.len() - 1] == '\n');
    }
}

proof fn lemma_strip_sentinel(s: Seq<char>, st: bool, d: bool)
    requires
        st ==> (s.len() == 0 || starts_with(s, CONTEXT_PREFIX@)),
        !st ==> d,
        forall|j: int|
            #![trigger s[j]]
            0 <= j < s.len() - 1 && s[j] == '\n' ==> starts_with(s.skip(j + 1), CONTEXT_PREFIX@),
    ensures
        strip_from(s, st, d) == Seq::<char>::empty(),
    decreases s.len(),
{
    if s.len() > 0 {
        let t = s.drop_first();
        assert forall|j: int| #![trigger t[j]] 0 <= j < t.len() - 1 && t[j] == '\n' implies starts_with(
            t.skip(j + 1),
            CONTEXT_PREFIX@,
        ) by {
            assert(s[j + 1] == '\n');
            assert(t.skip(j + 1) =~= s.skip(j + 2));
        }
        if s[0] == '\n' && t.len() > 0 {
            assert(t =~= s.skip(1));
        }
        lemma_strip_sentinel(t, s[0] == '\n', true);
        assert(strip_from(s, st, d) =~= Seq::<char>::empty());
    }
}

proof fn lemma_strip_block(blk: Seq<char>)
    requires
        sentinel_text(blk),
    ensures
        strip_blocks(blk) == Seq::<char>::empty(),
{
    lemma_strip_sentinel(blk, true, false);
}

/// A line that holds no line break and does not start with the sentinel
/// survives, with or without its line break.
proof fn lemma_strip_plain(l: Seq<char>, t: Seq<char>, st: bool, d: bool)
    requires
        forall|j: int| 0 <= j < l.len() ==> l[j] != '\n',
        t == Seq::<char>::empty() || t == seq!['\n'],
        st ==> !starts_with(l + t, CONTEXT_PREFIX@),
        !st ==> !d,
    ensures
        strip_from(l + t, st, d) == l + t,
    decreases l.len(),
{
    crate::marker::lemma_prefix_chars();
    let s = l + t;
    if l.len() == 0 {
        assert(s =~= t);
        if t.len() > 0 {
            assert(s.drop_first() =~= Seq::<char>::empty());
            assert(!starts_with(s, CONTEXT_PREFIX@));
            assert(strip_from(s.drop_first(), true, false) == Seq::<char>::empty());
            assert(strip_from(s, st, d) == seq![s[0]] + strip_from(s.drop_first(), true, false));
            assert(strip_from(s, st, d) =~= s);
        }
    } else {
        assert(s.drop_first() =~= l.drop_first() + t);
        lemma_strip_plain(l.drop_first(), t, false, false);
        assert(strip_from(s, st, d) =~= s);
    }
}

proof fn lemma_lines_plain(s: Seq<char>)
    ensures
        forall|k: int, j: int|
            0 <= k < lines_of(s).len() && 0 <= j < lines_of(s)[k].len() ==> #[trigger] lines_of(
                s,
            )[k][j] != '\n',
    decreases s.len(),
{
    if s.len() > 0 {
        lemma_lines_plain(s.drop_last());
        lemma_lines_nonempty(s.drop_last());
    }
}

proof fn lemma_plain_same(l1: Seq<Seq<char>>, l2: Seq<Seq<char>>, k: int)
    requires
        0 <= k < l1.len(),
        k < l2.len(),
        forall|i: int| 0 <= i < k ==> l1[i] == l2[i],
    ensures
        plain_upto(l1, k) == plain_upto(l2, k),
    decreases k,
{
    if k > 0 {
        lemma_plain_same(l1, l2, k - 1);
    }
}

/// The lines of `s`, rebuilt, give `s` back.
proof fn lemma_plain_lines(s: Seq<char>)
    ensures
        plain_upto(lines_of(s), lines_of(s).len() as int) == s,
    decreases s.len(),
{
    reveal_strlit("\n");
    if s.len() == 0 {
        assert(lines_of(s) == seq![Seq::<char>::empty()]);
        assert(plain_upto(lines_of(s), 0) == Seq::<char>::empty());
        assert(plain_upto(lines_of(s), 1) =~= s);
    } else {
        let s0 = s.drop_last();
        let l0 = lines_of(s0);
        lemma_lines_nonempty(s0);
        lemma_plain_lines(s0);
        let n0 = l0.len() as int;
        let l = lines_of(s);
        if s.last() == '\n' {
            assert(l == l0.push(Seq::empty()));
            lemma_plain_same(l, l0, n0 - 1);
            assert(plain_upto(l, n0) =~= plain_upto(l0, n0 - 1) + l0[n0 - 1] + seq!['\n']);
            assert(plain_upto(l, n0 + 1) =~= plain_upto(l, n0));
            assert(s =~= s0 + seq!['\n']);
        } else {
            lemma_plain_same(l, l0, n0 - 1);
            assert(plain_upto(l, n0) =~= plain_upto(l0, n0 - 1) + l0[n0 - 1] + seq![s.last()]);
            assert(s =~= s0.push(s.last()));
        }
    }
}

/// Deleting every line that starts with the sentinel from a rewritten file
/// gives back the input exactly, when no input line already starts with it
/// and the last input line does not open a conflict region (as when the
/// file ends with a line break).
pub proof fn lemma_rewrite_strippable(
    content: Seq<char>,
    path: Seq<char>,
    ours: Option<Manifest>,
    theirs: Option<Manifest>,
)
    requires
        enriched(content, path, ours, theirs) is Some,
        forall|k: int|
            0 <= k < lines_of(content).len() ==> !starts_with(
                #[trigger] lines_of(content)[k],
                CONTEXT_PREFIX@,
            ),
        !opens(lines_of(content), lines_of(content).len() - 1),
    ensures
        enriched(content, path, ours, theirs) matches Some(t) && strip_blocks(t) == content,
{
    assert(strippable(lines_of(content))) by {
        lemma_lines_plain(content);
    }
    let lines = lines_of(content);
    let n = lines.len() as int;
    lemma_lines_nonempty(content);
    lemma_lines_plain(content);
    lemma_plain_lines(content);
    lemma_strip_upto(lines, n, path, ours, theirs);
}

proof fn lemma_block_for(
    lines: Seq<Seq<char>>,
    k: int,
    width: int,
    path: Seq<char>,
    side: Seq<char>,
    description: Seq<char>,
    m: Option<Manifest>,
)
    ensures
        sentinel_text(block_for(lines, k, width, path, side, description, m)),
{
    if let Some(mm) = m {
        lemma_block_lines(
            side,
            description,
            mm,
            resolve(mm.entries@, path, Some(lines.subrange(window_start(k, width), k))),
        );
    }
}

/// The requirements on the input lines under which stripping restores it.
pub open spec fn strippable(lines: Seq<Seq<char>>) -> bool {
    &&& forall|i: int| 0 <= i < lines.len() ==> !starts_with(#[trigger] lines[i], CONTEXT_PREFIX@)
    &&& forall|i: int, j: int|
        0 <= i < lines.len() && 0 <= j < lines[i].len() ==> #[trigger] lines[i][j] != '\n'
    &&& !opens(lines, lines.len() - 1)
}

pub open spec fn line_break(lines: Seq<Seq<char>>, i: int) -> Seq<char> {
    if i < lines.len() - 1 {
        seq!['\n']
    } else {
        Seq::empty()
    }
}

proof fn lemma_line_survives(lines: Seq<Seq<char>>, i: int)
    requires
        0 <= i < lines.len(),
        strippable(lines),
    ensures
        strip_blocks(lines[i] + line_break(lines, i)) == lines[i] + line_break(lines, i),
{
    reveal_strlit("\n");
    let line = lines[i];
    let nl = line_break(lines, i);
    assert(forall|j: int| 0 <= j < line.len() ==> line[j] != '\n');
    let lt = line + nl;
    assert(!starts_with(lt, CONTEXT_PREFIX@)) by {
        crate::marker::lemma_prefix_chars();
        assert(!starts_with(line, CONTEXT_PREFIX@));
        if line.len() < 4 && lt.len() >= 4 {
            assert(lt.take(4)[line.len() as int] == '\n');
        } else if line.len() >= 4 {
            assert(lt.take(4) =~= line.take(4));
        }
    }
    lemma_strip_plain(line, nl, true, false);
}

proof fn lemma_strip_after(
    lines: Seq<Seq<char>>,
    i: int,
    path: Seq<char>,
    ours: Option<Manifest>,
)
    requires
        0 <= i < lines.len(),
        strippable(lines),
    ensures
        strip_blocks(lines[i] + after_line(lines, i, path, ours)) == lines[i] + line_break(lines, i),
        i < lines.len() - 1 ==> (lines[i] + after_line(lines, i, path, ours)).len() > 0 && (lines[i]
            + after_line(lines, i, path, ours)).last() == '\n',
{
    reveal_strlit("\n");
    let line = lines[i];
    let aft = after_line(lines, i, path, ours);
    let lt = line + line_break(lines, i);
    lemma_line_survives(lines, i);
    let blk = block_for(lines, i, OURS_WINDOW as int, path, OURS_LABEL@, OURS_DESCRIPTION@, ours);
    if opens(lines, i) {
        lemma_block_for(lines, i, OURS_WINDOW as int, path, OURS_LABEL@, OURS_DESCRIPTION@, ours);
        assert(i < lines.len() - 1);
        assert(aft == seq!['\n'] + blk);
        assert(line + aft =~= lt + blk);
        lemma_strip_block(blk);
        lemma_strip_split(lt, blk, true, false);
        assert(strip_blocks(line + aft) =~= lt);
        if blk.len() > 0 {
            assert((line + aft).last() == blk.last());
        } else {
            assert((line + aft).last() == '\n');
        }
    } else {
        assert(aft == line_break(lines, i));
    }
}

proof fn lemma_strip_piece(
    lines: Seq<Seq<char>>,
    i: int,
    path: Seq<char>,
    ours: Option<Manifest>,
    theirs: Option<Manifest>,
)
    requires
        0 <= i < lines.len(),
        strippable(lines),
    ensures
        strip_blocks(piece(lines, i, path, ours, theirs)) == lines[i] + line_break(lines, i),
        i < lines.len() - 1 ==> piece(lines, i, path, ours, theirs).len() > 0 && piece(
            lines,
            i,
            path,
            ours,
            theirs,
        ).last() == '\n',
{
    let la = lines[i] + after_line(lines, i, path, ours);
    let bef = before_line(lines, i, path, theirs);
    let p = piece(lines, i, path, ours, theirs);
    lemma_strip_after(lines, i, path, ours);
    assert(p =~= bef + la);
    if bef.len() > 0 {
        lemma_block_for(
            lines,
            i,
            THEIRS_WINDOW as int,
            path,
            end_label(lines[i]),
            THEIRS_DESCRIPTION@,
            theirs,
        );
        lemma_strip_block(bef);
        lemma_strip_split(bef, la, true, false);
    } else {
        assert(p =~= la);
    }
    if i < lines.len() - 1 {
        assert(p.last() == la.last());
    }
}

proof fn lemma_strip_upto(
    lines: Seq<Seq<char>>,
    k: int,
    path: Seq<char>,
    ours: Option<Manifest>,
    theirs: Option<Manifest>,
)
    requires
        0 <= k <= lines.len(),
        strippable(lines),
    ensures
        strip_blocks(rewritten_upto(lines, k, path, ours, theirs)) == plain_upto(lines, k),
        k >= 1 && k - 1 < lines.len() - 1 ==> rewritten_upto(lines, k, path, ours, theirs).len() > 0
            && rewritten_upto(lines, k, path, ours, theirs).last() == '\n',
    decreases k,
{
    if k > 0 {
        lemma_strip_upto(lines, k - 1, path, ours, theirs);
        let r = rewritten_upto(lines, k - 1, path, ours, theirs);
        let p = piece(lines, k - 1, path, ours, theirs);
        lemma_strip_piece(lines, k - 1, path, ours, theirs);
        if k - 1 >= 1 {
            lemma_strip_split(r, p, true, false);
        } else {
            assert(r + p =~= p);
        }
        assert(plain_upto(lines, k) == plain_upto(lines, k - 1) + lines[k - 1] + line_break(
            lines,
            k - 1,
        ));
        assert(strip_blocks(r + p) =~= plain_upto(lines, k));
        if k - 1 < lines.len() - 1 {
            assert((r + p).last() == p.last());
        }
    }
}

proof fn lemma_prefix(
    lines: Seq<Seq<char>>,
    m: int,
    n: int,
    path: Seq<char>,
    ours: Option<Manifest>,
    theirs: Option<Manifest>,
)
    requires
        0 <= m <= n,
    ensures
        rewritten_upto(lines, m, path, ours, theirs).len() <= rewritten_upto(
            lines,
            n,
            path,
            ours,
            theirs,
        ).len(),
        rewritten_upto(lines, n, path, ours, theirs).subrange(
            0,
            rewritten_upto(lines, m, path, ours, theirs).len() as int,
        ) == rewritten_upto(lines, m, path, ours, theirs),
    decreases n - m,
{
    let rm = rewritten_upto(lines, m, path, ours, theirs);
    if m == n {
        assert(rm.subrange(0, rm.len() as int) =~= rm);
    } else {
        lemma_prefix(lines, m, n - 1, path, ours, theirs);
        let prev = rewritten_upto(lines, n - 1, path, ours, theirs);
        let rn = rewritten_upto(lines, n, path, ours, theirs);
        assert(rn == prev + piece(lines, n - 1, path, ours, theirs));
        assert(rn.subrange(0, rm.len() as int) =~= prev.subrange(0, rm.len() as int));
    }
}

/// Every line of a rewritten file, each delimiter line with its label
/// included, stands unchanged in the output as a whole line, in input
/// order: line `k` follows the output for the lines before it and the block
/// placed before it; a line break (or the start of the text) precedes it,
/// and a line break (or the end of the text) follows it.
pub proof fn lemma_rewrite_keeps_lines(
    content: Seq<char>,
    path: Seq<char>,
    ours: Option<Manifest>,
    theirs: Option<Manifest>,
    k: int,
)
    requires
        enriched(content, path, ours, theirs) is Some,
        0 <= k < lines_of(content).len(),
    ensures
        ({
            let lines = lines_of(content);
            let at = (rewritten_upto(lines, k, path, ours, theirs).len() + before_line(
                lines,
                k,
                path,
                theirs,
            ).len()) as int;
            let end = at + lines[k].len();
            enriched(content, path, ours, theirs) matches Some(t) && t.subrange(at, end)
                == lines[k] && (at == 0 || t[at - 1] == '\n') && (end == t.len() || t[end]
                == '\n')
        }),
{
    reveal_strlit("\n");
    let lines = lines_of(content);
    let n = lines.len() as int;
    let before = rewritten_upto(lines, k, path, ours, theirs);
    let b = before_line(lines, k, path, theirs);
    let upto = rewritten_upto(lines, k + 1, path, ours, theirs);
    let all = rewritten_upto(lines, n, path, ours, theirs);
    lemma_prefix(lines, k + 1, n, path, ours, theirs);
    assert(upto == before + piece(lines, k, path, ours, theirs));
    let at = (before.len() + b.len()) as int;
    assert(upto.subrange(at, at + lines[k].len()) =~= lines[k]);
    assert(all.subrange(at, at + lines[k].len()) =~= upto.subrange(at, at + lines[k].len()));
    let end = at + lines[k].len();
    let p = piece(lines, k, path, ours, theirs);
    let aft = after_line(lines, k, path, ours);
    assert(p == b + lines[k] + aft);
    assert(upto.len() <= all.len());
    if b.len() > 0 {
        lemma_block_for(
            lines,
            k,
            THEIRS_WINDOW as int,
            path,
            end_label(lines[k]),
            THEIRS_DESCRIPTION@,
            theirs,
        );
        assert(all[at - 1] == upto[at - 1]);
        assert(upto[at - 1] == b.last());
    } else if k > 0 {
        lemma_piece_ends(lines, k - 1, path, ours, theirs);
        assert(before == rewritten_upto(lines, k - 1, path, ours, theirs) + piece(
            lines,
            k - 1,
            path,
            ours,
            theirs,
        ));
        assert(all[at - 1] == upto[at - 1]);
        assert(upto[at - 1] == before.last());
    }
    if aft.len() > 0 {
        assert(aft[0] == '\n');
        assert(all[end] == upto[end]);
        assert(upto[end] == aft[0]);
    } else {
        assert(k == n - 1);
        assert(upto.len() == end);
        assert(all =~= upto);
    }
}

/// Beside each delimiter line the output holds its block: right before a
/// line that closes a conflict region stands the block of `theirs`, whose
/// header names the label on that line; right after a line that opens one
/// come a line break and the block of `ours`, whose header names `HEAD`.
pub proof fn lemma_blocks_beside_delimiters(
    content: Seq<char>,
    path: Seq<char>,
    ours: Option<Manifest>,
    theirs: Option<Manifest>,
    k: int,
)
    requires
        enriched(content, path, ours, theirs) is Some,
        0 <= k < lines_of(content).len(),
    ensures
        ({
            let lines = lines_of(content);
            let b = before_line(lines, k, path, theirs);
            let at = (rewritten_upto(lines, k, path, ours, theirs).len() + b.len()) as int;
            let end = at + lines[k].len();
            let a = after_line(lines, k, path, ours);
            enriched(content, path, ours, theirs) matches Some(t) && t.subrange(at - b.len(), at)
                == b && t.subrange(end, end + a.len()) == a && (closes(lines, k) ==> b
                == block_for(
                lines,
                k,
                THEIRS_WINDOW as int,
                path,
                end_label(lines[k]),
                THEIRS_DESCRIPTION@,
                theirs,
            )) && (opens(lines, k) ==> a == "\n"@ + block_for(
                lines,
                k,
                OURS_WINDOW as int,
                path,
                OURS_LABEL@,
                OURS_DESCRIPTION@,
                ours,
            ))
        }),
{
    let lines = lines_of(content);
    let n = lines.len() as int;
    let r = rewritten_upto(lines, k, path, ours, theirs);
    let b = before_line(lines, k, path, theirs);
    let a = after_line(lines, k, path, ours);
    let upto = rewritten_upto(lines, k + 1, path, ours, theirs);
    let all = rewritten_upto(lines, n, path, ours, theirs);
    lemma_prefix(lines, k + 1, n, path, ours, theirs);
    assert(upto == r + piece(lines, k, path, ours, theirs));
    assert(upto =~= r + b + lines[k] + a);
    let at = (r.len() + b.len()) as int;
    let end = at + lines[k].len();
    assert(upto.subrange(at - b.len(), at) =~= b);
    assert(upto.subrange(end, end + a.len()) =~= a);
    assert(all.subrange(at - b.len(), at) =~= upto.subrange(at - b.len(), at));
    assert(all.subrange(end, end + a.len()) =~= upto.subrange(end, end + a.len()));
}

proof fn lemma_piece_ends(
    lines: Seq<Seq<char>>,
    i: int,
    path: Seq<char>,
    ours: Option<Manifest>,
    theirs: Option<Manifest>,
)
    requires
        0 <= i < lines.len() - 1,
    ensures
        piece(lines, i, path, ours, theirs).len() > 0,
        piece(lines, i, path, ours, theirs).last() == '\n',
{
    reveal_strlit("\n");
    let p = piece(lines, i, path, ours, theirs);
    let aft = after_line(lines, i, path, ours);
    let blk = block_for(lines, i, OURS_WINDOW as int, path, OURS_LABEL@, OURS_DESCRIPTION@, ours);
    lemma_block_for(lines, i, OURS_WINDOW as int, path, OURS_LABEL@, OURS_DESCRIPTION@, ours);
    assert(p == before_line(lines, i, path, theirs) + lines[i] + aft);
    if opens(lines, i) {
        assert(aft == seq!['\n'] + blk);
        if blk.len() > 0 {
            assert(aft.last() == blk.last());
        }
    } else {
        assert(aft == seq!['\n']);
    }
    assert(p.last() == aft.last());
}

/// A file found in a conflicted state: its repository-relative path and,
/// where it could be read, its text.
pub struct ConflictedFile {
    pub path: String,
    pub content: Option<String>,
}

/// What the rewriter makes of one conflicted file.
pub open spec fn file_outcome(
    f: ConflictedFile,
    ours: Option<Manifest>,
    theirs: Option<Manifest>,
) -> Option<Seq<char>> {
    match f.content {
        Some(c) => enriched(c@, f.path@, ours, theirs),
        None => None,
    }
}

/// How many of `rs` hold a rewritten text.
pub open spec fn count_rewritten(rs: Seq<Option<String>>) -> nat
    decreases rs.len(),
{
    if rs.len() == 0 {
        0
    } else {
        count_rewritten(rs.drop_last()) + if rs.last() is Some {
            1nat
        } else {
            0nat
        }
    }
}

proof fn lemma_count_bound(rs: Seq<Option<String>>)
    ensures
        count_rewritten(rs) <= rs.len(),
    decreases rs.len(),
{
    if rs.len() > 0 {
        lemma_count_bound(rs.drop_last());
    }
}

/// Rewrites every conflicted file with the manifests of the two sides: for
/// each file its new text, or none where it is to be left untouched (it
/// could not be read, has no conflict region, or neither manifest is
/// there); and how many files were rewritten.
pub fn enrich_all_conflicts(
    files: &Vec<ConflictedFile>,
    ours: Option<&Manifest>,
    theirs: Option<&Manifest>,
) -> (r: (Vec<Option<String>>, usize))
    ensures
        r.0@.len() == files@.len(),
        forall|i: int|
            0 <= i < files@.len() ==> match file_outcome(
                #[trigger] files@[i],
                deref_opt(ours),
                deref_opt(theirs),
            ) {
                None => r.0@[i] is None,
                Some(t) => r.0@[i] matches Some(s) && s@ == t,
            },
        r.1 == count_rewritten(r.0@),
{
    let mut outs: Vec<Option<String>> = Vec::new();
    let mut count: usize = 0;
    let n = files.len();
    let mut i: usize = 0;
    while i < n
        invariant
            n == files@.len(),
            i <= n,
            outs@.len() == i,
            count == count_rewritten(outs@),
            forall|j: int|
                0 <= j < i ==> match file_outcome(
                    #[trigger] files@[j],
                    deref_opt(ours),
                    deref_opt(theirs),
                ) {
                    None => outs@[j] is None,
                    Some(t) => outs@[j] matches Some(s) && s@ == t,
                },
        decreases n - i,
    {
        let f = &files[i];
        let o = match &f.content {
            Some(c) => enrich_text(c.as_str(), f.path.as_str(), ours, theirs),
            None => None,
        };
        proof {
            lemma_count_bound(outs@);
        }
        let ghost before = outs@;
        let hit = o.is_some();
        outs.push(o);
        assert(outs@.drop_last() =~= before);
        if hit {
            count = count + 1;
        }
        i = i + 1;
    }
    (outs, count)
}

} // verus!
