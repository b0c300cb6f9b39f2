//! Picking the manifest entry that best explains one side of a conflict.
//!
//! Lines are held as ranges of one character buffer: `bounds[k]` is the
//! start and end of line `k` in `text`.
use vstd::prelude::*;
use crate::text::{chars_of, contains, contains_in, count_leading_ws, leading_ws, ranges_equal};
use crate::types::{Entry, Manifest};

verus! {

/// `p` after its last `/` (all of `p` when it has none).
pub open spec fn after_last_slash(p: Seq<char>) -> Seq<char>
    decreases p.len(),
{
    if p.len() == 0 {
        p
    } else if p.last() == '/' {
        Seq::empty()
    } else {
        after_last_slash(p.drop_last()).push(p.last())
    }
}

/// The base name of a `/`-separated path, read as `Path::file_name` reads
/// it: empty and `.` components are skipped (trailing separators among
/// them); there is none when no component is left or the last one is `..`;
/// otherwise it is the last component.
pub open spec fn base_name(p: Seq<char>) -> Option<Seq<char>>
    decreases p.len(),
{
    let seg = after_last_slash(p);
    let k = p.len() - seg.len() - 1;
    if seg.len() == 0 || seg == seq!['.'] {
        if 0 <= k < p.len() {
            base_name(p.take(k))
        } else {
            None
        }
    } else if seg == seq!['.', '.'] {
        None
    } else {
        Some(seg)
    }
}

/// An entry anchored to `path`, or to a file of the same base name.
pub open spec fn on_file(e: Entry, path: Seq<char>) -> bool {
    e.anchor.file@ == path || (base_name(path) is Some && base_name(e.anchor.file@) == base_name(
        path,
    ))
}

/// Indices of the entries anchored to `path`, in manifest order.
pub open spec fn candidates(entries: Seq<Entry>, path: Seq<char>) -> Seq<int>
    decreases entries.len(),
{
    if entries.len() == 0 {
        Seq::empty()
    } else {
        let prev = candidates(entries.drop_last(), path);
        if on_file(entries.last(), path) {
            prev.push(entries.len() - 1)
        } else {
            prev
        }
    }
}

/// The first of `cands` whose symbol occurs in `line`.
pub open spec fn first_mention(line: Seq<char>, entries: Seq<Entry>, cands: Seq<int>) -> Option<
    int,
>
    decreases cands.len(),
{
    if cands.len() == 0 {
        None
    } else if contains(line, entries[cands[0]].anchor.symbol@) {
        Some(cands[0])
    } else {
        first_mention(line, entries, cands.drop_first())
    }
}

/// Scanning `lines[k..]` from the last line back to line `k`: the entry
/// mentioned on the least indented line, with that indentation. A line
/// replaces the one held only when it is strictly less indented, so among
/// equally indented lines the one nearest the end wins.
pub open spec fn shallowest_from(
    lines: Seq<Seq<char>>,
    entries: Seq<Entry>,
    cands: Seq<int>,
    k: int,
) -> Option<(int, nat)>
    decreases lines.len() - k,
{
    if k < 0 || k >= lines.len() {
        None
    } else {
        let rest = shallowest_from(lines, entries, cands, k + 1);
        match first_mention(lines[k], entries, cands) {
            None => rest,
            Some(e) => match rest {
                Some((_, d)) if d <= leading_ws(lines[k]) => rest,
                _ => Some((e, leading_ws(lines[k]))),
            },
        }
    }
}

/// The entry (an index into `entries`) that explains a conflict in `path`
/// whose preceding lines are `window`: none without candidates; else the
/// shallowest mention in the window; else the first candidate.
pub open spec fn resolve(entries: Seq<Entry>, path: Seq<char>, window: Option<Seq<Seq<char>>>) -> Option<
    int,
> {
    let c = candidates(entries, path);
    if c.len() == 0 {
        None
    } else {
        match window {
            Some(w) => match shallowest_from(w, entries, c, 0) {
                Some((e, _)) => Some(e),
                None => Some(c[0]),
            },
            None => Some(c[0]),
        }
    }
}

/// An optional position, as an integer.
pub open spec fn as_index(r: Option<usize>) -> Option<int> {
    match r {
        Some(e) => Some(e as int),
        None => None,
    }
}

/// Some candidate is mentioned on `line`.
pub open spec fn mentions(line: Seq<char>, entries: Seq<Entry>, cands: Seq<int>) -> bool {
    first_mention(line, entries, cands) is Some
}

/// Line `i` of `lines[k..]` is where the backward scan settles on entry
/// `e` at indentation `d`: it mentions `e` first, is indented `d`, no
/// mentioning line of `lines[k..]` is shallower, and every mentioning line
/// after it is deeper.
pub open spec fn picked_at(
    lines: Seq<Seq<char>>,
    entries: Seq<Entry>,
    cands: Seq<int>,
    k: int,
    e: int,
    d: nat,
    i: int,
) -> bool {
    &&& k <= i < lines.len()
    &&& first_mention(lines[i], entries, cands) == Some(e)
    &&& leading_ws(lines[i]) == d
    &&& forall|j: int|
        k <= j < lines.len() && mentions(#[trigger] lines[j], entries, cands) ==> leading_ws(
            lines[j],
        ) >= d
    &&& forall|j: int|
        i < j < lines.len() && mentions(#[trigger] lines[j], entries, cands) ==> leading_ws(
            lines[j],
        ) > d
}

/// The indentation policy of the backward scan: it finds nothing exactly
/// when no line of `lines[k..]` mentions a candidate; otherwise it picks the
/// entry first mentioned on a line `i` (returned) that is indented no
/// deeper than any other mentioning line, and strictly shallower than every
/// mentioning line after it (ties go to the line nearest the conflict).
pub proof fn lemma_shallowest_policy(
    lines: Seq<Seq<char>>,
    entries: Seq<Entry>,
    cands: Seq<int>,
    k: int,
) -> (i: int)
    requires
        0 <= k <= lines.len(),
    ensures
        match shallowest_from(lines, entries, cands, k) {
            None => forall|j: int| k <= j < lines.len() ==> !mentions(#[trigger] lines[j], entries, cands),
            Some((e, d)) => picked_at(lines, entries, cands, k, e, d, i),
        },
    decreases lines.len() - k,
{
    if k < lines.len() {
        let i1 = lemma_shallowest_policy(lines, entries, cands, k + 1);
        let rest = shallowest_from(lines, entries, cands, k + 1);
        match first_mention(lines[k], entries, cands) {
            None => {
                assert(shallowest_from(lines, entries, cands, k) == rest);
                if let Some((e, d)) = rest {
                    assert(picked_at(lines, entries, cands, k, e, d, i1));
                } else {
                    assert forall|j: int| k <= j < lines.len() implies !mentions(
                        #[trigger] lines[j],
                        entries,
                        cands,
                    ) by {
                        if j > k {
                            assert(k + 1 <= j);
                        }
                    }
                }
                i1
            },
            Some(e0) => {
                let d0 = leading_ws(lines[k]);
                match rest {
                    Some((e, d)) if d <= d0 => {
                        assert(shallowest_from(lines, entries, cands, k) == rest);
                        assert(picked_at(lines, entries, cands, k, e, d, i1));
                        i1
                    },
                    _ => {
                        assert(shallowest_from(lines, entries, cands, k) == Some((e0, d0)));
                        assert(picked_at(lines, entries, cands, k, e0, d0, k));
                        k
                    },
                }
            },
        }
    } else {
        k
    }
}

/// Every line range lies within the text.
pub open spec fn bounds_ok(text: Seq<char>, bounds: Seq<(usize, usize)>) -> bool {
    forall|k: int| 0 <= k < bounds.len() ==> #[trigger] bounds[k].0 <= bounds[k].1 <= text.len()
}

/// Lines `lo..hi`, as character sequences.
pub open spec fn window_of(text: Seq<char>, bounds: Seq<(usize, usize)>, lo: int, hi: int) -> Seq<
    Seq<char>,
> {
    Seq::new((hi - lo) as nat, |i: int| text.subrange(bounds[lo + i].0 as int, bounds[lo + i].1 as int))
}

proof fn lemma_candidates_bound(entries: Seq<Entry>, path: Seq<char>)
    ensures
        forall|i: int|
            0 <= i < candidates(entries, path).len() ==> 0 <= #[trigger] candidates(
                entries,
                path,
            )[i] < entries.len(),
    decreases entries.len(),
{
    if entries.len() > 0 {
        let prev = candidates(entries.drop_last(), path);
        lemma_candidates_bound(entries.drop_last(), path);
        assert forall|i: int| 0 <= i < candidates(entries, path).len() implies 0
            <= #[trigger] candidates(entries, path)[i] < entries.len() by {
            if i < prev.len() {
                assert(candidates(entries, path)[i] == prev[i]);
            }
        }
    }
}

/// Start of the last segment of `p[..end]`.
fn segment_start(p: &Vec<char>, end: usize) -> (k: usize)
    requires
        end <= p.len(),
    ensures
        k <= end,
        p@.subrange(k as int, end as int) == after_last_slash(p@.take(end as int)),
{
    let ghost q = p@.take(end as int);
    let mut j: usize = end;
    assert(q.take(end as int) =~= q);
    assert(p@.subrange(end as int, end as int) =~= Seq::<char>::empty());
    assert(after_last_slash(q) + Seq::<char>::empty() =~= after_last_slash(q));
    while j > 0 && p[j - 1] != '/'
        invariant
            j <= end <= p@.len(),
            q == p@.take(end as int),
            after_last_slash(q) == after_last_slash(p@.take(j as int)) + p@.subrange(
                j as int,
                end as int,
            ),
        decreases j,
    {
        assert(p@.take(j as int).drop_last() =~= p@.take(j - 1));
        assert(p@.subrange(j - 1, end as int) =~= seq![p@[j - 1]] + p@.subrange(
            j as int,
            end as int,
        ));
        j = j - 1;
    }
    if j == 0 {
        assert(p@.take(0) =~= Seq::<char>::empty());
    }
    assert(after_last_slash(p@.take(j as int)) =~= Seq::<char>::empty());
    assert(after_last_slash(q) =~= p@.subrange(j as int, end as int));
    j
}

/// Where the base name of `p` lies in `p`, when it has one.
fn base_range(p: &Vec<char>) -> (r: Option<(usize, usize)>)
    ensures
        match base_name(p@) {
            None => r is None,
            Some(b) => r matches Some((a, e)) && a <= e <= p@.len() && p@.subrange(a as int, e as int)
                == b,
        },
{
    let mut end: usize = p.len();
    assert(p@.take(end as int) =~= p@);
    loop
        invariant
            end <= p@.len(),
            base_name(p@) == base_name(p@.take(end as int)),
        decreases end,
    {
        let k = segment_start(p, end);
        let ghost q = p@.take(end as int);
        let ghost seg = p@.subrange(k as int, end as int);
        assert(seg == after_last_slash(q));
        let is_dot = end - k == 1 && p[k] == '.';
        let is_dots = end - k == 2 && p[k] == '.' && p[k + 1] == '.';
        assert(is_dot == (seg == seq!['.'])) by {
            if end - k == 1 && p[k as int] == '.' {
                assert(seg =~= seq!['.']);
            }
            if seg == seq!['.'] {
                assert(seg.len() == 1 && seg[0] == '.');
            }
        }
        assert(is_dots == (seg == seq!['.', '.'])) by {
            if end - k == 2 && p[k as int] == '.' && p[k + 1] == '.' {
                assert(seg =~= seq!['.', '.']);
            }
            if seg == seq!['.', '.'] {
                assert(seg[0] == '.' && seg[1] == '.');
            }
        }
        if k == end || is_dot {
            if k == 0 {
                return None;
            }
            assert(q.take(k - 1) =~= p@.take(k - 1));
            end = k - 1;
        } else if is_dots {
            return None;
        } else {
            return Some((k, end));
        }
    }
}

fn chars_eq(a: &Vec<char>, b: &Vec<char>) -> (r: bool)
    ensures
        r == (a@ == b@),
{
    assert(a@.subrange(0, a@.len() as int) =~= a@);
    assert(b@.subrange(0, b@.len() as int) =~= b@);
    ranges_equal(a, 0, a.len(), b, 0, b.len())
}

/// Whether entry `e` is anchored to the path `p`, whose base name lies at
/// `pr`.
fn is_on_file(e: &Entry, p: &Vec<char>, pr: Option<(usize, usize)>) -> (r: bool)
    requires
        match base_name(p@) {
            None => pr is None,
            Some(b) => pr matches Some((a, z)) && a <= z <= p@.len() && p@.subrange(a as int, z as int)
                == b,
        },
    ensures
        r == on_file(*e, p@),
{
    let f = chars_of(e.anchor.file.as_str());
    if chars_eq(&f, p) {
        return true;
    }
    match pr {
        None => false,
        Some((a, z)) => match base_range(&f) {
            None => false,
            Some((fa, fz)) => ranges_equal(&f, fa, fz, p, a, z),
        },
    }
}

/// Indices of the entries of `m` anchored to `p`.
fn candidate_indices(m: &Manifest, p: &Vec<char>) -> (r: Vec<usize>)
    ensures
        r@.len() == candidates(m.entries@, p@).len(),
        forall|i: int| 0 <= i < r@.len() ==> r@[i] as int == #[trigger] candidates(m.entries@, p@)[i],
{
    let pr = base_range(p);
    let mut out: Vec<usize> = Vec::new();
    let n = m.entries.len();
    let mut i: usize = 0;
    while i < n
        invariant
            n == m.entries@.len(),
            i <= n,
            match base_name(p@) {
                None => pr is None,
                Some(b) => pr matches Some((a, z)) && a <= z <= p@.len() && p@.subrange(
                    a as int,
                    z as int,
                ) == b,
            },
            out@.len() == candidates(m.entries@.take(i as int), p@).len(),
            forall|t: int|
                0 <= t < out@.len() ==> out@[t] as int == #[trigger] candidates(
                    m.entries@.take(i as int),
                    p@,
                )[t],
        decreases n - i,
    {
        assert(m.entries@.take(i + 1).drop_last() =~= m.entries@.take(i as int));
        if is_on_file(&m.entries[i], p, pr) {
            out.push(i);
        }
        i = i + 1;
    }
    assert(m.entries@.take(n as int) =~= m.entries@);
    out
}

/// The first of `cands` whose symbol occurs in `text[a..b]`.
fn mention_on_line(m: &Manifest, cands: &Vec<usize>, text: &Vec<char>, a: usize, b: usize) -> (r:
    Option<usize>)
    requires
        a <= b <= text.len(),
        forall|i: int| 0 <= i < cands@.len() ==> #[trigger] cands@[i] < m.entries@.len(),
    ensures
        r matches Some(e) ==> e < m.entries@.len(),
        as_index(r) == first_mention(
            text@.subrange(a as int, b as int),
            m.entries@,
            cands@.map_values(|e: usize| e as int),
        ),
{
    let ghost line = text@.subrange(a as int, b as int);
    let ghost all = cands@.map_values(|e: usize| e as int);
    let mut j: usize = 0;
    assert(all.skip(0) =~= all);
    while j < cands.len()
        invariant
            j <= cands@.len(),
            a <= b <= text.len(),
            line == text@.subrange(a as int, b as int),
            all == cands@.map_values(|e: usize| e as int),
            forall|i: int| 0 <= i < cands@.len() ==> #[trigger] cands@[i] < m.entries@.len(),
            first_mention(line, m.entries@, all) == first_mention(
                line,
                m.entries@,
                all.skip(j as int),
            ),
        decreases cands@.len() - j,
    {
        let e = cands[j];
        let sym = chars_of(m.entries[e].anchor.symbol.as_str());
        assert(all.skip(j as int).drop_first() =~= all.skip(j + 1));
        assert(all.skip(j as int)[0] == e as int);
        if contains_in(text, a, b, &sym) {
            return Some(e);
        }
        j = j + 1;
    }
    assert(all.skip(j as int) =~= Seq::<int>::empty());
    None
}

/// The resolver over lines `lo..hi` of `text`, or over no window at all.
pub(crate) fn resolve_in(
    m: &Manifest,
    path: &Vec<char>,
    window: Option<(&Vec<char>, &Vec<(usize, usize)>)>,
    lo: usize,
    hi: usize,
) -> (r: Option<usize>)
    requires
        window matches Some((text, bounds)) ==> lo <= hi <= bounds@.len() && bounds_ok(
            text@,
            bounds@,
        ),
    ensures
        r matches Some(e) ==> e < m.entries@.len(),
        as_index(r) == resolve(
            m.entries@,
            path@,
            match window {
                Some((text, bounds)) => Some(window_of(text@, bounds@, lo as int, hi as int)),
                None => None,
            },
        ),
{
    let cands = candidate_indices(m, path);
    proof {
        lemma_candidates_bound(m.entries@, path@);
    }
    let ghost c = candidates(m.entries@, path@);
    assert(cands@.map_values(|e: usize| e as int) =~= c);
    assert forall|i: int| 0 <= i < cands@.len() implies #[trigger] cands@[i] < m.entries@.len() by {
        assert(cands@[i] as int == c[i]);
    }
    if cands.len() == 0 {
        return None;
    }
    assert(cands@[0] as int == c[0]);
    assert(c.len() == cands@.len());
    match window {
        None => {
            assert(resolve(m.entries@, path@, None) == Some(c[0]));
            Some(cands[0])
        },
        Some((text, bounds)) => {
            let ghost w = window_of(text@, bounds@, lo as int, hi as int);
            let mut best: Option<usize> = None;
            let mut best_d: usize = 0;
            let mut k: usize = hi;
            while k > lo
                invariant
                    lo <= k <= hi <= bounds@.len(),
                    bounds_ok(text@, bounds@),
                    w == window_of(text@, bounds@, lo as int, hi as int),
                    c == candidates(m.entries@, path@),
                    cands@.map_values(|e: usize| e as int) == c,
                    cands@.len() > 0,
                    forall|i: int| 0 <= i < cands@.len() ==> #[trigger] cands@[i] < m.entries@.len(),
                    best matches Some(e) ==> e < m.entries@.len(),
                    match shallowest_from(w, m.entries@, c, k - lo) {
                        None => best is None,
                        Some((e, d)) => best matches Some(b) && b as int == e && best_d == d,
                    },
                decreases k - lo,
            {
                k = k - 1;
                let (a, b) = bounds[k];
                assert(w[k - lo] == text@.subrange(a as int, b as int));
                let found = mention_on_line(m, &cands, text, a, b);
                match found {
                    Some(e) => {
                        let d = count_leading_ws(text, a, b);
                        if best.is_none() || d < best_d {
                            best = Some(e);
                            best_d = d;
                        }
                    },
                    None => {},
                }
            }
            assert(k == lo);
            match best {
                Some(e) => {
                    assert(resolve(m.entries@, path@, Some(w)) == Some(e as int));
                    Some(e)
                },
                None => {
                    assert(resolve(m.entries@, path@, Some(w)) == Some(c[0]));
                    Some(cands[0])
                },
            }
        },
    }
}

/// The entry of `manifest` that best explains a conflict in `file_path`
/// whose preceding lines are `context`, nearest line last.
pub fn find_entry<'a>(manifest: &'a Manifest, file_path: &str, context: Option<&[&str]>) -> (r:
    Option<&'a Entry>)
    ensures
        match resolve(
            manifest.entries@,
            file_path@,
            match context {
                Some(c) => Some(c@.map_values(|l: &str| l@)),
                None => None,
            },
        ) {
            None => r is None,
            Some(e) => r matches Some(x) && 0 <= e < manifest.entries@.len() && *x
                == manifest.entries@[e],
        },
{
    let path = chars_of(file_path);
    let found = match context {
        None => resolve_in(manifest, &path, None, 0, 0),
        Some(lines) => {
            let (text, bounds) = join_lines(lines);
            let n = bounds.len();
            let r = resolve_in(manifest, &path, Some((&text, &bounds)), 0, n);
            assert(window_of(text@, bounds@, 0, n as int) =~= lines@.map_values(|l: &str| l@));
            r
        },
    };
    match found {
        Some(e) => Some(&manifest.entries[e]),
        None => None,
    }
}

/// All lines in one buffer, with the range of each.
pub(crate) fn join_lines(lines: &[&str]) -> (r: (Vec<char>, Vec<(usize, usize)>))
    ensures
        bounds_ok(r.0@, r.1@),
        r.1@.len() == lines@.len(),
        forall|k: int|
            0 <= k < lines@.len() ==> r.0@.subrange(#[trigger] r.1@[k].0 as int, r.1@[k].1 as int)
                == lines@[k]@,
{
    let mut text: Vec<char> = Vec::new();
    let mut bounds: Vec<(usize, usize)> = Vec::new();
    let n = lines.len();
    let mut k: usize = 0;
    while k < n
        invariant
            n == lines@.len(),
            k <= n,
            bounds@.len() == k,
            bounds_ok(text@, bounds@),
            forall|t: int|
                0 <= t < k ==> text@.subrange(#[trigger] bounds@[t].0 as int, bounds@[t].1 as int)
                    == lines@[t]@,
        decreases n - k,
    {
        let line = chars_of(lines[k]);
        let a = text.len();
        let mut i: usize = 0;
        while i < line.len()
            invariant
                i <= line@.len(),
                a <= text@.len(),
                text@.len() == a + i,
                text@.subrange(a as int, a + i) == line@.take(i as int),
                bounds_ok(text@, bounds@),
                bounds@.len() == k,
                forall|t: int|
                    0 <= t < k ==> text@.subrange(#[trigger] bounds@[t].0 as int, bounds@[t].1 as int)
                        == lines@[t]@,
            decreases line@.len() - i,
        {
            let ghost before = text@;
            text.push(line[i]);
            assert forall|t: int| 0 <= t < k implies text@.subrange(
                #[trigger] bounds@[t].0 as int,
                bounds@[t].1 as int,
            ) == lines@[t]@ by {
                assert(text@.subrange(bounds@[t].0 as int, bounds@[t].1 as int) =~= before.subrange(
                    bounds@[t].0 as int,
                    bounds@[t].1 as int,
                ));
            }
            assert(text@.subrange(a as int, a + i + 1) =~= line@.take(i + 1));
            i = i + 1;
        }
        assert(line@.take(i as int) =~= line@);
        bounds.push((a, text.len()));
        k = k + 1;
    }
    (text, bounds)
}

} // verus!
