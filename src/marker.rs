//! The enrichment block shown beside one side of a conflict: a few plain
//! text lines, each behind the `||| ` sentinel.
use vstd::prelude::*;
use crate::resolver::{as_index, join_lines, resolve, resolve_in, window_of};
use crate::text::{chars_of, decimal, push_decimal, starts_with, string_from_chars};
use crate::types::{Entry, GlobalIntent, Manifest};

verus! {

/// What starts every line of an enrichment block; no conflict delimiter
/// starts with it.
pub const CONTEXT_PREFIX: &'static str = "||| ";

/// The views of a list of strings.
pub open spec fn strings(v: Vec<String>) -> Seq<Seq<char>> {
    v@.map_values(|s: String| s@)
}

/// `items` separated by `sep`.
pub open spec fn joined(items: Seq<Seq<char>>, sep: Seq<char>) -> Seq<char>
    decreases items.len(),
{
    if items.len() == 0 {
        Seq::empty()
    } else if items.len() == 1 {
        items[0]
    } else {
        joined(items.drop_last(), sep) + sep + items.last()
    }
}

/// `v` with the sentinel after each of its line breaks, so that text of
/// several lines stays inside the block.
pub open spec fn guarded(v: Seq<char>) -> Seq<char>
    decreases v.len(),
{
    if v.len() == 0 {
        v
    } else {
        guarded(v.drop_last()) + if v.last() == '\n' {
            seq!['\n'] + CONTEXT_PREFIX@
        } else {
            seq![v.last()]
        }
    }
}

/// One line of a block holding `content`; every line break inside
/// `content` is followed by the sentinel too.
pub open spec fn sentinel_line(content: Seq<char>) -> Seq<char> {
    CONTEXT_PREFIX@ + guarded(content) + "\n"@
}

/// One `label: value` line of a block.
pub open spec fn field_line(label: Seq<char>, value: Seq<char>) -> Seq<char> {
    sentinel_line(label + ": "@ + value)
}

/// One `label[i]: value` line of a block.
pub open spec fn item_line(label: Seq<char>, i: nat, value: Seq<char>) -> Seq<char> {
    sentinel_line(label + "["@ + decimal(i) + "]: "@ + value)
}

/// A `label[i]: value` line for each of `items`, in order.
pub open spec fn item_lines(label: Seq<char>, items: Seq<Seq<char>>) -> Seq<char>
    decreases items.len(),
{
    if items.len() == 0 {
        Seq::empty()
    } else {
        item_lines(label, items.drop_last()) + item_line(
            label,
            (items.len() - 1) as nat,
            items.last(),
        )
    }
}

pub open spec fn bool_text(b: bool) -> Seq<char> {
    if b {
        "true"@
    } else {
        "false"@
    }
}

/// The commit-wide lines, shown when no entry explains the conflict.
pub open spec fn global_lines(g: Option<GlobalIntent>) -> Seq<char> {
    match g {
        Some(gi) => field_line("behaviorClass"@, joined(strings(gi.behavior_class), ", "@))
            + field_line("rationale"@, gi.rationale@),
        None => Seq::empty(),
    }
}

/// The behaviour line of an entry; where it has no tags and inherits the
/// commit-wide intent, the commit-wide tags.
pub open spec fn behavior_part(e: Entry, g: Option<GlobalIntent>) -> Seq<char> {
    if e.behavior_class@.len() > 0 {
        field_line("behaviorClass"@, joined(strings(e.behavior_class), ", "@))
    } else {
        match g {
            Some(gi) if e.inherits_global_intent == Some(true) => field_line(
                "behaviorClass"@,
                joined(strings(gi.behavior_class), ", "@),
            ),
            _ => Seq::empty(),
        }
    }
}

/// The rationale line of an entry; where it has none and inherits the
/// commit-wide intent, the commit-wide rationale.
pub open spec fn rationale_part(e: Entry, g: Option<GlobalIntent>) -> Seq<char> {
    if e.rationale@.len() > 0 {
        field_line("rationale"@, e.rationale@)
    } else {
        match g {
            Some(gi) if e.inherits_global_intent == Some(true) => field_line(
                "rationale"@,
                gi.rationale@,
            ),
            _ => Seq::empty(),
        }
    }
}

pub open spec fn compat_part(e: Entry) -> Seq<char> {
    match e.compatibility {
        Some(c) => field_line("breaking"@, bool_text(c.breaking)) + match c.migrations {
            Some(ms) => item_lines("migrations"@, strings(ms)),
            None => Seq::empty(),
        },
        None => Seq::empty(),
    }
}

pub open spec fn contract_part(e: Entry) -> Seq<char> {
    (match e.contract.inputs {
        Some(ins) => item_lines("inputs"@, strings(ins)),
        None => Seq::empty(),
    }) + (match e.contract.outputs {
        Some(o) => field_line("outputs"@, o@),
        None => Seq::empty(),
    }) + item_lines("preconditions"@, strings(e.contract.preconditions)) + item_lines(
        "postconditions"@,
        strings(e.contract.postconditions),
    ) + item_lines("errorModel"@, strings(e.contract.error_model))
}

/// The lines that describe entry `e`.
pub open spec fn entry_lines(e: Entry, g: Option<GlobalIntent>) -> Seq<char> {
    behavior_part(e, g) + rationale_part(e, g) + compat_part(e) + contract_part(e) + item_lines(
        "sideEffects"@,
        strings(e.side_effects),
    ) + field_line("symbol"@, e.anchor.symbol@)
}

/// The block for one side: a header naming the side, the commit, then the
/// entry at index `entry` of `m` or, without one, the commit-wide intent.
pub open spec fn marker_block(side: Seq<char>, description: Seq<char>, m: Manifest, entry: Option<
    int,
>) -> Seq<char> {
    header_line(side, description) + field_line(
        "Commit"@,
        m.commit@,
    ) + match entry {
        Some(i) => entry_lines(m.entries@[i], m.global_intent),
        None => global_lines(m.global_intent),
    }
}

/// `s` with the sentinel after each of its line breaks.
fn guard(s: &str) -> (r: String)
    ensures
        r@ == guarded(s@),
{
    let v = chars_of(s);
    let prefix = chars_of(CONTEXT_PREFIX);
    let n = v.len();
    let mut out: Vec<char> = Vec::new();
    let mut i: usize = 0;
    assert(v@.take(0) =~= Seq::<char>::empty());
    while i < n
        invariant
            n == v@.len(),
            i <= n,
            prefix@ == CONTEXT_PREFIX@,
            out@ == guarded(v@.take(i as int)),
        decreases n - i,
    {
        let ghost before = out@;
        assert(v@.take(i + 1).drop_last() =~= v@.take(i as int));
        assert(v@.take(i + 1).last() == v@[i as int]);
        out.push(v[i]);
        if v[i] == '\n' {
            let mut j: usize = 0;
            while j < prefix.len()
                invariant
                    j <= prefix@.len(),
                    out@ == before + seq!['\n'] + prefix@.take(j as int),
                decreases prefix@.len() - j,
            {
                out.push(prefix[j]);
                assert(prefix@.take(j + 1) =~= prefix@.take(j as int).push(prefix@[j as int]));
                j = j + 1;
            }
            assert(prefix@.take(prefix@.len() as int) =~= prefix@);
            assert(out@ =~= guarded(v@.take(i + 1)));
        } else {
            assert(out@ =~= guarded(v@.take(i + 1)));
        }
        i = i + 1;
    }
    assert(v@.take(n as int) =~= v@);
    string_from_chars(&out)
}

/// Appends one block line holding `content`.
fn push_line(out: &mut String, content: &str)
    ensures
        final(out)@ == old(out)@ + sentinel_line(content@),
{
    out.append(CONTEXT_PREFIX);
    let g = guard(content);
    out.append(g.as_str());
    out.append("\n");
    assert(final(out)@ =~= old(out)@ + sentinel_line(content@));
}

fn push_field(out: &mut String, label: &str, value: &str)
    ensures
        final(out)@ == old(out)@ + field_line(label@, value@),
{
    let mut c = String::from_str(label);
    c.append(": ");
    c.append(value);
    push_line(out, c.as_str());
}

/// Appends the line `label: ` followed by `items` separated by `, `.
fn push_list_field(out: &mut String, label: &str, items: &Vec<String>)
    ensures
        final(out)@ == old(out)@ + field_line(label@, joined(strings(*items), ", "@)),
{
    let mut c = String::from_str(label);
    c.append(": ");
    push_joined(&mut c, items, ", ");
    assert(c@ =~= label@ + ": "@ + joined(strings(*items), ", "@));
    push_line(out, c.as_str());
}

/// Every line of `s` starts with the sentinel and ends with a line break.
pub open spec fn sentinel_text(s: Seq<char>) -> bool {
    s.len() == 0 || (starts_with(s, CONTEXT_PREFIX@) && s.last() == '\n' && forall|j: int|
        #![trigger s[j]]
        0 <= j < s.len() - 1 && s[j] == '\n' ==> starts_with(s.skip(j + 1), CONTEXT_PREFIX@))
}

pub(crate) proof fn lemma_prefix_chars()
    ensures
        CONTEXT_PREFIX@ == seq!['|', '|', '|', ' '],
{
    reveal_strlit("||| ");
    assert(CONTEXT_PREFIX@ =~= seq!['|', '|', '|', ' ']);
}

/// Inside `guarded(v)` every line break is followed by the sentinel.
proof fn lemma_guarded(v: Seq<char>)
    ensures
        forall|j: int|
            #![trigger guarded(v)[j]]
            0 <= j < guarded(v).len() && guarded(v)[j] == '\n' ==> starts_with(
                guarded(v).skip(j + 1),
                CONTEXT_PREFIX@,
            ),
    decreases v.len(),
{
    lemma_prefix_chars();
    if v.len() > 0 {
        let a = guarded(v.drop_last());
        lemma_guarded(v.drop_last());
        let piece = if v.last() == '\n' {
            seq!['\n'] + CONTEXT_PREFIX@
        } else {
            seq![v.last()]
        };
        let g = guarded(v);
        assert(g == a + piece);
        assert forall|j: int| 0 <= j < g.len() && g[j] == '\n' implies starts_with(
            g.skip(j + 1),
            CONTEXT_PREFIX@,
        ) by {
            if j < a.len() {
                assert(a[j] == '\n');
                assert(starts_with(a.skip(j + 1), CONTEXT_PREFIX@));
                assert(g.skip(j + 1).take(4) =~= a.skip(j + 1).take(4));
            } else {
                assert(piece[j - a.len()] == '\n');
                assert(j == a.len());
                assert(g.skip(j + 1).take(4) =~= CONTEXT_PREFIX@);
            }
        }
    }
}

/// A block line is sentinel text, whatever it holds.
pub proof fn lemma_sentinel_line(content: Seq<char>)
    ensures
        sentinel_text(sentinel_line(content)),
{
    lemma_prefix_chars();
    reveal_strlit("\n");
    let g = guarded(content);
    lemma_guarded(content);
    let s = sentinel_line(content);
    assert(s == CONTEXT_PREFIX@ + g + seq!['\n']);
    assert(s.take(4) =~= CONTEXT_PREFIX@);
    assert forall|j: int| #![trigger s[j]] 0 <= j < s.len() - 1 && s[j] == '\n' implies starts_with(
        s.skip(j + 1),
        CONTEXT_PREFIX@,
    ) by {
        assert(j >= 4);
        assert(g[j - 4] == '\n');
        assert(starts_with(g.skip(j - 4 + 1), CONTEXT_PREFIX@));
        assert(s.skip(j + 1).take(4) =~= g.skip(j - 3).take(4));
    }
}

/// Sentinel text followed by sentinel text is sentinel text.
pub proof fn lemma_sentinel_concat(a: Seq<char>, b: Seq<char>)
    requires
        sentinel_text(a),
        sentinel_text(b),
    ensures
        sentinel_text(a + b),
{
    lemma_prefix_chars();
    let s = a + b;
    if a.len() == 0 {
        assert(s =~= b);
    } else if b.len() == 0 {
        assert(s =~= a);
    } else {
        assert(s.take(4) =~= a.take(4));
        assert forall|j: int| #![trigger s[j]] 0 <= j < s.len() - 1 && s[j] == '\n' implies starts_with(
            s.skip(j + 1),
            CONTEXT_PREFIX@,
        ) by {
            if j < a.len() - 1 {
                assert(a[j] == '\n');
                assert(starts_with(a.skip(j + 1), CONTEXT_PREFIX@));
                assert(s.skip(j + 1).take(4) =~= a.skip(j + 1).take(4));
            } else if j == a.len() - 1 {
                assert(s.skip(j + 1).take(4) =~= b.take(4));
            } else {
                let k = j - a.len();
                assert(b[k] == '\n');
                assert(starts_with(b.skip(k + 1), CONTEXT_PREFIX@));
                assert(s.skip(j + 1).take(4) =~= b.skip(k + 1).take(4));
            }
        }
    }
}

proof fn lemma_item_lines(label: Seq<char>, items: Seq<Seq<char>>)
    ensures
        sentinel_text(item_lines(label, items)),
    decreases items.len(),
{
    if items.len() > 0 {
        lemma_item_lines(label, items.drop_last());
        let last = item_line(label, (items.len() - 1) as nat, items.last());
        lemma_sentinel_line(label + "["@ + decimal((items.len() - 1) as nat) + "]: "@ + items.last());
        lemma_sentinel_concat(item_lines(label, items.drop_last()), last);
    }
}

proof fn lemma_field_line(label: Seq<char>, value: Seq<char>)
    ensures
        sentinel_text(field_line(label, value)),
{
    lemma_sentinel_line(label + ": "@ + value);
}

proof fn lemma_entry_lines(e: Entry, g: Option<GlobalIntent>)
    ensures
        sentinel_text(entry_lines(e, g)),
{
    let b = behavior_part(e, g);
    let r = rationale_part(e, g);
    let c = compat_part(e);
    let k = contract_part(e);
    let se = item_lines("sideEffects"@, strings(e.side_effects));
    let sy = field_line("symbol"@, e.anchor.symbol@);
    if e.behavior_class@.len() > 0 {
        lemma_field_line("behaviorClass"@, joined(strings(e.behavior_class), ", "@));
    } else if let Some(gi) = g {
        lemma_field_line("behaviorClass"@, joined(strings(gi.behavior_class), ", "@));
    }
    assert(sentinel_text(b));
    if e.rationale@.len() > 0 {
        lemma_field_line("rationale"@, e.rationale@);
    } else if let Some(gi) = g {
        lemma_field_line("rationale"@, gi.rationale@);
    }
    assert(sentinel_text(r));
    if let Some(cc) = e.compatibility {
        lemma_field_line("breaking"@, bool_text(cc.breaking));
        if let Some(ms) = cc.migrations {
            lemma_item_lines("migrations"@, strings(ms));
            lemma_sentinel_concat(field_line("breaking"@, bool_text(cc.breaking)), item_lines("migrations"@, strings(ms)));
        } else {
            assert(c =~= field_line("breaking"@, bool_text(cc.breaking)));
        }
    }
    assert(sentinel_text(c));
    let ins = match e.contract.inputs {
        Some(v) => item_lines("inputs"@, strings(v)),
        None => Seq::empty(),
    };
    let outs = match e.contract.outputs {
        Some(o) => field_line("outputs"@, o@),
        None => Seq::empty(),
    };
    if let Some(v) = e.contract.inputs {
        lemma_item_lines("inputs"@, strings(v));
    }
    if let Some(o) = e.contract.outputs {
        lemma_field_line("outputs"@, o@);
    }
    let pre = item_lines("preconditions"@, strings(e.contract.preconditions));
    let post = item_lines("postconditions"@, strings(e.contract.postconditions));
    let err = item_lines("errorModel"@, strings(e.contract.error_model));
    lemma_item_lines("preconditions"@, strings(e.contract.preconditions));
    lemma_item_lines("postconditions"@, strings(e.contract.postconditions));
    lemma_item_lines("errorModel"@, strings(e.contract.error_model));
    lemma_sentinel_concat(ins, outs);
    lemma_sentinel_concat(ins + outs, pre);
    lemma_sentinel_concat(ins + outs + pre, post);
    lemma_sentinel_concat(ins + outs + pre + post, err);
    assert(k == ins + outs + pre + post + err);
    lemma_item_lines("sideEffects"@, strings(e.side_effects));
    lemma_field_line("symbol"@, e.anchor.symbol@);
    lemma_sentinel_concat(b, r);
    lemma_sentinel_concat(b + r, c);
    lemma_sentinel_concat(b + r + c, k);
    lemma_sentinel_concat(b + r + c + k, se);
    lemma_sentinel_concat(b + r + c + k + se, sy);
}

/// Every line of a block starts with the sentinel and ends with a line
/// break, whatever the manifest's fields hold.
pub proof fn lemma_block_lines(side: Seq<char>, description: Seq<char>, m: Manifest, entry: Option<int>)
    ensures
        sentinel_text(marker_block(side, description, m, entry)),
{
    let h = sentinel_line("Gip CONTEXT ("@ + side + " - "@ + description + ")"@);
    let c = field_line("Commit"@, m.commit@);
    lemma_sentinel_line("Gip CONTEXT ("@ + side + " - "@ + description + ")"@);
    lemma_field_line("Commit"@, m.commit@);
    lemma_sentinel_concat(h, c);
    let rest = match entry {
        Some(i) => entry_lines(m.entries@[i], m.global_intent),
        None => global_lines(m.global_intent),
    };
    match entry {
        Some(i) => lemma_entry_lines(m.entries@[i], m.global_intent),
        None => {
            if let Some(gi) = m.global_intent {
                lemma_field_line("behaviorClass"@, joined(strings(gi.behavior_class), ", "@));
                lemma_field_line("rationale"@, gi.rationale@);
                lemma_sentinel_concat(
                    field_line("behaviorClass"@, joined(strings(gi.behavior_class), ", "@)),
                    field_line("rationale"@, gi.rationale@),
                );
            }
        },
    }
    lemma_sentinel_concat(h + c, rest);
}

/// The header line of a block naming `side` and `description`.
pub open spec fn header_line(side: Seq<char>, description: Seq<char>) -> Seq<char> {
    sentinel_line("Gip CONTEXT ("@ + side + " - "@ + description + ")"@)
}

/// A block starts with its header line and the commit line; for an entry
/// with behaviour tags and a rationale, the behaviour line and the
/// rationale line follow.
pub proof fn lemma_block_starts(side: Seq<char>, description: Seq<char>, m: Manifest, entry: Option<
    int,
>)
    ensures
        ({
            let head = header_line(side, description) + field_line("Commit"@, m.commit@);
            marker_block(side, description, m, entry).take(head.len() as int) == head
        }),
        match entry {
            Some(i) => {
                let e = m.entries@[i];
                let head = header_line(side, description) + field_line("Commit"@, m.commit@)
                    + field_line("behaviorClass"@, joined(strings(e.behavior_class), ", "@))
                    + field_line("rationale"@, e.rationale@);
                e.behavior_class@.len() > 0 && e.rationale@.len() > 0 ==> marker_block(
                    side,
                    description,
                    m,
                    entry,
                ).take(head.len() as int) == head
            },
            None => true,
        },
{
    let hc = header_line(side, description) + field_line("Commit"@, m.commit@);
    let blk = marker_block(side, description, m, entry);
    let rest = match entry {
        Some(i) => entry_lines(m.entries@[i], m.global_intent),
        None => global_lines(m.global_intent),
    };
    assert(blk == hc + rest);
    assert(blk.take(hc.len() as int) =~= hc);
    if let Some(i) = entry {
        let e = m.entries@[i];
        if e.behavior_class@.len() > 0 && e.rationale@.len() > 0 {
            let b = field_line("behaviorClass"@, joined(strings(e.behavior_class), ", "@));
            let r = field_line("rationale"@, e.rationale@);
            assert(behavior_part(e, m.global_intent) == b);
            assert(rationale_part(e, m.global_intent) == r);
            let tail = compat_part(e) + contract_part(e) + item_lines(
                "sideEffects"@,
                strings(e.side_effects),
            ) + field_line("symbol"@, e.anchor.symbol@);
            assert(rest =~= b + r + tail);
            assert(blk.take((hc + b + r).len() as int) =~= hc + b + r);
        }
    }
}

fn push_joined(out: &mut String, items: &Vec<String>, sep: &str)
    ensures
        final(out)@ == old(out)@ + joined(strings(*items), sep@),
{
    let ghost start = out@;
    let n = items.len();
    let mut i: usize = 0;
    while i < n
        invariant
            n == items@.len(),
            i <= n,
            out@ == start + joined(strings(*items).take(i as int), sep@),
        decreases n - i,
    {
        let ghost t = strings(*items).take(i + 1);
        assert(t.drop_last() =~= strings(*items).take(i as int));
        assert(t.last() == items@[i as int]@);
        if i > 0 {
            out.append(sep);
        }
        out.append(items[i].as_str());
        if i == 0 {
            assert(strings(*items).take(0) =~= Seq::<Seq<char>>::empty());
            assert(out@ =~= start + joined(t, sep@));
        } else {
            assert(out@ =~= start + joined(t, sep@));
        }
        i = i + 1;
    }
    assert(strings(*items).take(n as int) =~= strings(*items));
}

fn push_items(out: &mut String, label: &str, items: &Vec<String>)
    ensures
        final(out)@ == old(out)@ + item_lines(label@, strings(*items)),
{
    let ghost start = out@;
    let n = items.len();
    let mut i: usize = 0;
    assert(strings(*items).take(0) =~= Seq::<Seq<char>>::empty());
    assert(start + Seq::<char>::empty() =~= start);
    while i < n
        invariant
            n == items@.len(),
            i <= n,
            out@ == start + item_lines(label@, strings(*items).take(i as int)),
        decreases n - i,
    {
        let ghost t = strings(*items).take(i + 1);
        assert(t.drop_last() =~= strings(*items).take(i as int));
        assert(t.last() == items@[i as int]@);
        let mut c = String::from_str(label);
        c.append("[");
        push_decimal(&mut c, i);
        c.append("]: ");
        c.append(items[i].as_str());
        push_line(out, c.as_str());
        assert(out@ =~= start + item_lines(label@, t));
        i = i + 1;
    }
    assert(strings(*items).take(n as int) =~= strings(*items));
}

fn push_global(out: &mut String, g: &Option<GlobalIntent>)
    ensures
        final(out)@ == old(out)@ + global_lines(*g),
{
    match g {
        Some(gi) => {
            let ghost start = out@;
            push_list_field(out, "behaviorClass", &gi.behavior_class);
            push_field(out, "rationale", gi.rationale.as_str());
            assert(out@ =~= start + global_lines(*g));
        },
        None => {
            assert(out@ =~= old(out)@ + global_lines(*g));
        },
    }
}

fn push_behavior(out: &mut String, e: &Entry, g: &Option<GlobalIntent>)
    ensures
        final(out)@ == old(out)@ + behavior_part(*e, *g),
{
    let ghost start = out@;
    let list = if e.behavior_class.len() > 0 {
        Some(&e.behavior_class)
    } else {
        match g {
            Some(gi) => if e.inherits_global_intent == Some(true) {
                Some(&gi.behavior_class)
            } else {
                None
            },
            None => None,
        }
    };
    match list {
        Some(l) => {
            push_list_field(out, "behaviorClass", l);
            assert(out@ =~= start + behavior_part(*e, *g));
        },
        None => {
            assert(out@ =~= start + behavior_part(*e, *g));
        },
    }
}

fn push_rationale(out: &mut String, e: &Entry, g: &Option<GlobalIntent>)
    ensures
        final(out)@ == old(out)@ + rationale_part(*e, *g),
{
    let ghost start = out@;
    if !e.rationale.as_str().is_empty() {
        push_field(out, "rationale", e.rationale.as_str());
    } else {
        match g {
            Some(gi) => if e.inherits_global_intent == Some(true) {
                push_field(out, "rationale", gi.rationale.as_str());
            },
            None => {},
        }
    }
    assert(out@ =~= start + rationale_part(*e, *g));
}

fn push_compat(out: &mut String, e: &Entry)
    ensures
        final(out)@ == old(out)@ + compat_part(*e),
{
    let ghost start = out@;
    match &e.compatibility {
        Some(c) => {
            proof {
                reveal_strlit("true");
                reveal_strlit("false");
            }
            let b = if c.breaking {
                "true"
            } else {
                "false"
            };
            assert(b@ == bool_text(c.breaking));
            push_field(out, "breaking", b);
            match &c.migrations {
                Some(ms) => push_items(out, "migrations", ms),
                None => {},
            }
        },
        None => {},
    }
    assert(out@ =~= start + compat_part(*e));
}

fn push_contract(out: &mut String, e: &Entry)
    ensures
        final(out)@ == old(out)@ + contract_part(*e),
{
    let ghost start = out@;
    match &e.contract.inputs {
        Some(ins) => push_items(out, "inputs", ins),
        None => {},
    }
    match &e.contract.outputs {
        Some(o) => push_field(out, "outputs", o.as_str()),
        None => {},
    }
    push_items(out, "preconditions", &e.contract.preconditions);
    push_items(out, "postconditions", &e.contract.postconditions);
    push_items(out, "errorModel", &e.contract.error_model);
    assert(out@ =~= start + contract_part(*e));
}

fn push_entry(out: &mut String, e: &Entry, g: &Option<GlobalIntent>)
    ensures
        final(out)@ == old(out)@ + entry_lines(*e, *g),
{
    let ghost start = out@;
    push_behavior(out, e, g);
    push_rationale(out, e, g);
    push_compat(out, e);
    push_contract(out, e);
    push_items(out, "sideEffects", &e.side_effects);
    push_field(out, "symbol", e.anchor.symbol.as_str());
    assert(out@ =~= start + entry_lines(*e, *g));
}

/// The block for one side, describing the entry at index `entry` of `m`.
pub(crate) fn format_block(side: &str, description: &str, m: &Manifest, entry: Option<usize>) -> (r:
    String)
    requires
        entry matches Some(i) ==> i < m.entries@.len(),
    ensures
        r@ == marker_block(side@, description@, *m, as_index(entry)),
{
    let mut header = String::from_str("Gip CONTEXT (");
    header.append(side);
    header.append(" - ");
    header.append(description);
    header.append(")");
    let mut out = String::new();
    push_line(&mut out, header.as_str());
    push_field(&mut out, "Commit", m.commit.as_str());
    match entry {
        Some(i) => push_entry(&mut out, &m.entries[i], &m.global_intent),
        None => push_global(&mut out, &m.global_intent),
    }
    assert(out@ =~= marker_block(side@, description@, *m, as_index(entry)));
    out
}

/// The block for one side of a conflict in `file_path`: the header names
/// `side` and `description`, then comes the entry of `manifest` that the
/// resolver picks for `context` (the lines before the delimiter), or the
/// commit-wide intent where it picks none.
pub fn format_enriched_marker(
    side: &str,
    description: &str,
    manifest: &Manifest,
    file_path: &str,
    context: Option<&[&str]>,
) -> (r: String)
    ensures
        r@ == marker_block(
            side@,
            description@,
            *manifest,
            resolve(
                manifest.entries@,
                file_path@,
                match context {
                    Some(c) => Some(c@.map_values(|l: &str| l@)),
                    None => None,
                },
            ),
        ),
        sentinel_text(r@),
{
    let path = chars_of(file_path);
    let found = match context {
        None => resolve_in(manifest, &path, None, 0, 0),
        Some(lines) => {
            let (text, bounds) = join_lines(lines);
            let n = bounds.len();
            let r = resolve_in(manifest, &path, Some((&text, &bounds)), 0, n);
            assert(window_of(text@, bounds@, 0, n as int) =~= lines@.map_values(|l: &str| l@));
            r
        },
    };
    proof {
        lemma_block_lines(side@, description@, *manifest, as_index(found));
    }
    format_block(side, description, manifest, found)
}

} // verus!
