//! The compact line-oriented notation of a manifest: parenthesized
//! sections with labeled fields, bracketed inline lists and triple-quoted
//! free text. It is for display and export; the store keeps the canonical
//! notation.
use vstd::prelude::*;
use crate::marker::{bool_text, joined, strings};
use crate::types::{Compatibility, Contract, Entry, GlobalIntent, Manifest};

verus! {

/// `open` + the items separated by spaces + ` ])` and a line break.
pub open spec fn inline_list(open: Seq<char>, items: Seq<Seq<char>>) -> Seq<char> {
    open + joined(items, " "@) + " ])\n"@
}

/// An inline list line, or nothing for an empty list.
pub open spec fn inline_if_any(open: Seq<char>, items: Seq<Seq<char>>) -> Seq<char> {
    if items.len() > 0 {
        inline_list(open, items)
    } else {
        Seq::empty()
    }
}

pub open spec fn quoted_items(items: Seq<Seq<char>>) -> Seq<char>
    decreases items.len(),
{
    if items.len() == 0 {
        Seq::empty()
    } else {
        quoted_items(items.drop_last()) + "          [ \"\"\""@ + items.last() + "\"\"\" ]\n"@
    }
}

/// A section with one triple-quoted line per item, or nothing for an
/// empty list.
pub open spec fn quoted_section(open: Seq<char>, items: Seq<Seq<char>>) -> Seq<char> {
    if items.len() > 0 {
        open + quoted_items(items) + "        )\n"@
    } else {
        Seq::empty()
    }
}

pub open spec fn optional_items(l: Option<Vec<String>>) -> Seq<Seq<char>> {
    match l {
        Some(v) => strings(v),
        None => Seq::empty(),
    }
}

pub open spec fn global_text(g: Option<GlobalIntent>) -> Seq<char> {
    match g {
        Some(gi) => "  (globalIntent\n"@ + inline_if_any(
            "    (behaviorClass [ "@,
            strings(gi.behavior_class),
        ) + (if gi.rationale@.len() > 0 {
            "    (rationale \"\"\""@ + gi.rationale@ + "\"\"\")\n"@
        } else {
            Seq::empty()
        }) + "  )\n"@,
        None => Seq::empty(),
    }
}

pub open spec fn contract_text(c: Contract) -> Seq<char> {
    "      (contract\n"@ + quoted_section("        (preconditions\n"@, strings(c.preconditions))
        + quoted_section("        (postconditions\n"@, strings(c.postconditions)) + quoted_section(
        "        (errorModel\n"@,
        strings(c.error_model),
    ) + "      )\n"@
}

pub open spec fn compat_text(c: Option<Compatibility>) -> Seq<char> {
    match c {
        Some(c) => "      (compatibility\n"@ + "        (breaking "@ + bool_text(c.breaking) + ")\n"@
            + quoted_section("        (deprecations\n"@, optional_items(c.deprecations))
            + quoted_section("        (migrations\n"@, optional_items(c.migrations))
            + "      )\n"@,
        None => Seq::empty(),
    }
}

pub open spec fn entry_head(e: Entry) -> Seq<char> {
    "    (entry\n"@ + "      (anchor\n"@ + "        (file "@ + e.anchor.file@ + ")\n"@
        + "        (symbol "@ + e.anchor.symbol@ + ")\n"@ + "        (hunk "@ + e.anchor.hunk_id@
        + "))\n"@ + "      (changeType "@ + e.change_type@ + ")\n"@ + match e.signature_delta {
        Some(d) => "      (signatureDelta\n"@ + "        (before "@ + d.before@ + ")\n"@
            + "        (after "@ + d.after@ + "))\n"@,
        None => Seq::empty(),
    }
}

pub open spec fn entry_middle(e: Entry) -> Seq<char> {
    contract_text(e.contract) + inline_if_any("      (behaviorClass [ "@, strings(e.behavior_class))
        + inline_if_any("      (sideEffects [ "@, strings(e.side_effects)) + compat_text(
        e.compatibility,
    ) + inline_if_any("      (testsTouched [ "@, optional_items(e.tests_touched)) + inline_if_any(
        "      (featureFlags [ "@,
        optional_items(e.feature_flags),
    )
}

pub open spec fn entry_tail(e: Entry) -> Seq<char> {
    (if e.rationale@.len() > 0 {
        "      (rationale \"\"\""@ + e.rationale@ + "\"\"\")\n"@
    } else {
        Seq::empty()
    }) + (match e.inherits_global_intent {
        Some(b) => "      (inheritsGlobalIntent "@ + bool_text(b) + ")\n"@,
        None => Seq::empty(),
    }) + "    )\n"@
}

pub open spec fn entry_text(e: Entry) -> Seq<char> {
    entry_head(e) + entry_middle(e) + entry_tail(e)
}

pub open spec fn entries_text(es: Seq<Entry>) -> Seq<char>
    decreases es.len(),
{
    if es.len() == 0 {
        Seq::empty()
    } else {
        entries_text(es.drop_last()) + entry_text(es.last())
    }
}

/// The compact notation of `m`.
pub open spec fn manifest_text(m: Manifest) -> Seq<char> {
    "; Gip Manifest\n"@ + "(manifest\n"@ + "  (schemaVersion "@ + m.schema_version@ + ")\n"@
        + "  (commit #"@ + m.commit@ + ")\n"@ + global_text(m.global_intent) + "  (entries\n"@
        + entries_text(m.entries@) + "  )\n"@ + ")\n"@
}

fn push_joined_sp(out: &mut String, items: &Vec<String>)
    ensures
        final(out)@ == old(out)@ + joined(strings(*items), " "@),
{
    let ghost start = out@;
    let n = items.len();
    let mut i: usize = 0;
    while i < n
        invariant
            n == items@.len(),
            i <= n,
            out@ == start + joined(strings(*items).take(i as int), " "@),
        decreases n - i,
    {
        let ghost t = strings(*items).take(i + 1);
        assert(t.drop_last() =~= strings(*items).take(i as int));
        assert(t.last() == items@[i as int]@);
        if i > 0 {
            out.append(" ");
        }
        out.append(items[i].as_str());
        if i == 0 {
            assert(strings(*items).take(0) =~= Seq::<Seq<char>>::empty());
        }
        assert(out@ =~= start + joined(t, " "@));
        i = i + 1;
    }
    assert(strings(*items).take(n as int) =~= strings(*items));
}

fn push_inline(out: &mut String, open: &str, items: &Vec<String>)
    ensures
        final(out)@ == old(out)@ + inline_if_any(open@, strings(*items)),
{
    let ghost start = out@;
    if items.len() > 0 {
        out.append(open);
        push_joined_sp(out, items);
        out.append(" ])\n");
    }
    assert(out@ =~= start + inline_if_any(open@, strings(*items)));
}

fn push_inline_opt(out: &mut String, open: &str, items: &Option<Vec<String>>)
    ensures
        final(out)@ == old(out)@ + inline_if_any(open@, optional_items(*items)),
{
    match items {
        Some(v) => push_inline(out, open, v),
        None => {
            assert(old(out)@ + inline_if_any(open@, optional_items(*items)) =~= old(out)@);
        },
    }
}

fn push_quoted(out: &mut String, open: &str, items: &Vec<String>)
    ensures
        final(out)@ == old(out)@ + quoted_section(open@, strings(*items)),
{
    let ghost start = out@;
    let n = items.len();
    if n == 0 {
        assert(out@ =~= start + quoted_section(open@, strings(*items)));
        return ;
    }
    out.append(open);
    let ghost head = out@;
    let mut i: usize = 0;
    assert(strings(*items).take(0) =~= Seq::<Seq<char>>::empty());
    assert(head + Seq::<char>::empty() =~= head);
    while i < n
        invariant
            n == items@.len(),
            i <= n,
            out@ == head + quoted_items(strings(*items).take(i as int)),
        decreases n - i,
    {
        let ghost t = strings(*items).take(i + 1);
        assert(t.drop_last() =~= strings(*items).take(i as int));
        assert(t.last() == items@[i as int]@);
        out.append("          [ \"\"\"");
        out.append(items[i].as_str());
        out.append("\"\"\" ]\n");
        assert(out@ =~= head + quoted_items(t));
        i = i + 1;
    }
    assert(strings(*items).take(n as int) =~= strings(*items));
    out.append("        )\n");
    assert(out@ =~= start + quoted_section(open@, strings(*items)));
}

fn push_quoted_opt(out: &mut String, open: &str, items: &Option<Vec<String>>)
    ensures
        final(out)@ == old(out)@ + quoted_section(open@, optional_items(*items)),
{
    match items {
        Some(v) => push_quoted(out, open, v),
        None => {
            assert(old(out)@ + quoted_section(open@, optional_items(*items)) =~= old(out)@);
        },
    }
}

fn bool_str(b: bool) -> (r: &'static str)
    ensures
        r@ == bool_text(b),
{
    if b {
        "true"
    } else {
        "false"
    }
}

fn push_global(out: &mut String, g: &Option<GlobalIntent>)
    ensures
        final(out)@ == old(out)@ + global_text(*g),
{
    let ghost start = out@;
    match g {
        Some(gi) => {
            out.append("  (globalIntent\n");
            push_inline(out, "    (behaviorClass [ ", &gi.behavior_class);
            if !gi.rationale.as_str().is_empty() {
                out.append("    (rationale \"\"\"");
                out.append(gi.rationale.as_str());
                out.append("\"\"\")\n");
            }
            out.append("  )\n");
        },
        None => {},
    }
    assert(out@ =~= start + global_text(*g));
}

fn push_contract(out: &mut String, c: &Contract)
    ensures
        final(out)@ == old(out)@ + contract_text(*c),
{
    let ghost start = out@;
    out.append("      (contract\n");
    push_quoted(out, "        (preconditions\n", &c.preconditions);
    push_quoted(out, "        (postconditions\n", &c.postconditions);
    push_quoted(out, "        (errorModel\n", &c.error_model);
    out.append("      )\n");
    assert(out@ =~= start + contract_text(*c));
}

fn push_compat(out: &mut String, c: &Option<Compatibility>)
    ensures
        final(out)@ == old(out)@ + compat_text(*c),
{
    let ghost start = out@;
    match c {
        Some(c) => {
            out.append("      (compatibility\n");
            out.append("        (breaking ");
            out.append(bool_str(c.breaking));
            out.append(")\n");
            push_quoted_opt(out, "        (deprecations\n", &c.deprecations);
            push_quoted_opt(out, "        (migrations\n", &c.migrations);
            out.append("      )\n");
        },
        None => {},
    }
    assert(out@ =~= start + compat_text(*c));
}

fn push_entry_head(out: &mut String, e: &Entry)
    ensures
        final(out)@ == old(out)@ + entry_head(*e),
{
    let ghost start = out@;
    out.append("    (entry\n");
    out.append("      (anchor\n");
    out.append("        (file ");
    out.append(e.anchor.file.as_str());
    out.append(")\n");
    out.append("        (symbol ");
    out.append(e.anchor.symbol.as_str());
    out.append(")\n");
    out.append("        (hunk ");
    out.append(e.anchor.hunk_id.as_str());
    out.append("))\n");
    out.append("      (changeType ");
    out.append(e.change_type.as_str());
    out.append(")\n");
    match &e.signature_delta {
        Some(d) => {
            out.append("      (signatureDelta\n");
            out.append("        (before ");
            out.append(d.before.as_str());
            out.append(")\n");
            out.append("        (after ");
            out.append(d.after.as_str());
            out.append("))\n");
        },
        None => {},
    }
    assert(out@ =~= start + entry_head(*e));
}

fn push_entry_middle(out: &mut String, e: &Entry)
    ensures
        final(out)@ == old(out)@ + entry_middle(*e),
{
    let ghost start = out@;
    push_contract(out, &e.contract);
    push_inline(out, "      (behaviorClass [ ", &e.behavior_class);
    push_inline(out, "      (sideEffects [ ", &e.side_effects);
    push_compat(out, &e.compatibility);
    push_inline_opt(out, "      (testsTouched [ ", &e.tests_touched);
    push_inline_opt(out, "      (featureFlags [ ", &e.feature_flags);
    assert(out@ =~= start + entry_middle(*e));
}

fn push_entry_tail(out: &mut String, e: &Entry)
    ensures
        final(out)@ == old(out)@ + entry_tail(*e),
{
    let ghost start = out@;
    if !e.rationale.as_str().is_empty() {
        out.append("      (rationale \"\"\"");
        out.append(e.rationale.as_str());
        out.append("\"\"\")\n");
    }
    match e.inherits_global_intent {
        Some(b) => {
            out.append("      (inheritsGlobalIntent ");
            out.append(bool_str(b));
            out.append(")\n");
        },
        None => {},
    }
    out.append("    )\n");
    assert(out@ =~= start + entry_tail(*e));
}

fn push_entry(out: &mut String, e: &Entry)
    ensures
        final(out)@ == old(out)@ + entry_text(*e),
{
    let ghost start = out@;
    push_entry_head(out, e);
    push_entry_middle(out, e);
    push_entry_tail(out, e);
    assert(out@ =~= start + entry_text(*e));
}

/// Writes `manifest` in the compact notation.
pub fn serialize_manifest(manifest: &Manifest) -> (r: String)
    ensures
        r@ == manifest_text(*manifest),
{
    let mut out = String::new();
    out.append("; Gip Manifest\n");
    out.append("(manifest\n");
    out.append("  (schemaVersion ");
    out.append(manifest.schema_version.as_str());
    out.append(")\n");
    out.append("  (commit #");
    out.append(manifest.commit.as_str());
    out.append(")\n");
    push_global(&mut out, &manifest.global_intent);
    out.append("  (entries\n");
    let ghost head = out@;
    let n = manifest.entries.len();
    let mut i: usize = 0;
    assert(manifest.entries@.take(0) =~= Seq::<Entry>::empty());
    assert(head + Seq::<char>::empty() =~= head);
    while i < n
        invariant
            n == manifest.entries@.len(),
            i <= n,
            out@ == head + entries_text(manifest.entries@.take(i as int)),
        decreases n - i,
    {
        let ghost t = manifest.entries@.take(i + 1);
        assert(t.drop_last() =~= manifest.entries@.take(i as int));
        push_entry(&mut out, &manifest.entries[i]);
        assert(out@ =~= head + entries_text(t));
        i = i + 1;
    }
    assert(manifest.entries@.take(n as int) =~= manifest.entries@);
    out.append("  )\n");
    out.append(")\n");
    assert(out@ =~= manifest_text(*manifest));
    out
}

} // verus!
