//! Upgrading manifests written under an older schema to the current one.
use vstd::prelude::*;
use crate::types::{Anchor, Compatibility, Entry, Manifest, SCHEMA_VERSION_CURRENT};

verus! {

/// The hunk label given to an entry that has none.
pub const DEFAULT_HUNK_ID: &'static str = "H#0";

/// A legacy flag of `c` says the change breaks its users.
pub open spec fn legacy_breaking(c: Compatibility) -> bool {
    c.binary_breaking == Some(true) || c.source_breaking == Some(true)
}

/// An optional list after migration: kept when present, empty when absent.
pub open spec fn list_initialized(old: Option<Vec<String>>, new: Option<Vec<String>>) -> bool {
    match old {
        Some(_) => new == old,
        None => new matches Some(l) && l@.len() == 0,
    }
}

/// `new` is the compatibility block `old` after migration.
pub open spec fn compat_migrated(old: Compatibility, new: Compatibility) -> bool {
    &&& new.breaking == (old.breaking || legacy_breaking(old))
    &&& list_initialized(old.deprecations, new.deprecations)
    &&& list_initialized(old.migrations, new.migrations)
    &&& new.binary_breaking == old.binary_breaking
    &&& new.source_breaking == old.source_breaking
    &&& new.data_model_migration == old.data_model_migration
}

/// `new` is the entry `old` after migration: an empty hunk label becomes the
/// default one, a compatibility block is migrated, nothing else changes.
pub open spec fn entry_migrated(old: Entry, new: Entry) -> bool {
    &&& new.anchor.file == old.anchor.file
    &&& new.anchor.symbol == old.anchor.symbol
    &&& if old.anchor.hunk_id@.len() == 0 {
        new.anchor.hunk_id@ == DEFAULT_HUNK_ID@
    } else {
        new.anchor.hunk_id == old.anchor.hunk_id
    }
    &&& match old.compatibility {
        None => new.compatibility is None,
        Some(c) => new.compatibility matches Some(n) && compat_migrated(c, n),
    }
    &&& new.change_type == old.change_type
    &&& new.rationale == old.rationale
    &&& new.signature_delta == old.signature_delta
    &&& new.behavior_class == old.behavior_class
    &&& new.contract == old.contract
    &&& new.side_effects == old.side_effects
    &&& new.tests_touched == old.tests_touched
    &&& new.perf_budget == old.perf_budget
    &&& new.security_notes == old.security_notes
    &&& new.feature_flags == old.feature_flags
    &&& new.inherits_global_intent == old.inherits_global_intent
}

/// `new` is the manifest `old` after migration to the current schema.
pub open spec fn manifest_migrated(old: Manifest, new: Manifest) -> bool {
    &&& new.schema_version@ == SCHEMA_VERSION_CURRENT@
    &&& new.commit == old.commit
    &&& new.global_intent == old.global_intent
    &&& new.entries@.len() == old.entries@.len()
    &&& forall|i: int|
        0 <= i < old.entries@.len() ==> entry_migrated(#[trigger] old.entries@[i], new.entries@[i])
}

fn migrate_list(l: Option<Vec<String>>) -> (r: Option<Vec<String>>)
    ensures
        list_initialized(l, r),
{
    match l {
        Some(v) => Some(v),
        None => Some(Vec::new()),
    }
}

fn migrate_compat(c: Compatibility) -> (r: Compatibility)
    ensures
        compat_migrated(c, r),
{
    let breaking = c.breaking || c.binary_breaking == Some(true) || c.source_breaking == Some(
        true,
    );
    Compatibility {
        breaking,
        deprecations: migrate_list(c.deprecations),
        migrations: migrate_list(c.migrations),
        binary_breaking: c.binary_breaking,
        source_breaking: c.source_breaking,
        data_model_migration: c.data_model_migration,
    }
}

fn migrate_entry(e: Entry) -> (r: Entry)
    ensures
        entry_migrated(e, r),
{
    let Entry {
        anchor,
        change_type,
        rationale,
        signature_delta,
        behavior_class,
        contract,
        side_effects,
        compatibility,
        tests_touched,
        perf_budget,
        security_notes,
        feature_flags,
        inherits_global_intent,
    } = e;
    let Anchor { file, symbol, hunk_id } = anchor;
    let hunk_id = if hunk_id.as_str().is_empty() {
        String::from_str(DEFAULT_HUNK_ID)
    } else {
        hunk_id
    };
    let compatibility = match compatibility {
        Some(c) => Some(migrate_compat(c)),
        None => None,
    };
    Entry {
        anchor: Anchor { file, symbol, hunk_id },
        change_type,
        rationale,
        signature_delta,
        behavior_class,
        contract,
        side_effects,
        compatibility,
        tests_touched,
        perf_budget,
        security_notes,
        feature_flags,
        inherits_global_intent,
    }
}

/// Migrates `manifest` to the current schema: the version is set to the
/// current one, each compatibility block gets its optional lists (and
/// `breaking` where a legacy flag says so), each empty hunk label gets the
/// default one. Nothing else changes.
pub fn migrate_v1_to_v2(manifest: Manifest) -> (r: Manifest)
    ensures
        manifest_migrated(manifest, r),
{
    let Manifest { schema_version: _, commit, global_intent, entries } = manifest;
    let ghost old_entries = entries@;
    let mut out: Vec<Entry> = Vec::new();
    for e in it: entries.into_iter()
        invariant
            it.seq() == old_entries,
            out@.len() == it.index(),
            forall|i: int|
                0 <= i < out@.len() ==> entry_migrated(#[trigger] old_entries[i], out@[i]),
    {
        let n = migrate_entry(e);
        out.push(n);
    }
    Manifest {
        schema_version: String::from_str(SCHEMA_VERSION_CURRENT),
        commit,
        global_intent,
        entries: out,
    }
}

/// A manifest as the store hands it out: migrated when it declares any
/// version but the current one, untouched otherwise.
pub fn normalize_loaded(manifest: Manifest) -> (r: Manifest)
    ensures
        manifest.schema_version@ == SCHEMA_VERSION_CURRENT@ ==> r == manifest,
        manifest.schema_version@ != SCHEMA_VERSION_CURRENT@ ==> manifest_migrated(manifest, r),
{
    let current = String::from_str(SCHEMA_VERSION_CURRENT);
    if manifest.schema_version == current {
        manifest
    } else {
        migrate_v1_to_v2(manifest)
    }
}

/// Migration is idempotent: migrating a migrated manifest gives it back.
pub proof fn lemma_migrate_idempotent(m: Manifest, once: Manifest, twice: Manifest)
    requires
        manifest_migrated(m, once),
        manifest_migrated(once, twice),
    ensures
        twice.schema_version@ == once.schema_version@,
        twice.commit == once.commit,
        twice.global_intent == once.global_intent,
        twice.entries@ == once.entries@,
{
    reveal_strlit("H#0");
    assert forall|i: int| 0 <= i < once.entries@.len() implies twice.entries@[i]
        == once.entries@[i] by {
        let e0 = m.entries@[i];
        let e1 = once.entries@[i];
        let e2 = twice.entries@[i];
        assert(entry_migrated(e0, e1));
        assert(entry_migrated(e1, e2));
        assert(e2.anchor == e1.anchor);
    }
    assert(twice.entries@ =~= once.entries@);
}

/// After migration a legacy breaking flag shows in `breaking`, every
/// compatibility block has its lists, and an empty hunk label reads `H#0`.
pub proof fn lemma_migrate_legacy_fields(m: Manifest, r: Manifest)
    requires
        manifest_migrated(m, r),
    ensures
        forall|i: int|
            0 <= i < m.entries@.len() ==> {
                let old = #[trigger] m.entries@[i];
                let new = r.entries@[i];
                &&& (old.compatibility matches Some(c) && legacy_breaking(c)) ==> (
                new.compatibility matches Some(n) && n.breaking)
                &&& (new.compatibility matches Some(n) ==> n.deprecations is Some
                    && n.migrations is Some)
                &&& old.anchor.hunk_id@.len() == 0 ==> new.anchor.hunk_id@ == seq!['H', '#', '0']
            },
{
    reveal_strlit("H#0");
    assert forall|i: int| 0 <= i < m.entries@.len() implies {
        let old = #[trigger] m.entries@[i];
        let new = r.entries@[i];
        &&& (old.compatibility matches Some(c) && legacy_breaking(c)) ==> (
        new.compatibility matches Some(n) && n.breaking)
        &&& (new.compatibility matches Some(n) ==> n.deprecations is Some && n.migrations is Some)
        &&& old.anchor.hunk_id@.len() == 0 ==> new.anchor.hunk_id@ == seq!['H', '#', '0']
    } by {
        assert(entry_migrated(m.entries@[i], r.entries@[i]));
        assert(DEFAULT_HUNK_ID@ =~= seq!['H', '#', '0']);
    }
}

} // verus!
