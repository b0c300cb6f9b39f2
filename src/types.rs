//! The manifest data model: one `Manifest` per commit, holding the intent
//! behind each localized change.
use vstd::prelude::*;

verus! {

pub const SCHEMA_VERSION_1_0: &'static str = "1.0";

pub const SCHEMA_VERSION_2_0: &'static str = "2.0";

/// The schema version that every component other than the migrator reads.
pub const SCHEMA_VERSION_CURRENT: &'static str = "2.0";

pub const BEHAVIOR_BUGFIX: &'static str = "bugfix";

pub const BEHAVIOR_FEATURE: &'static str = "feature";

pub const BEHAVIOR_REFACTOR: &'static str = "refactor";

pub const BEHAVIOR_PERF: &'static str = "perf";

pub const BEHAVIOR_SECURITY: &'static str = "security";

pub const BEHAVIOR_VALIDATION: &'static str = "validation";

pub const BEHAVIOR_DOCS: &'static str = "docs";

pub const BEHAVIOR_CONFIG: &'static str = "config";

pub const BEHAVIOR_MIGRATION: &'static str = "migration";

pub const CHANGE_ADD: &'static str = "add";

pub const CHANGE_MODIFY: &'static str = "modify";

pub const CHANGE_DELETE: &'static str = "delete";

pub const CHANGE_RENAME: &'static str = "rename";

/// The intent manifest of one commit.
#[derive(Debug, Clone, PartialEq)]
pub struct Manifest {
    pub schema_version: String,
    pub commit: String,
    pub global_intent: Option<GlobalIntent>,
    pub entries: Vec<Entry>,
}

/// Commit-wide rationale, shown where no entry matches a conflict.
#[derive(Debug, Clone, PartialEq)]
pub struct GlobalIntent {
    pub behavior_class: Vec<String>,
    pub rationale: String,
}

/// The intent behind one localized change.
#[derive(Debug, Clone, PartialEq)]
pub struct Entry {
    pub anchor: Anchor,
    pub change_type: String,
    pub rationale: String,
    pub signature_delta: Option<SignatureDelta>,
    pub behavior_class: Vec<String>,
    pub contract: Contract,
    pub side_effects: Vec<String>,
    pub compatibility: Option<Compatibility>,
    pub tests_touched: Option<Vec<String>>,
    pub perf_budget: Option<PerfBudget>,
    pub security_notes: Option<Vec<String>>,
    pub feature_flags: Option<Vec<String>>,
    pub inherits_global_intent: Option<bool>,
}

/// Where a change sits: a repository-relative file, a symbol and a hunk label.
#[derive(Debug, Clone, PartialEq)]
pub struct Anchor {
    pub file: String,
    pub symbol: String,
    pub hunk_id: String,
}

/// An API surface change, before and after.
#[derive(Debug, Clone, PartialEq)]
pub struct SignatureDelta {
    pub before: String,
    pub after: String,
}

/// The behavioural contract of a changed symbol.
#[derive(Debug, Clone, PartialEq)]
pub struct Contract {
    pub inputs: Option<Vec<String>>,
    pub outputs: Option<String>,
    pub preconditions: Vec<String>,
    pub postconditions: Vec<String>,
    pub error_model: Vec<String>,
}

/// Compatibility of a change; the last three fields are read from legacy
/// manifests only.
#[derive(Debug, Clone, PartialEq)]
pub struct Compatibility {
    pub breaking: bool,
    pub deprecations: Option<Vec<String>>,
    pub migrations: Option<Vec<String>>,
    pub binary_breaking: Option<bool>,
    pub source_breaking: Option<bool>,
    pub data_model_migration: Option<bool>,
}

/// Performance expectations of a change.
#[derive(Debug, Clone, PartialEq)]
pub struct PerfBudget {
    pub expected_max_latency_ms: Option<i32>,
    pub cpu_delta_pct: Option<i32>,
}

/// The fixed vocabulary of behaviour tags, in their canonical order.
pub open spec fn behavior_vocabulary() -> Seq<Seq<char>> {
    seq![
        BEHAVIOR_BUGFIX@,
        BEHAVIOR_FEATURE@,
        BEHAVIOR_REFACTOR@,
        BEHAVIOR_PERF@,
        BEHAVIOR_SECURITY@,
        BEHAVIOR_VALIDATION@,
        BEHAVIOR_DOCS@,
        BEHAVIOR_CONFIG@,
        BEHAVIOR_MIGRATION@,
    ]
}

impl Manifest {
    /// An empty manifest of the current schema for `commit`.
    pub fn new(commit: String) -> (r: Manifest)
        ensures
            r.schema_version@ == SCHEMA_VERSION_CURRENT@,
            r.commit@ == commit@,
            r.global_intent is None,
            r.entries@.len() == 0,
    {
        Manifest {
            schema_version: String::from_str(SCHEMA_VERSION_CURRENT),
            commit,
            global_intent: None,
            entries: Vec::new(),
        }
    }

    /// Every behaviour tag of the vocabulary, once each.
    pub fn all_behavior_classes() -> (r: Vec<&'static str>)
        ensures
            r@.len() == behavior_vocabulary().len(),
            forall|i: int| 0 <= i < r@.len() ==> r@[i]@ == behavior_vocabulary()[i],
    {
        let r = vec![
            BEHAVIOR_BUGFIX,
            BEHAVIOR_FEATURE,
            BEHAVIOR_REFACTOR,
            BEHAVIOR_PERF,
            BEHAVIOR_SECURITY,
            BEHAVIOR_VALIDATION,
            BEHAVIOR_DOCS,
            BEHAVIOR_CONFIG,
            BEHAVIOR_MIGRATION,
        ];
        r
    }
}

} // verus!
