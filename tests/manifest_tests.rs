use gip::compact::serialize_manifest;
use gip::migrate::{migrate_v1_to_v2, normalize_loaded};
use gip::types::{
    Anchor, Compatibility, Contract, Entry, GlobalIntent, Manifest, SignatureDelta,
    BEHAVIOR_BUGFIX, BEHAVIOR_FEATURE, BEHAVIOR_REFACTOR, BEHAVIOR_SECURITY, CHANGE_ADD,
    CHANGE_MODIFY, SCHEMA_VERSION_1_0, SCHEMA_VERSION_2_0, SCHEMA_VERSION_CURRENT,
};

fn empty_contract() -> Contract {
    Contract {
        inputs: None,
        outputs: None,
        preconditions: vec![],
        postconditions: vec![],
        error_model: vec![],
    }
}

fn entry(file: &str, symbol: &str, hunk: &str) -> Entry {
    Entry {
        anchor: Anchor {
            file: file.to_string(),
            symbol: symbol.to_string(),
            hunk_id: hunk.to_string(),
        },
        change_type: CHANGE_MODIFY.to_string(),
        rationale: "".to_string(),
        signature_delta: None,
        behavior_class: vec![],
        contract: empty_contract(),
        side_effects: vec![],
        compatibility: None,
        tests_touched: None,
        perf_budget: None,
        security_notes: None,
        feature_flags: None,
        inherits_global_intent: None,
    }
}

#[test]
fn test_manifest_new() {
    let manifest = Manifest::new("abc123".to_string());
    assert_eq!(manifest.schema_version, SCHEMA_VERSION_CURRENT);
    assert_eq!(manifest.commit, "abc123");
    assert!(manifest.global_intent.is_none());
    assert_eq!(manifest.entries.len(), 0);
}

#[test]
fn test_all_behavior_classes() {
    let classes = Manifest::all_behavior_classes();
    assert_eq!(classes.len(), 9);
    assert!(classes.contains(&BEHAVIOR_BUGFIX));
    assert!(classes.contains(&BEHAVIOR_FEATURE));
    assert!(classes.contains(&BEHAVIOR_SECURITY));
}

#[test]
fn test_migrate_v1_to_v2() {
    let manifest = Manifest {
        schema_version: SCHEMA_VERSION_1_0.to_string(),
        commit: "old123".to_string(),
        global_intent: None,
        entries: vec![Entry {
            anchor: Anchor {
                file: "old.rs".to_string(),
                symbol: "old_fn".to_string(),
                hunk_id: "".to_string(),
            },
            change_type: CHANGE_MODIFY.to_string(),
            signature_delta: None,
            contract: empty_contract(),
            behavior_class: vec![BEHAVIOR_BUGFIX.to_string()],
            side_effects: vec![],
            compatibility: Some(Compatibility {
                breaking: false,
                deprecations: None,
                migrations: None,
                binary_breaking: Some(true),
                source_breaking: Some(false),
                data_model_migration: None,
            }),
            tests_touched: None,
            perf_budget: None,
            security_notes: None,
            feature_flags: None,
            rationale: "".to_string(),
            inherits_global_intent: None,
        }],
    };

    let migrated = migrate_v1_to_v2(manifest);

    assert_eq!(migrated.schema_version, SCHEMA_VERSION_2_0);
    assert_eq!(migrated.entries[0].anchor.hunk_id, "H#0");
    let compat = migrated.entries[0].compatibility.as_ref().unwrap();
    assert!(compat.breaking);
    assert!(compat.deprecations.is_some());
    assert!(compat.migrations.is_some());
}

#[test]
fn migration_twice_equals_once() {
    let mut e = entry("a.rs", "f", "");
    e.compatibility = Some(Compatibility {
        breaking: false,
        deprecations: None,
        migrations: Some(vec!["run the script".to_string()]),
        binary_breaking: None,
        source_breaking: Some(true),
        data_model_migration: Some(true),
    });
    let m = Manifest {
        schema_version: "".to_string(),
        commit: "c1".to_string(),
        global_intent: None,
        entries: vec![e, entry("b.rs", "g", "H#7")],
    };
    let once = migrate_v1_to_v2(m);
    let twice = migrate_v1_to_v2(once.clone());
    assert_eq!(once, twice);
    let c = once.entries[0].compatibility.as_ref().unwrap();
    assert!(c.breaking);
    assert_eq!(c.deprecations, Some(vec![]));
    assert_eq!(c.migrations, Some(vec!["run the script".to_string()]));
    assert_eq!(c.source_breaking, Some(true));
    assert_eq!(c.data_model_migration, Some(true));
    assert_eq!(once.entries[1].anchor.hunk_id, "H#7");
}

#[test]
fn migration_keeps_breaking_without_legacy_flags() {
    let mut e = entry("a.rs", "f", "H#2");
    e.compatibility = Some(Compatibility {
        breaking: false,
        deprecations: Some(vec!["x".to_string()]),
        migrations: None,
        binary_breaking: Some(false),
        source_breaking: None,
        data_model_migration: None,
    });
    let m = Manifest {
        schema_version: SCHEMA_VERSION_1_0.to_string(),
        commit: "c".to_string(),
        global_intent: None,
        entries: vec![e],
    };
    let r = migrate_v1_to_v2(m);
    let c = r.entries[0].compatibility.as_ref().unwrap();
    assert!(!c.breaking);
    assert_eq!(c.deprecations, Some(vec!["x".to_string()]));
    assert_eq!(c.migrations, Some(vec![]));
    assert_eq!(r.entries[0].anchor.hunk_id, "H#2");
}

#[test]
fn loaded_manifest_of_current_version_is_untouched() {
    let m = Manifest {
        schema_version: SCHEMA_VERSION_2_0.to_string(),
        commit: "c".to_string(),
        global_intent: None,
        entries: vec![entry("a.rs", "f", "")],
    };
    let r = normalize_loaded(m.clone());
    assert_eq!(r, m);
}

#[test]
fn loaded_manifest_of_old_or_unknown_version_is_migrated() {
    for v in ["1.0", "", "0.9"] {
        let m = Manifest {
            schema_version: v.to_string(),
            commit: "c".to_string(),
            global_intent: None,
            entries: vec![entry("a.rs", "f", "")],
        };
        let r = normalize_loaded(m);
        assert_eq!(r.schema_version, "2.0");
        assert_eq!(r.entries[0].anchor.hunk_id, "H#0");
    }
}

#[test]
fn test_serialize_simple_manifest() {
    let mut e = entry("src/main.rs", "main", "H#1");
    e.change_type = CHANGE_ADD.to_string();
    e.contract.preconditions = vec!["none".to_string()];
    e.contract.postconditions = vec!["program runs".to_string()];
    e.behavior_class = vec![BEHAVIOR_FEATURE.to_string()];
    e.rationale = "Initial implementation".to_string();
    let manifest = Manifest {
        schema_version: SCHEMA_VERSION_2_0.to_string(),
        commit: "abc123".to_string(),
        global_intent: None,
        entries: vec![e],
    };

    let toon = serialize_manifest(&manifest);

    assert!(toon.contains("; Gip Manifest"));
    assert!(toon.contains("(manifest"));
    assert!(toon.contains("(schemaVersion 2.0)"));
    assert!(toon.contains("(commit #abc123)"));
    assert!(toon.contains("(file src/main.rs)"));
    assert!(toon.contains("(symbol main)"));
    assert!(toon.contains("(hunk H#1)"));
    assert!(toon.contains("(changeType add)"));
    assert!(toon.contains("(behaviorClass [ feature ])"));
    assert!(toon.contains("(rationale \"\"\"Initial implementation\"\"\")"));
}

#[test]
fn test_serialize_with_global_intent() {
    let manifest = Manifest {
        schema_version: SCHEMA_VERSION_2_0.to_string(),
        commit: "xyz789".to_string(),
        global_intent: Some(GlobalIntent {
            behavior_class: vec![BEHAVIOR_REFACTOR.to_string()],
            rationale: "Complete module refactor".to_string(),
        }),
        entries: vec![],
    };

    let toon = serialize_manifest(&manifest);

    assert!(toon.contains("(globalIntent"));
    assert!(toon.contains("(behaviorClass [ refactor ])"));
    assert!(toon.contains("(rationale \"\"\"Complete module refactor\"\"\")"));
}

#[test]
fn test_serialize_with_signature_delta() {
    let mut e = entry("lib.rs", "process", "H#10");
    e.signature_delta = Some(SignatureDelta {
        before: "fn process(x: i32)".to_string(),
        after: "fn process(x: i32, y: i32)".to_string(),
    });
    e.behavior_class = vec![BEHAVIOR_FEATURE.to_string()];
    let manifest = Manifest {
        schema_version: SCHEMA_VERSION_2_0.to_string(),
        commit: "sig123".to_string(),
        global_intent: None,
        entries: vec![e],
    };

    let toon = serialize_manifest(&manifest);

    assert!(toon.contains("(signatureDelta"));
    assert!(toon.contains("(before fn process(x: i32))"));
    assert!(toon.contains("(after fn process(x: i32, y: i32))"));
}

#[test]
fn test_serialize_with_compatibility() {
    let mut e = entry("api.rs", "old_api", "H#5");
    e.behavior_class = vec![BEHAVIOR_FEATURE.to_string()];
    e.compatibility = Some(Compatibility {
        breaking: true,
        deprecations: Some(vec!["old parameter removed".to_string()]),
        migrations: Some(vec!["use new_api instead".to_string()]),
        binary_breaking: None,
        source_breaking: None,
        data_model_migration: None,
    });
    let manifest = Manifest {
        schema_version: SCHEMA_VERSION_2_0.to_string(),
        commit: "compat123".to_string(),
        global_intent: None,
        entries: vec![e],
    };

    let toon = serialize_manifest(&manifest);

    assert!(toon.contains("(compatibility"));
    assert!(toon.contains("(breaking true)"));
    assert!(toon.contains("(deprecations"));
    assert!(toon.contains("old parameter removed"));
    assert!(toon.contains("(migrations"));
    assert!(toon.contains("use new_api instead"));
}

#[test]
fn test_serialize_with_all_optional_fields() {
    let mut e = entry("full.rs", "full_fn", "H#99");
    e.change_type = CHANGE_ADD.to_string();
    e.signature_delta = Some(SignatureDelta {
        before: "".to_string(),
        after: "fn full_fn()".to_string(),
    });
    e.contract = Contract {
        inputs: Some(vec!["a".to_string()]),
        outputs: Some("b".to_string()),
        preconditions: vec!["a > 0".to_string()],
        postconditions: vec!["b > a".to_string()],
        error_model: vec!["panic".to_string()],
    };
    e.behavior_class = vec![BEHAVIOR_FEATURE.to_string()];
    e.side_effects = vec!["logs:stdout".to_string()];
    e.compatibility = Some(Compatibility {
        breaking: false,
        deprecations: None,
        migrations: None,
        binary_breaking: None,
        source_breaking: None,
        data_model_migration: None,
    });
    e.tests_touched = Some(vec!["test.rs".to_string()]);
    e.feature_flags = Some(vec!["FLAG_A".to_string()]);
    e.rationale = "Full entry".to_string();
    e.inherits_global_intent = Some(true);
    let manifest = Manifest {
        schema_version: SCHEMA_VERSION_2_0.to_string(),
        commit: "full123".to_string(),
        global_intent: Some(GlobalIntent {
            behavior_class: vec![BEHAVIOR_FEATURE.to_string()],
            rationale: "Global change".to_string(),
        }),
        entries: vec![e],
    };

    let toon = serialize_manifest(&manifest);

    assert!(toon.contains("(globalIntent"));
    assert!(toon.contains("(signatureDelta"));
    assert!(toon.contains("(compatibility"));
    assert!(toon.contains("(testsTouched"));
    assert!(toon.contains("(featureFlags"));
    assert!(toon.contains("(inheritsGlobalIntent true)"));
}

#[test]
fn compact_notation_exact_text() {
    let mut e = entry("a.rs", "f", "H#3");
    e.behavior_class = vec!["bugfix".to_string(), "perf".to_string()];
    e.contract.error_model = vec!["none".to_string()];
    e.side_effects = vec!["io".to_string(), "log".to_string()];
    e.compatibility = Some(Compatibility {
        breaking: false,
        deprecations: Some(vec![]),
        migrations: Some(vec!["m1".to_string()]),
        binary_breaking: None,
        source_breaking: None,
        data_model_migration: None,
    });
    e.tests_touched = Some(vec![]);
    e.rationale = "why".to_string();
    e.inherits_global_intent = Some(false);
    let m = Manifest {
        schema_version: "2.0".to_string(),
        commit: "c9".to_string(),
        global_intent: Some(GlobalIntent {
            behavior_class: vec![],
            rationale: "".to_string(),
        }),
        entries: vec![e],
    };
    let expected = "; Gip Manifest\n(manifest\n  (schemaVersion 2.0)\n  (commit #c9)\n  (globalIntent\n  )\n  (entries\n    (entry\n      (anchor\n        (file a.rs)\n        (symbol f)\n        (hunk H#3))\n      (changeType modify)\n      (contract\n        (errorModel\n          [ \"\"\"none\"\"\" ]\n        )\n      )\n      (behaviorClass [ bugfix perf ])\n      (sideEffects [ io log ])\n      (compatibility\n        (breaking false)\n        (migrations\n          [ \"\"\"m1\"\"\" ]\n        )\n      )\n      (rationale \"\"\"why\"\"\")\n      (inheritsGlobalIntent false)\n    )\n  )\n)\n";
    assert_eq!(serialize_manifest(&m), expected);
}

#[test]
fn compact_notation_of_empty_manifest() {
    let m = Manifest::new("HEAD".to_string());
    assert_eq!(
        serialize_manifest(&m),
        "; Gip Manifest\n(manifest\n  (schemaVersion 2.0)\n  (commit #HEAD)\n  (entries\n  )\n)\n"
    );
}
