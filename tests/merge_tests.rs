use gip::marker::format_enriched_marker;
use gip::resolver::find_entry;
use gip::rewrite::{enrich_all_conflicts, enrich_text, ConflictedFile};
use gip::types::{Anchor, Compatibility, Contract, Entry, GlobalIntent, Manifest};

fn empty_contract() -> Contract {
    Contract {
        inputs: None,
        outputs: None,
        preconditions: vec![],
        postconditions: vec![],
        error_model: vec![],
    }
}

fn entry(file: &str, symbol: &str, rationale: &str, behavior: &[&str]) -> Entry {
    Entry {
        anchor: Anchor {
            file: file.to_string(),
            symbol: symbol.to_string(),
            hunk_id: "H#1".to_string(),
        },
        change_type: "modify".to_string(),
        rationale: rationale.to_string(),
        signature_delta: None,
        behavior_class: behavior.iter().map(|b| b.to_string()).collect(),
        contract: empty_contract(),
        side_effects: vec![],
        compatibility: None,
        tests_touched: None,
        perf_budget: None,
        security_notes: None,
        feature_flags: None,
        inherits_global_intent: None,
    }
}

fn manifest(commit: &str, entries: Vec<Entry>) -> Manifest {
    Manifest {
        schema_version: "2.0".to_string(),
        commit: commit.to_string(),
        global_intent: None,
        entries,
    }
}

#[test]
fn test_format_enriched_marker_full() {
    let manifest = Manifest {
        schema_version: "2.0".to_string(),
        commit: "abc1234".to_string(),
        global_intent: None,
        entries: vec![Entry {
            anchor: Anchor {
                file: "src/payment.rs".to_string(),
                symbol: "processPayment".to_string(),
                hunk_id: "H#1".to_string(),
            },
            change_type: "modify".to_string(),
            signature_delta: None,
            contract: Contract {
                inputs: Some(vec![
                    "amount: float".to_string(),
                    "currency: string".to_string(),
                ]),
                outputs: Some("bool success".to_string()),
                preconditions: vec![],
                postconditions: vec![],
                error_model: vec!["throws PaymentException".to_string()],
            },
            behavior_class: vec!["feature".to_string()],
            side_effects: vec![],
            compatibility: Some(Compatibility {
                breaking: true,
                deprecations: None,
                migrations: Some(vec!["Update payment config".to_string()]),
                binary_breaking: None,
                source_breaking: None,
                data_model_migration: None,
            }),
            tests_touched: None,
            perf_budget: None,
            security_notes: None,
            feature_flags: None,
            rationale: "Added new payment method".to_string(),
            inherits_global_intent: None,
        }],
    };

    let marker =
        format_enriched_marker("HEAD", "Your changes", &manifest, "src/payment.rs", None);

    assert!(marker.contains("||| Gip CONTEXT (HEAD - Your changes)"));
    assert!(marker.contains("||| Commit: abc1234"));
    assert!(marker.contains("||| behaviorClass: feature"));
    assert!(marker.contains("||| rationale: Added new payment method"));
    assert!(marker.contains("||| breaking: true"));
    assert!(marker.contains("||| migrations[0]: Update payment config"));
    assert!(marker.contains("||| inputs[0]: amount: float"));
    assert!(marker.contains("||| outputs: bool success"));
    assert!(marker.contains("||| symbol: processPayment"));
    assert!(marker.contains("||| errorModel[0]: throws PaymentException"));
}

#[test]
fn test_find_entry_with_symbol_context() {
    let manifest = manifest(
        "abc",
        vec![
            Entry {
                anchor: Anchor { file: "src/main.rs".to_string(), symbol: "main".to_string(), hunk_id: "1".to_string() },
                change_type: "mod".to_string(), rationale: "main logic".to_string(),
                behavior_class: vec![], contract: empty_contract(),
                side_effects: vec![], compatibility: None, tests_touched: None, perf_budget: None, security_notes: None, feature_flags: None, inherits_global_intent: None, signature_delta: None,
            },
            Entry {
                anchor: Anchor { file: "src/main.rs".to_string(), symbol: "helper".to_string(), hunk_id: "2".to_string() },
                change_type: "mod".to_string(), rationale: "helper logic".to_string(),
                behavior_class: vec![], contract: empty_contract(),
                side_effects: vec![], compatibility: None, tests_touched: None, perf_budget: None, security_notes: None, feature_flags: None, inherits_global_intent: None, signature_delta: None,
            },
        ],
    );

    let context = vec!["fn helper() {", "    // some code"];
    let entry = find_entry(&manifest, "src/main.rs", Some(&context));
    assert_eq!(entry.unwrap().anchor.symbol, "helper");

    let context_main = vec!["fn main() {", "    helper();"];
    let entry_main = find_entry(&manifest, "src/main.rs", Some(&context_main));
    assert_eq!(entry_main.unwrap().anchor.symbol, "main");
}

#[test]
fn resolver_ties_keep_the_line_nearest_the_conflict() {
    let m = manifest(
        "c",
        vec![
            entry("src/main.rs", "main", "", &[]),
            entry("src/main.rs", "helper", "", &[]),
        ],
    );
    let context = vec!["fn main() {", "}", "fn helper() {", "    let x = 1;"];
    let e = find_entry(&m, "src/main.rs", Some(&context)).unwrap();
    assert_eq!(e.anchor.symbol, "helper");
}

#[test]
fn resolver_falls_back_to_first_candidate() {
    let m = manifest(
        "c",
        vec![
            entry("other.rs", "zzz", "", &[]),
            entry("src/lib.rs", "alpha", "", &[]),
            entry("src/lib.rs", "beta", "", &[]),
        ],
    );
    let context = vec!["nothing here", "  still nothing"];
    assert_eq!(find_entry(&m, "src/lib.rs", Some(&context)).unwrap().anchor.symbol, "alpha");
    assert_eq!(find_entry(&m, "src/lib.rs", None).unwrap().anchor.symbol, "alpha");
    let empty: Vec<&str> = vec![];
    assert_eq!(find_entry(&m, "src/lib.rs", Some(&empty)).unwrap().anchor.symbol, "alpha");
}

#[test]
fn resolver_matches_by_base_name() {
    let m = manifest("c", vec![entry("crates/core/src/lib.rs", "run", "", &[])]);
    let e = find_entry(&m, "src/lib.rs", None).unwrap();
    assert_eq!(e.anchor.file, "crates/core/src/lib.rs");
    assert!(find_entry(&m, "src/main.rs", None).is_none());
    assert!(find_entry(&manifest("c", vec![]), "src/lib.rs", None).is_none());
}

#[test]
fn resolver_counts_tabs_as_indentation() {
    let m = manifest(
        "c",
        vec![entry("a.py", "outer", "", &[]), entry("a.py", "inner", "", &[])],
    );
    let context = vec!["\tdef inner():", "def outer():", "\t\tinner()"];
    assert_eq!(find_entry(&m, "a.py", Some(&context)).unwrap().anchor.symbol, "outer");
}

#[test]
fn marker_without_entry_shows_global_intent() {
    let mut m = manifest("g1", vec![entry("elsewhere.rs", "x", "r", &["docs"])]);
    m.global_intent = Some(GlobalIntent {
        behavior_class: vec!["refactor".to_string(), "perf".to_string()],
        rationale: "Whole-module cleanup".to_string(),
    });
    let block = format_enriched_marker("HEAD", "Your changes", &m, "src/a.rs", None);
    assert_eq!(
        block,
        "||| Gip CONTEXT (HEAD - Your changes)\n||| Commit: g1\n||| behaviorClass: refactor, perf\n||| rationale: Whole-module cleanup\n"
    );
}

#[test]
fn marker_without_entry_or_global_intent_has_header_only() {
    let m = manifest("g2", vec![]);
    let block = format_enriched_marker("main", "Their changes", &m, "a.rs", None);
    assert_eq!(block, "||| Gip CONTEXT (main - Their changes)\n||| Commit: g2\n");
}

#[test]
fn marker_entry_inherits_global_intent() {
    let mut e = entry("a.rs", "f", "", &[]);
    e.inherits_global_intent = Some(true);
    let mut m = manifest("g3", vec![e]);
    m.global_intent = Some(GlobalIntent {
        behavior_class: vec!["security".to_string()],
        rationale: "Harden inputs".to_string(),
    });
    let block = format_enriched_marker("HEAD", "Your changes", &m, "a.rs", None);
    assert_eq!(
        block,
        "||| Gip CONTEXT (HEAD - Your changes)\n||| Commit: g3\n||| behaviorClass: security\n||| rationale: Harden inputs\n||| symbol: f\n"
    );
}

#[test]
fn marker_numbers_list_items_in_decimal() {
    let mut e = entry("a.rs", "f", "why", &["bugfix"]);
    e.side_effects = (0..12).map(|i| format!("s{}", i)).collect();
    e.contract.preconditions = vec!["p".to_string()];
    e.contract.postconditions = vec!["q".to_string()];
    let m = manifest("n1", vec![e]);
    let block = format_enriched_marker("HEAD", "Your changes", &m, "a.rs", None);
    assert!(block.contains("||| sideEffects[0]: s0\n"));
    assert!(block.contains("||| sideEffects[9]: s9\n"));
    assert!(block.contains("||| sideEffects[11]: s11\n||| symbol: f\n"));
    assert!(block.contains("||| preconditions[0]: p\n||| postconditions[0]: q\n"));
}

fn side(commit: &str, behavior: &str, rationale: &str) -> Manifest {
    manifest(commit, vec![entry("file.txt", "main", rationale, &[behavior])])
}

#[test]
fn end_to_end_conflict_is_enriched_in_order() {
    let ours = side("c-main", "refactor", "Main change rationale");
    let theirs = side("c-feature", "feature", "Feature change rationale");
    let content = "<<<<<<< HEAD\nmain content\n=======\nfeature content\n>>>>>>> feature\n";
    let out = enrich_text(content, "file.txt", Some(&ours), Some(&theirs)).unwrap();
    let expected = "<<<<<<< HEAD\n\
||| Gip CONTEXT (HEAD - Your changes)\n\
||| Commit: c-main\n\
||| behaviorClass: refactor\n\
||| rationale: Main change rationale\n\
||| symbol: main\n\
main content\n\
=======\n\
feature content\n\
||| Gip CONTEXT (feature - Their changes)\n\
||| Commit: c-feature\n\
||| behaviorClass: feature\n\
||| rationale: Feature change rationale\n\
||| symbol: main\n\
>>>>>>> feature\n";
    assert_eq!(out, expected);
}

#[test]
fn rewrite_leaves_file_without_ours_line_untouched() {
    let ours = side("a", "feature", "r");
    assert!(enrich_text("no conflict here\n", "file.txt", Some(&ours), Some(&ours)).is_none());
    assert!(enrich_text("", "file.txt", Some(&ours), None).is_none());
    assert!(enrich_text("text <<<<<<< inside\n", "file.txt", Some(&ours), None).is_none());
}

#[test]
fn rewrite_leaves_file_untouched_without_manifests() {
    let content = "<<<<<<< HEAD\na\n=======\nb\n>>>>>>> x\n";
    assert!(enrich_text(content, "file.txt", None, None).is_none());
}

#[test]
fn rewrite_keeps_delimiter_lines_and_labels_exactly() {
    let theirs = side("t", "feature", "r");
    let content = "x\r\n<<<<<<< HEAD (ours)\r\na\r\n======= sep\r\nb\r\n>>>>>>>   topic/branch-2  \r\ntail";
    let out = enrich_text(content, "file.txt", None, Some(&theirs)).unwrap();
    assert!(out.contains("<<<<<<< HEAD (ours)\r\n"));
    assert!(out.contains("======= sep\r\n"));
    assert!(out.contains(">>>>>>>   topic/branch-2  \r\n"));
    assert!(out.contains("||| Gip CONTEXT (topic/branch-2 - Their changes)\n"));
    assert!(out.ends_with("\r\ntail"));
    let stripped: String = out
        .split_inclusive('\n')
        .filter(|l| !l.starts_with("||| "))
        .collect();
    assert_eq!(stripped, content);
}

#[test]
fn rewrite_handles_each_region_and_only_in_state() {
    let ours = side("o", "feature", "r");
    let content = ">>>>>>> stray\n<<<<<<< HEAD\na\n=======\nb\n>>>>>>> one\nmid\n<<<<<<< HEAD\nc\n=======\nd\n>>>>>>> two\n";
    let out = enrich_text(content, "file.txt", Some(&ours), Some(&ours)).unwrap();
    assert_eq!(out.matches("(HEAD - Your changes)").count(), 2);
    assert!(out.contains("(one - Their changes)"));
    assert!(out.contains("(two - Their changes)"));
    assert!(!out.contains("(stray - Their changes)"));
    assert!(out.starts_with(">>>>>>> stray\n<<<<<<< HEAD\n||| "));
}

#[test]
fn rewrite_ours_window_is_fifty_lines() {
    let ours = manifest(
        "o",
        vec![entry("f.rs", "first", "", &[]), entry("f.rs", "far", "", &[])],
    );
    let mut content = String::from("fn far() {\n");
    for _ in 0..50 {
        content.push_str("    body\n");
    }
    content.push_str("<<<<<<< HEAD\nx\n=======\ny\n>>>>>>> b\n");
    let out = enrich_text(&content, "f.rs", Some(&ours), None).unwrap();
    assert!(out.contains("||| symbol: first\n"));
    let near = content.replacen("    body\n", "", 1);
    let out = enrich_text(&near, "f.rs", Some(&ours), None).unwrap();
    assert!(out.contains("||| symbol: far\n"));
}

#[test]
fn enrich_all_counts_rewritten_files() {
    let ours = side("o", "feature", "r");
    let files = vec![
        ConflictedFile {
            path: "file.txt".to_string(),
            content: Some("<<<<<<< HEAD\na\n=======\nb\n>>>>>>> x\n".to_string()),
        },
        ConflictedFile { path: "gone.txt".to_string(), content: None },
        ConflictedFile { path: "plain.txt".to_string(), content: Some("plain\n".to_string()) },
    ];
    let (outs, count) = enrich_all_conflicts(&files, Some(&ours), None);
    assert_eq!(count, 1);
    assert_eq!(outs.len(), 3);
    assert!(outs[0].as_ref().unwrap().contains("||| Commit: o\n"));
    assert!(outs[1].is_none());
    assert!(outs[2].is_none());
}

#[test]
fn multi_line_values_stay_inside_the_block() {
    let mut m = manifest("m1", vec![]);
    m.global_intent = Some(GlobalIntent {
        behavior_class: vec!["docs".to_string()],
        rationale: "first line\nsecond line\n=======".to_string(),
    });
    let block = format_enriched_marker("HEAD", "Your changes", &m, "a.rs", None);
    assert_eq!(
        block,
        "||| Gip CONTEXT (HEAD - Your changes)\n||| Commit: m1\n||| behaviorClass: docs\n||| rationale: first line\n||| second line\n||| =======\n"
    );
    for line in block.lines() {
        assert!(line.starts_with("||| "));
    }
}

#[test]
fn deleting_block_lines_gives_back_the_conflict() {
    let mut ours = side("o", "refactor", "why\nand more\n>>>>>>> fake");
    ours.global_intent = Some(GlobalIntent {
        behavior_class: vec![],
        rationale: "x\ny".to_string(),
    });
    let mut theirs = side("t", "feature", "");
    theirs.entries[0].contract.preconditions = vec!["a\nb".to_string()];
    let content = "<<<<<<<\nmain content\n=======\nfeature content\n>>>>>>> feature\nafter\n";
    let out = enrich_text(content, "file.txt", Some(&ours), Some(&theirs)).unwrap();
    let stripped: String = out
        .split_inclusive('\n')
        .filter(|l| !l.starts_with("||| "))
        .collect();
    assert_eq!(stripped, content);
    assert_eq!(out.matches("\n=======\n").count(), 1);
    assert_eq!(out.matches("\n>>>>>>> ").count(), 1);
}

#[test]
fn base_names_follow_path_file_name() {
    let m = manifest("c", vec![entry("src/lib.rs/", "run", "", &[])]);
    assert_eq!(find_entry(&m, "lib.rs", None).unwrap().anchor.file, "src/lib.rs/");
    assert_eq!(find_entry(&m, "other/./lib.rs/.", None).unwrap().anchor.file, "src/lib.rs/");

    let dots = manifest("c", vec![entry("y/.", "a", "", &[]), entry("b/x", "b", "", &[])]);
    assert_eq!(find_entry(&dots, "x/.", None).unwrap().anchor.file, "b/x");
    assert!(find_entry(&manifest("c", vec![entry("y/.", "a", "", &[])]), "x/.", None).is_none());

    let up = manifest("c", vec![entry("a/..", "a", "", &[]), entry("b/..", "b", "", &[])]);
    assert!(find_entry(&up, "c/..", None).is_none());
    assert_eq!(find_entry(&up, "b/..", None).unwrap().anchor.symbol, "b");
    assert!(find_entry(&manifest("c", vec![entry("/", "r", "", &[])]), ".", None).is_none());
}
