use delve_core::duplicates::{DupLocation, DuplicateCluster};
use delve_core::findings_outcome;
use delve_core::giant_funcs::{FunctionMetrics, Severity};
use delve_core::health::HealthReport;
use delve_core::report::{audit_exit_code, audit_outcome, format_audit_text, maybe_add_annotations, sarif_results};
use delve_core::risks::{RiskItem, RiskKind};
use delve_core::unused::UnusedItem;

fn item() -> UnusedItem {
    UnusedItem {
        file_path: "src\\a.ts".to_string(),
        symbol: "helper".to_string(),
        line: 7,
        kind: "function".to_string(),
    }
}

fn health(score: usize, label: &'static str) -> HealthReport {
    HealthReport {
        score,
        label,
        unused_count: 0,
        giant_critical: 0,
        giant_warning: 0,
        duplicate_count: 0,
        any_type_count: 0,
        console_log_count: 0,
        debugger_count: 0,
        deep_nesting_count: 0,
        long_params_count: 0,
    }
}

#[test]
fn exit_code_follows_score() {
    assert_eq!(audit_exit_code(100), 0);
    assert_eq!(audit_exit_code(70), 0);
    assert_eq!(audit_exit_code(69), 1);
    assert_eq!(audit_exit_code(40), 1);
    assert_eq!(audit_exit_code(39), 2);
    let r = audit_outcome("x".to_string(), 55);
    assert_eq!((r.output.as_str(), r.exit_code, r.score), ("x", 1, 55));
}

#[test]
fn findings_outcome_status() {
    let r = findings_outcome("a".to_string(), true);
    assert_eq!((r.exit_code, r.score), (1, 0));
    let r = findings_outcome("b".to_string(), false);
    assert_eq!((r.exit_code, r.score), (0, 100));
}

#[test]
fn annotations_use_forward_slashes() {
    let mut out = String::from("head\n");
    maybe_add_annotations(&mut out, true, "delve-unused", &[item()]);
    assert_eq!(
        out,
        "head\n::warning file=src/a.ts,line=7,title=delve-unused::helper is function and never imported\n"
    );
    let mut quiet = String::from("head\n");
    maybe_add_annotations(&mut quiet, false, "delve-unused", &[item()]);
    assert_eq!(quiet, "head\n");
}

#[test]
fn sarif_records_in_order() {
    let giant = vec![FunctionMetrics {
        file_path: "g.ts".to_string(),
        name: "huge".to_string(),
        start_line: 3,
        end_line: 200,
        logical_lines: 120,
        complexity: 25,
        severity: Severity::Critical,
    }];
    let dups = vec![
        DuplicateCluster {
            locations: vec![
                DupLocation { file_path: "d1.ts".to_string(), start_line: 4, end_line: 9 },
                DupLocation { file_path: "d2.ts".to_string(), start_line: 5, end_line: 10 },
            ],
            sample: "s".to_string(),
            token_count: 30,
            is_near_dup: false,
        },
        DuplicateCluster { locations: vec![], sample: "".to_string(), token_count: 1, is_near_dup: true },
    ];
    let risks = vec![RiskItem {
        kind: RiskKind::Debugger,
        file_path: "r.ts".to_string(),
        line: 2,
        detail: "debugger statement".to_string(),
    }];
    let out = sarif_results(&[item()], &[Some("/abs/src/a.ts".to_string())], &giant, &dups, &risks);
    assert_eq!(out.len(), 4);
    assert_eq!(out[0].rule_id, "delve/unused-export");
    assert_eq!(out[0].message, "helper is exported function, never imported");
    assert_eq!(out[0].uri, "/abs/src/a.ts");
    assert_eq!(out[0].start_line, 7);
    assert_eq!(out[1].rule_id, "delve/giant-function");
    assert_eq!(out[1].level, "error");
    assert_eq!(out[1].message, "huge (120 lines, complexity 25)");
    assert_eq!(out[1].uri, "file://g.ts");
    assert_eq!(out[2].rule_id, "delve/duplicate-block");
    assert_eq!(out[2].message, "Duplicate block (30 tokens) found in 2 locations");
    assert_eq!(out[2].uri, "file://d1.ts");
    assert_eq!(out[2].start_line, 4);
    assert_eq!(out[3].rule_id, "delve/debugger");
    assert_eq!(out[3].level, "error");
    assert_eq!(out[3].message, "debugger statement");

    let fallback = sarif_results(&[item()], &[None], &[], &[], &[]);
    assert_eq!(fallback[0].uri, "src\\a.ts");
}

#[test]
fn audit_text_of_a_clean_project() {
    yansi::disable();
    let text = format_audit_text("/proj", &[], false, &[], &[], &[], &[], &health(100, "healthy"));
    assert_eq!(
        text,
        "Delve Audit — /proj\n\nUNUSED CODE\n  No unused exports found.\n\nGIANT FUNCTIONS\n  No giant functions found.\n\nDUPLICATE BLOCKS\n  No duplicate blocks found.\n\nRISKY PATTERNS\n  No risky patterns found.\n\nCIRCULAR DEPENDENCIES\n  No circular dependencies found.\n\nHEALTH SCORE: 100/100 — \"healthy\"\n  → Nothing to fix! Your codebase looks healthy.\n"
    );
}

#[test]
fn audit_text_with_findings() {
    yansi::disable();
    let cycles = vec![vec!["a.ts".to_string(), "b.ts".to_string()]];
    let text = format_audit_text("/proj", &[item()], true, &[], &[], &[], &cycles, &health(45, "needs work"));
    assert!(text.contains("UNUSED CODE (safe to delete)\n  src\\a.ts:7   helper (exported function, never imported)\n::warning file=src/a.ts,line=7,title=delve-unused::helper is function and never imported\n\n"));
    assert!(text.contains("CIRCULAR DEPENDENCIES\n  CYCLE a.ts → b.ts → a.ts\n\n"));
    assert!(text.contains("HEALTH SCORE: 45/100 — \"needs work\"\n"));
}
