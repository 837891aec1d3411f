use delve_core::config::Weights;
use delve_core::giant_funcs::{FunctionMetrics, Severity};
use delve_core::health::{calculate, calculate_checked, format_health_report, label_for, HealthReport};
use delve_core::risks::{RiskItem, RiskKind};
use delve_core::unused::UnusedItem;

#[test]
fn test_score_100_for_clean() {
    let weights = Weights::default();
    let report = calculate(&[], &[], &[], &[], &weights);
    assert_eq!(report.score, 100);
    assert_eq!(report.label, "healthy");
}

#[test]
fn test_score_floors_at_0() {
    let weights = Weights::default();
    let giant_metrics = vec![FunctionMetrics {
        file_path: "x.ts".into(),
        name: "f".into(),
        start_line: 1,
        end_line: 100,
        logical_lines: 50,
        complexity: 30,
        severity: Severity::Critical,
    }];
    let risk_items = (0..100)
        .map(|_| RiskItem { kind: RiskKind::AnyType, file_path: "x.ts".into(), line: 1, detail: "".into() })
        .collect::<Vec<_>>();
    let report = calculate(&[], &giant_metrics, &risk_items, &[], &weights);
    assert_eq!(report.score, 0, "should floor at 0");
}

fn unused(n: usize) -> Vec<UnusedItem> {
    (0..n)
        .map(|i| UnusedItem {
            file_path: "u.ts".to_string(),
            symbol: format!("s{}", i),
            line: i + 1,
            kind: "function".to_string(),
        })
        .collect()
}

#[test]
fn score_weighs_each_finding() {
    let weights = Weights::default();
    let risks = vec![
        RiskItem { kind: RiskKind::ConsoleLog, file_path: "a.ts".into(), line: 1, detail: "".into() },
        RiskItem { kind: RiskKind::Debugger, file_path: "a.ts".into(), line: 2, detail: "".into() },
    ];
    // unused weight once (15) + one console.log (1) + one debugger (1)
    let report = calculate(&unused(3), &[], &risks, &[], &weights);
    assert_eq!(report.score, 83);
    assert_eq!(report.unused_count, 3);
    assert_eq!(report.console_log_count, 1);
    assert_eq!(report.debugger_count, 1);
    assert_eq!(report.label, "healthy");
}

#[test]
fn one_debugger_costs_one_point() {
    let weights = Weights::default();
    let risks = vec![RiskItem { kind: RiskKind::Debugger, file_path: "x.ts".into(), line: 1, detail: "".into() }];
    let report = calculate(&[], &[], &risks, &[], &weights);
    assert_eq!(report.score, 99);
    assert_eq!(report.debugger_count, 1);
}

#[test]
fn default_weights_per_finding() {
    let weights = Weights::default();
    let critical = FunctionMetrics {
        file_path: "x.ts".into(),
        name: "f".into(),
        start_line: 1,
        end_line: 100,
        logical_lines: 90,
        complexity: 30,
        severity: Severity::Critical,
    };
    let mut warning = critical.clone();
    warning.severity = Severity::Warning;
    // 15 for unused files, 5 per critical and 2 per warning function
    let report = calculate(&unused(1), &[critical, warning], &[], &[], &weights);
    assert_eq!(report.score, 78);
}

#[test]
fn more_findings_never_raise_the_score() {
    let weights = Weights::default();
    let one = calculate(&unused(1), &[], &[], &[], &weights);
    let many = calculate(&unused(50), &[], &[], &[], &weights);
    assert!(many.score <= one.score);
}

#[test]
fn labels_by_score() {
    assert_eq!(label_for(100), "healthy");
    assert_eq!(label_for(70), "healthy");
    assert_eq!(label_for(69), "needs work");
    assert_eq!(label_for(40), "needs work");
    assert_eq!(label_for(39), "vibe disaster");
    assert_eq!(label_for(0), "vibe disaster");
}

fn report_with(unused_count: usize, giant_critical: usize, giant_warning: usize) -> HealthReport {
    HealthReport {
        score: 42,
        label: "needs work",
        unused_count,
        giant_critical,
        giant_warning,
        duplicate_count: 0,
        any_type_count: 0,
        console_log_count: 0,
        debugger_count: 0,
        deep_nesting_count: 0,
        long_params_count: 0,
    }
}

#[test]
fn todo_list_all_clear() {
    let todos = report_with(0, 0, 0).to_todo_list();
    assert_eq!(todos, vec!["Nothing to fix! Your codebase looks healthy.".to_string()]);
}

#[test]
fn todo_list_in_order() {
    let todos = report_with(2, 1, 3).to_todo_list();
    assert_eq!(
        todos,
        vec![
            "Remove 2 unused export(s) — use `delve deadcode` to list them".to_string(),
            "Split 4 giant function(s) — use `delve split` to see details".to_string(),
        ]
    );
}

#[test]
fn todo_list_one_item_per_kind() {
    let mut r = report_with(1, 1, 0);
    r.duplicate_count = 2;
    r.any_type_count = 3;
    r.console_log_count = 4;
    r.debugger_count = 5;
    r.deep_nesting_count = 6;
    r.long_params_count = 7;
    let todos = r.to_todo_list();
    assert_eq!(todos.len(), 8);
    assert_eq!(todos[5], "Remove 5 debugger statement(s)");
    assert_eq!(todos[7], "Reduce parameter count in 7 function(s)");
}

#[test]
fn health_text_report() {
    let text = format_health_report(&report_with(2, 0, 0));
    assert_eq!(
        text,
        "HEALTH SCORE: 42/100 — \"needs work\"\n  Todo:\n    • Remove 2 unused export(s) — use `delve deadcode` to list them\n"
    );
}

#[test]
fn checked_calculation_refuses_overflowing_weights() {
    let mut weights = Weights::default();
    let risks = vec![RiskItem { kind: RiskKind::AnyType, file_path: "a.ts".into(), line: 1, detail: "".into() }];
    assert_eq!(calculate_checked(&[], &[], &risks, &[], &weights).unwrap().score, 99);
    weights.any_type = usize::MAX;
    assert!(calculate_checked(&[], &[], &risks, &[], &weights).is_none());
}
