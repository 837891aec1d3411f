use delve_core::parser::SourceFile;
use delve_core::risks::{
    count_kind, detect_any_type, detect_console_log, detect_deep_nesting, detect_long_params, detect_risks, format_report,
    run_risks, RiskItem, RiskKind,
};

#[test]
fn test_detect_console_log() {
    assert!(detect_console_log("console.log('hello');"));
    assert!(!detect_console_log("const x = 1;"));
    assert!(!detect_console_log("// console.log('test');"));
}

#[test]
fn test_detect_any_type() {
    let source = "let x: any = 1;\nconst y = foo as any;\nlet z: string = 'hello';";
    assert!(detect_any_type(source, "let x: any = 1;", "let x: any = 1;"));
    assert!(detect_any_type(source, "const y = foo as any;", "const y = foo as any;"));
    assert!(!detect_any_type(source, "let z: string = 'hello';", "let z: string = 'hello';"));
}

#[test]
fn test_detect_deep_nesting() {
    let source = "{\n  {\n    {\n      {\n        {\n          // depth 5\n        }\n      }\n    }\n  }\n}";
    let file = "test.ts";
    let mut risks = Vec::new();
    detect_deep_nesting(source, file, &mut risks);
    assert!(!risks.is_empty(), "should detect deep nesting");
}

#[test]
fn deep_nesting_reported_once_per_descent() {
    let source = "{\n{\n{\n{\n{\n}\n}\n}\n}\n}\n";
    let mut risks = Vec::new();
    detect_deep_nesting(source, "n.ts", &mut risks);
    assert_eq!(risks.len(), 1);
    assert_eq!(risks[0].kind, RiskKind::DeepNesting);
    assert_eq!(risks[0].line, 5);
}

#[test]
fn four_levels_are_not_deep() {
    let source = "{\n{\n{\n{\n}\n}\n}\n}\n";
    let mut risks = Vec::new();
    detect_deep_nesting(source, "n.ts", &mut risks);
    assert!(risks.is_empty());
}

#[test]
fn long_params_over_five() {
    let mut risks = Vec::new();
    detect_long_params("function f(a, b, c, d, e, g) {}\n", "p.ts", &mut risks);
    assert_eq!(risks.len(), 1);
    assert_eq!(risks[0].kind, RiskKind::LongParams);
    assert_eq!(risks[0].line, 1);
    let mut few = Vec::new();
    detect_long_params("function f(a, b, c, d, e) {}\n", "p.ts", &mut few);
    assert!(few.is_empty());
}

#[test]
fn long_params_of_a_top_level_arrow() {
    let mut risks = Vec::new();
    detect_long_params("items.map((a, b, c, d, e, g) => a);", "x.ts", &mut risks);
    assert_eq!(risks.len(), 1);
    assert_eq!(risks[0].kind, RiskKind::LongParams);
    assert_eq!(risks[0].line, 1);
    assert_eq!(risks[0].detail, "6 parameters (limit: 5)");
    let mut few = Vec::new();
    detect_long_params("items.map((a, b) => a);
list.map((a, b, c, d, e, f, g) => a);
", "x.ts", &mut few);
    assert_eq!(few.len(), 1);
    assert_eq!(few[0].line, 2);
}

#[test]
fn debugger_only_outside_test_files() {
    let files = vec![
        SourceFile { path: "src/a.test.ts".to_string(), source: "debugger\ndebugger;\n".to_string() },
        SourceFile { path: "src/b.ts".to_string(), source: "debugger\n".to_string() },
    ];
    let risks = detect_risks(&files);
    assert_eq!(count_kind(&risks, RiskKind::Debugger), 1);
    assert!(risks.iter().all(|r| r.file_path == "src/b.ts"));
}

#[test]
fn any_type_not_in_comment() {
    let source = "// x: any";
    assert!(!detect_any_type(source, source, source));
}

#[test]
fn detect_risks_orders_by_file_then_line() {
    let files = vec![
        SourceFile { path: "b.ts".to_string(), source: "debugger;\nconsole.log(1);\n".to_string() },
        SourceFile { path: "a.ts".to_string(), source: "let v: any = 2;\n".to_string() },
    ];
    let risks = detect_risks(&files);
    let places: Vec<(String, usize)> = risks.iter().map(|r| (r.file_path.clone(), r.line)).collect();
    assert_eq!(
        places,
        vec![("a.ts".to_string(), 1), ("b.ts".to_string(), 1), ("b.ts".to_string(), 2)]
    );
    assert_eq!(count_kind(&risks, RiskKind::Debugger), 1);
    assert_eq!(count_kind(&risks, RiskKind::ConsoleLog), 1);
    assert_eq!(count_kind(&risks, RiskKind::AnyType), 1);
    let again = run_risks(&files);
    assert_eq!(again.len(), risks.len());
}

#[test]
fn risk_report_text() {
    assert_eq!(format_report(&[]), "  No risky patterns found.\n");
    let items = vec![RiskItem {
        kind: RiskKind::Debugger,
        file_path: "x.ts".to_string(),
        line: 4,
        detail: "debugger statement".to_string(),
    }];
    let text = format_report(&items);
    assert!(text.starts_with("RISKY PATTERNS\n  x.ts:4   "));
    assert!(text.ends_with(" (debugger statement)\n"));
}
