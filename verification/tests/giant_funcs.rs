use delve_core::config::Thresholds;
use delve_core::giant_funcs::{
    analyze_functions, compute_complexity, count_logical_lines, count_severity, format_report, FunctionMetrics,
    Severity,
};
use delve_core::parser::extract_file_symbols;

#[test]
fn test_count_logical_lines() {
    let source = "function foo() {\n  // comment\n  \n  return 1;\n}\n";
    let count = count_logical_lines(source, 0, source.len());
    assert_eq!(count, 2, "should count function declaration + return, skip comment and blank");
}

#[test]
fn test_compute_complexity_base() {
    let source = "function foo() { return 1; }";
    let c = compute_complexity(source, 0, source.len());
    assert_eq!(c, 1, "base complexity is 1");
}

#[test]
fn test_compute_complexity_with_if() {
    let source = "function foo(x) { if (x) { return 1; } }";
    let c = compute_complexity(source, 0, source.len());
    assert_eq!(c, 2, "1 if = complexity 2");
}

#[test]
fn keywords_count_only_at_word_start() {
    let source = "function f() { const lowercase = 1; return lowercase; }";
    assert_eq!(compute_complexity(source, 0, source.len()), 1);
    let source = "function g(x) { const motif = 1; switch (x) { case 1: return motif; } }";
    assert_eq!(compute_complexity(source, 0, source.len()), 2);
}

#[test]
fn optional_chaining_and_nullish_count() {
    let source = "function f(a) { return a?.b; }";
    assert_eq!(compute_complexity(source, 0, source.len()), 2);
    assert_eq!(compute_complexity("a?.b", 0, 4), 2);
    let source = "function g(a) { return a ?? 1; }";
    assert_eq!(compute_complexity(source, 0, source.len()), 2);
    let source = "function h(a?: number) { return a; }";
    assert_eq!(compute_complexity(source, 0, source.len()), 1);
}

#[test]
fn test_compute_complexity_with_logical_ops() {
    let source = "function foo(x, y) { return x && y || z; }";
    let c = compute_complexity(source, 0, source.len());
    assert_eq!(c, 3, "&& and || = +2");
}

#[test]
fn test_analyze_simple_complexity() {
    let source = "function complex(x, y, z) { if (x) { if (y) { return z; } } for(let i=0;i<10;i++){} return x && y || z; }";
    let byte_end = source.len();
    let c = compute_complexity(source, 0, byte_end);
    assert!(c > 1, "complex function should have complexity > 1, got {}", c);
}

#[test]
fn complexity_counts_each_decision_point() {
    let source = "function f(a) { while (a) { a--; } switch (a) { case 1: break; case 2: break; } try { g(); } catch (e) {} return a ? 1 : 2; }";
    // 1 + while + 2 cases + catch + ternary
    assert_eq!(compute_complexity(source, 0, source.len()), 6);
}

#[test]
fn complexity_skips_words_inside_strings_and_comments() {
    let source = "function f() { // if while\n  return \"if (x) && y\"; }";
    assert_eq!(compute_complexity(source, 0, source.len()), 1);
}

#[test]
fn logical_lines_skip_braces_and_block_comments() {
    let source = "function f() {\n  /* a\n     b */\n  let x = 1;\n  {\n  }\n  return x;\n}\n";
    assert_eq!(count_logical_lines(source, 0, source.len()), 3);
}

#[test]
fn logical_lines_of_a_slice() {
    let source = "a();\nb();\nc();\n";
    assert_eq!(count_logical_lines(source, 5, source.len()), 2);
}

fn big_function(n: usize) -> String {
    let mut s = String::from("function big(x) {\n");
    for i in 0..n {
        s.push_str(&format!("  let v{} = x + {};\n", i, i));
    }
    s.push_str("  return x;\n}\n");
    s
}

#[test]
fn analyze_flags_functions_over_thresholds() {
    let source = big_function(45);
    let symbols = extract_file_symbols("big.ts", &source).unwrap();
    let thresholds = Thresholds::default();
    let metrics = analyze_functions(&[symbols], &[Some(source.clone())], &thresholds);
    assert_eq!(metrics.len(), 1);
    assert_eq!(metrics[0].name, "big");
    assert_eq!(metrics[0].logical_lines, 47);
    assert_eq!(metrics[0].severity, Severity::Warning);
}

#[test]
fn analyze_marks_critical_over_critical_lines() {
    let source = big_function(90);
    let symbols = extract_file_symbols("big.ts", &source).unwrap();
    let metrics = analyze_functions(&[symbols], &[Some(source.clone())], &Thresholds::default());
    assert_eq!(metrics.len(), 1);
    assert_eq!(metrics[0].severity, Severity::Critical);
    assert_eq!(count_severity(&metrics, Severity::Critical), 1);
    assert_eq!(count_severity(&metrics, Severity::Warning), 0);
}

#[test]
fn analyze_skips_small_functions_and_unread_files() {
    let source = "function small() { return 1; }";
    let symbols = extract_file_symbols("s.ts", source).unwrap();
    let metrics = analyze_functions(&[symbols.clone()], &[Some(source.to_string())], &Thresholds::default());
    assert!(metrics.is_empty());
    let big = big_function(45);
    let big_symbols = extract_file_symbols("big.ts", &big).unwrap();
    let none = analyze_functions(&[big_symbols], &[None], &Thresholds::default());
    assert!(none.is_empty());
}

#[test]
fn format_report_lines() {
    let metrics = vec![FunctionMetrics {
        file_path: "a.ts".to_string(),
        name: "f".to_string(),
        start_line: 3,
        end_line: 90,
        logical_lines: 85,
        complexity: 12,
        severity: Severity::Critical,
    }];
    assert_eq!(
        format_report(&metrics),
        "GIANT FUNCTIONS (split me)\n  [CRITICAL] a.ts:3   f (85 lines, complexity 12)\n"
    );
    assert_eq!(format_report(&[]), "  No giant functions found.\n");
}
