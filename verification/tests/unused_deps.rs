use delve_core::graph::DepGraph;
use delve_core::parser::{FileSymbols, Import};
use delve_core::unused_deps::{
    extract_package_name, find_unused_dependencies, format_report, run_deps, DepIssueType, DependencyIssue,
    DependencyReport,
};

fn make_graph_with_imports(import_sources: &[&str]) -> DepGraph {
    let imports: Vec<Import> = import_sources
        .iter()
        .map(|s| Import {
            symbols: vec!["x".to_string()],
            source: s.to_string(),
            start_line: 1,
            end_line: 1,
            file_path: "test.ts".to_string(),
            is_default: false,
            is_namespace: false,
        })
        .collect();
    let n = imports.len();
    let fs = FileSymbols { file_path: "test.ts".to_string(), exports: vec![], imports, functions: vec![] };
    let mut graph = DepGraph::new(vec![fs]);
    let table = vec![vec![None; n]];
    graph.build(&table);
    graph
}

#[test]
fn test_extract_package_name_relative() {
    assert_eq!(extract_package_name("./foo"), None);
    assert_eq!(extract_package_name("../bar"), None);
}

#[test]
fn test_extract_package_name_simple() {
    assert_eq!(extract_package_name("lodash"), Some("lodash".to_string()));
    assert_eq!(extract_package_name("lodash/merge"), Some("lodash".to_string()));
}

#[test]
fn test_extract_package_name_scoped() {
    assert_eq!(extract_package_name("@scope/pkg"), Some("@scope/pkg".to_string()));
    assert_eq!(extract_package_name("@scope/pkg/subpath"), Some("@scope/pkg".to_string()));
}

#[test]
fn test_extract_package_name_builtin() {
    assert_eq!(extract_package_name("fs"), None);
    assert_eq!(extract_package_name("path"), None);
}

#[test]
fn test_empty_report_format() {
    let report = DependencyReport { unused: vec![], missing: vec![] };
    let output = format_report(&report);
    assert!(output.contains("No dependency issues"));
}

#[test]
fn test_find_unused_detects_unused() {
    let graph = make_graph_with_imports(&["lodash"]);
    // Nothing is declared: there is no package.json.
    let report = find_unused_dependencies(&graph, &[], &[]);
    assert!(report.unused.is_empty());
}

#[test]
fn extract_package_name_edges() {
    assert_eq!(extract_package_name("/abs/path"), None);
    assert_eq!(extract_package_name("@scope"), None);
    assert_eq!(extract_package_name("react-dom/client"), Some("react-dom".to_string()));
}

#[test]
fn unused_and_missing_sorted() {
    let graph = make_graph_with_imports(&["zod", "lodash/merge", "fs", "./local", "axios"]);
    let declared = vec!["react".to_string(), "lodash".to_string(), "express".to_string()];
    let dev = vec!["zod".to_string()];
    let report = find_unused_dependencies(&graph, &declared, &dev);
    let unused: Vec<&str> = report.unused.iter().map(|i| i.package.as_str()).collect();
    let missing: Vec<&str> = report.missing.iter().map(|i| i.package.as_str()).collect();
    assert_eq!(unused, vec!["express", "react"]);
    assert_eq!(missing, vec!["axios"]);
    assert!(report.unused.iter().all(|i| i.issue_type == DepIssueType::Unused));
    assert!(report.missing.iter().all(|i| i.issue_type == DepIssueType::Missing));
}

#[test]
fn run_deps_status() {
    let clean = DependencyReport { unused: vec![], missing: vec![] };
    let r = run_deps(&clean);
    assert_eq!(r.exit_code, 0);
    assert_eq!(r.score, 100);
    assert_eq!(r.output, "  No dependency issues found.\n");
    let bad = DependencyReport {
        unused: vec![DependencyIssue { package: "left-pad".to_string(), issue_type: DepIssueType::Unused }],
        missing: vec![],
    };
    let r = run_deps(&bad);
    assert_eq!(r.exit_code, 1);
    assert_eq!(r.score, 0);
    assert!(r.output.contains("left-pad"));
    assert!(r.output.contains(" — in package.json but never imported\n"));
    assert!(!r.output.contains("MISSING"));
}
