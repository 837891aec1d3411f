use delve_core::parser::ExportKind;
use delve_core::unused::{export_kind_string, format_unused_report, has_delve_used_comment, UnusedItem};

// The text of a utilities file: `formatTimestamp` starts on line 1, and
// `oldHelper` on line 11 under a `/* delve:used */` comment on line 10.
const FORMAT_DATE: &str = "export function formatTimestamp(ts: number): string {\n  return new Date(ts).toISOString();\n}\n\nexport function formatDate(d: Date): string {\n  return d.toDateString();\n}\n\n// kept for plugins\n/* delve:used */\nexport function oldHelper() {\n  return 1;\n}\n";

#[test]
fn test_has_delve_used_comment() {
    assert!(has_delve_used_comment(FORMAT_DATE, 11), "oldHelper should have delve:used comment above it");
    assert!(!has_delve_used_comment(FORMAT_DATE, 1), "formatTimestamp should not have delve:used comment");
}

#[test]
fn delve_used_line_comment_and_edges() {
    let src = "// delve:used\nexport const a = 1;\n";
    assert!(has_delve_used_comment(src, 2));
    assert!(!has_delve_used_comment(src, 0));
    // an export on the first line has no line above it
    assert!(!has_delve_used_comment("export function f() {} // delve:used\n", 1));
    assert!(!has_delve_used_comment("  // delve:used export const b = 2;", 1));
    assert!(!has_delve_used_comment(src, 40));
}

#[test]
fn kind_words() {
    assert_eq!(export_kind_string(&ExportKind::Function), "function");
    assert_eq!(export_kind_string(&ExportKind::Const), "const");
    assert_eq!(export_kind_string(&ExportKind::Class), "class");
    assert_eq!(export_kind_string(&ExportKind::Interface), "interface");
    assert_eq!(export_kind_string(&ExportKind::Type), "type");
    assert_eq!(export_kind_string(&ExportKind::Default), "default");
    assert_eq!(export_kind_string(&ExportKind::Named), "named");
}

#[test]
fn unused_report_text() {
    assert_eq!(format_unused_report(&[]), "  No unused exports found.\n");
    let items = vec![UnusedItem {
        file_path: "src/a.ts".to_string(),
        symbol: "helper".to_string(),
        line: 7,
        kind: "function".to_string(),
    }];
    assert_eq!(
        format_unused_report(&items),
        "UNUSED CODE (safe to delete)\n  src/a.ts:7   helper (exported function, never imported)\n"
    );
}
