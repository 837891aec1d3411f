use delve_core::parser::{extract_file_symbols, is_source_file, language_for_file, ExportKind};

#[test]
fn exports_imports_and_functions() {
    let src = "import def, { a, b } from './lib';\nexport function main() { return a(b); }\nexport const VALUE = 1;\nfunction local() {}\n";
    let fs = extract_file_symbols("src/index.ts", src).unwrap();
    let names: Vec<&str> = fs.exports.iter().map(|e| e.name.as_str()).collect();
    assert_eq!(names, vec!["main", "VALUE"]);
    assert_eq!(fs.exports[0].kind, ExportKind::Function);
    assert_eq!(fs.exports[1].kind, ExportKind::Const);
    assert_eq!(fs.imports.len(), 1);
    assert_eq!(fs.imports[0].source, "./lib");
    assert_eq!(fs.imports[0].symbols, vec!["def".to_string(), "a".to_string(), "b".to_string()]);
    assert!(fs.imports[0].is_default);
    assert_eq!(fs.imports[0].start_line, 1);
    assert!(fs.functions.len() >= 2);
}

#[test]
fn anonymous_default_exports() {
    let fs = extract_file_symbols("m.ts", "export default function () {}\n").unwrap();
    assert_eq!(fs.exports.len(), 1);
    assert_eq!(fs.exports[0].kind, ExportKind::Default);
    assert_eq!(fs.exports[0].name, "default");
    assert_eq!(fs.exports[0].start_line, 1);
    let fs = extract_file_symbols("c.js", "\nexport default class {}\n").unwrap();
    assert_eq!(fs.exports.len(), 1);
    assert_eq!(fs.exports[0].kind, ExportKind::Default);
    assert_eq!(fs.exports[0].start_line, 2);
    let fs = extract_file_symbols("n.ts", "export default function named() {}\n").unwrap();
    assert_eq!(fs.exports.len(), 1);
    assert_eq!(fs.exports[0].name, "named");
    assert_eq!(fs.exports[0].kind, ExportKind::Function);
}

#[test]
fn require_calls_are_imports() {
    let src = "const fs = require('fs');\nmodule.exports = {};\n";
    let fs = extract_file_symbols("a.js", src).unwrap();
    assert!(fs.imports.iter().any(|i| i.source == "fs"));
}

#[test]
fn languages_by_extension() {
    assert_eq!(language_for_file("a.tsx"), "tsx");
    assert_eq!(language_for_file("a.TS"), "ts");
    assert_eq!(language_for_file("a.mts"), "ts");
    assert_eq!(language_for_file("a.js"), "js");
    assert_eq!(language_for_file("a.jsx"), "js");
}

#[test]
fn source_files_by_extension_and_ignore() {
    let none: Vec<String> = vec![];
    assert!(is_source_file("/p/src/a.ts", &none));
    assert!(is_source_file("/p/src/a.CJS", &none));
    assert!(!is_source_file("/p/src/a.css", &none));
    assert!(!is_source_file("/p/src/Makefile", &none));
    let ignore = vec!["test-fixtures/".to_string()];
    assert!(!is_source_file("/p/test-fixtures/x.ts", &ignore));
    assert!(is_source_file("/p/src/x.ts", &ignore));
}

#[test]
fn node_modules_is_never_analysed() {
    let none: Vec<String> = vec![];
    assert!(!is_source_file("/p/node_modules/lodash/index.js", &none));
    assert!(!is_source_file("node_modules/x/a.ts", &none));
    assert!(is_source_file("/p/src/my_node_modules_helper.ts", &none));
}
