use delve_core::graph::{build_complete_graph, find_project_root, resolve_all, resolve_import, DepGraph};
use delve_core::parser::{extract_file_symbols, FileSymbols};
use delve_core::unused::find_unused;

const INDEX: &str = "import { used } from './util';\nexport function main() {\n  used();\n}\n";
const UTIL: &str = "export function used() {}\nexport function unusedFn() {}\n";
const OTHER: &str = "export const lonely = 1;\n";

fn files() -> Vec<(&'static str, &'static str)> {
    vec![("/p/src/index.ts", INDEX), ("/p/src/util.ts", UTIL), ("/p/src/other.ts", OTHER)]
}

fn symbols() -> Vec<FileSymbols> {
    files().iter().map(|(p, s)| extract_file_symbols(p, s).unwrap()).collect()
}

fn probe(s: &str) -> Option<Option<String>> {
    let norm = s.replace("/./", "/");
    if files().iter().any(|(p, _)| *p == norm) {
        Some(Some(norm))
    } else {
        None
    }
}

fn no_main(_: &str) -> Option<Option<String>> {
    None
}

fn read_source(p: &str) -> Option<String> {
    files().iter().find(|(q, _)| *q == p).map(|(_, s)| s.to_string())
}

fn graph() -> DepGraph {
    build_complete_graph(symbols(), &probe, &no_main, &[], &read_source)
}

#[test]
fn resolves_relative_import_with_extension() {
    let r = resolve_import("/p/src/index.ts", "./util", &probe, &no_main);
    assert_eq!(r, Some("/p/src/util.ts".to_string()));
    assert_eq!(resolve_import("/p/src/index.ts", "./missing", &probe, &no_main), None);
}

#[test]
fn extension_is_appended_to_the_whole_name() {
    let tried = std::cell::RefCell::new(Vec::new());
    let probe_cfg = |s: &str| -> Option<Option<String>> {
        tried.borrow_mut().push(s.replace("/./", "/"));
        if s.replace("/./", "/") == "/p/src/b.config.ts" {
            Some(Some("/p/src/b.config.ts".to_string()))
        } else {
            None
        }
    };
    assert_eq!(
        resolve_import("/p/src/a.ts", "./b.config", &probe_cfg, &no_main),
        Some("/p/src/b.config.ts".to_string())
    );
    assert_eq!(tried.borrow()[0], "/p/src/b.config.ts");
}

#[test]
fn deep_package_path_has_its_extension_set() {
    let probe_deep = |s: &str| -> Option<Option<String>> {
        if s == "/p/node_modules/pkg/lib/util.ts" {
            Some(Some(s.to_string()))
        } else {
            None
        }
    };
    assert_eq!(
        resolve_import("/p/src/index.ts", "pkg/lib/util.js", &probe_deep, &no_main),
        Some("/p/node_modules/pkg/lib/util.ts".to_string())
    );
}

#[test]
fn import_naming_its_file_resolves() {
    let probe_js = |s: &str| -> Option<Option<String>> {
        let p = s.replace("/./", "/");
        if p == "/p/src/utils.js" || p == "/p/src/foo.ts" {
            Some(Some(p))
        } else {
            None
        }
    };
    assert_eq!(
        resolve_import("/p/src/a.ts", "./utils.js", &probe_js, &no_main),
        Some("/p/src/utils.js".to_string())
    );
    assert_eq!(
        resolve_import("/p/src/a.ts", "./foo.js", &probe_js, &no_main),
        Some("/p/src/foo.ts".to_string())
    );
}

#[test]
fn resolves_index_file_of_a_directory() {
    let probe_dir = |s: &str| -> Option<Option<String>> {
        if s.replace("/./", "/") == "/p/src/lib/index.js" {
            Some(Some("/p/src/lib/index.js".to_string()))
        } else {
            None
        }
    };
    assert_eq!(
        resolve_import("/p/src/index.ts", "./lib", &probe_dir, &no_main),
        Some("/p/src/lib/index.js".to_string())
    );
}

#[test]
fn resolves_package_through_node_modules() {
    let probe_pkg = |s: &str| -> Option<Option<String>> {
        if s == "/p/node_modules/lodash/lodash.js" {
            Some(Some(s.to_string()))
        } else {
            None
        }
    };
    let read_main = |s: &str| -> Option<Option<String>> {
        if s == "/p/node_modules/lodash/package.json" {
            Some(Some("lodash.js".to_string()))
        } else {
            None
        }
    };
    assert_eq!(
        resolve_import("/p/src/index.ts", "lodash", &probe_pkg, &read_main),
        Some("/p/node_modules/lodash/lodash.js".to_string())
    );
}

#[test]
fn new_graph_keeps_one_file_per_path() {
    let mut syms = symbols();
    syms.push(extract_file_symbols("/p/src/util.ts", "export const again = 2;\n").unwrap());
    let g = DepGraph::new(syms);
    assert_eq!(g.all_symbols.len(), 3);
    assert_eq!(g.all_symbols[1].file_path, "/p/src/util.ts");
    assert_eq!(g.all_symbols[1].exports[0].name, "again");
    assert!(g.import_edges.is_empty());
}

#[test]
fn build_adds_symbol_edges() {
    let mut g = DepGraph::new(symbols());
    let table = resolve_all(&g, &probe, &no_main);
    g.build(&table);
    assert_eq!(
        g.import_edges,
        vec![(("/p/src/index.ts".to_string(), "used".to_string()), ("/p/src/util.ts".to_string(), "used".to_string()))]
    );
    assert_eq!(
        g.reverse_imports,
        vec![(("/p/src/util.ts".to_string(), "used".to_string()), ("/p/src/index.ts".to_string(), "used".to_string()))]
    );
}

#[test]
fn index_is_an_entry_point_and_reaches_its_imports() {
    let g = graph();
    assert_eq!(g.entry_points, vec!["/p/src/index.ts".to_string()]);
    assert!(g.reachable_exports.contains(&("/p/src/index.ts".to_string(), "main".to_string())));
    assert!(g.reachable_exports.contains(&("/p/src/util.ts".to_string(), "used".to_string())));
    assert!(!g.reachable_exports.contains(&("/p/src/util.ts".to_string(), "unusedFn".to_string())));
}

#[test]
fn unused_exports_sorted_by_path() {
    let g = graph();
    let unused: Vec<(String, String)> =
        g.find_unused_exports().into_iter().map(|(f, e)| (f, e.name.clone())).collect();
    assert_eq!(
        unused,
        vec![
            ("/p/src/other.ts".to_string(), "lonely".to_string()),
            ("/p/src/util.ts".to_string(), "unusedFn".to_string()),
        ]
    );
}

#[test]
fn manifest_entries_and_self_running_files_are_entry_points() {
    let listed = vec!["/p/src/other.ts".to_string()];
    let g = build_complete_graph(symbols(), &probe, &no_main, &listed, &read_source);
    assert!(g.entry_points.contains(&"/p/src/other.ts".to_string()));
    assert!(g.reachable_exports.contains(&("/p/src/other.ts".to_string(), "lonely".to_string())));

    let script = "export function run() {}\nif (require.main === module) { run(); }\n";
    let syms = vec![extract_file_symbols("/p/tools/build.js", script).unwrap()];
    let g = build_complete_graph(syms, &probe, &no_main, &[], &|_: &str| Some(script.to_string()));
    assert_eq!(g.entry_points, vec!["/p/tools/build.js".to_string()]);
}

#[test]
fn find_unused_respects_delve_used() {
    let other = "/* delve:used */\nexport const lonely = 1;\n";
    let mut syms = symbols();
    syms[2] = extract_file_symbols("/p/src/other.ts", other).unwrap();
    let read = |p: &str| -> Option<String> {
        if p == "/p/src/other.ts" {
            Some(other.to_string())
        } else {
            read_source(p)
        }
    };
    let g = build_complete_graph(syms, &probe, &no_main, &[], &read);
    let sources: Vec<Option<String>> = g.all_symbols.iter().map(|f| read(&f.file_path)).collect();
    let items = find_unused(&g, &sources);
    let names: Vec<&str> = items.iter().map(|u| u.symbol.as_str()).collect();
    assert_eq!(names, vec!["unusedFn"]);
    assert_eq!(items[0].kind, "function");
    assert_eq!(items[0].line, 2);
}

#[test]
fn project_root_is_nearest_manifest() {
    let paths = vec!["/p/src/index.ts".to_string()];
    let has = |s: &str| s == "/p/package.json";
    assert_eq!(find_project_root(&paths, &has), Some("/p".to_string()));
    let none = |_: &str| false;
    assert_eq!(find_project_root(&paths, &none), None);
    assert_eq!(find_project_root(&[], &has), None);
}

#[test]
fn unused_items_are_among_unused_exports() {
    let g = graph();
    let sources: Vec<Option<String>> = g.all_symbols.iter().map(|f| read_source(&f.file_path)).collect();
    let items = find_unused(&g, &sources);
    let exports: Vec<(String, String, usize)> =
        g.find_unused_exports().into_iter().map(|(f, e)| (f, e.name.clone(), e.start_line)).collect();
    for u in &items {
        assert!(exports.contains(&(u.file_path.clone(), u.symbol.clone(), u.line)));
    }
    assert_eq!(items.len(), 2);
}
