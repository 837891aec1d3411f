use delve_core::manifest::{manifest_entry_paths, JsonValue};

fn s(v: &str) -> JsonValue {
    JsonValue::Str(v.to_string())
}

fn obj(entries: Vec<(&str, JsonValue)>) -> JsonValue {
    JsonValue::Object(entries.into_iter().map(|(k, v)| (k.to_string(), v)).collect())
}

#[test]
fn manifest_fields_in_order() {
    let pkg = obj(vec![
        ("name", s("demo")),
        ("exports", obj(vec![(".", obj(vec![("import", s("./esm/index.js")), ("require", s("./cjs/index.js"))]))])),
        ("bin", obj(vec![("demo", s("./bin/demo.js")), ("other", JsonValue::Other)])),
        ("module", s("./esm/index.js")),
        ("main", s("./cjs/index.js")),
    ]);
    assert_eq!(
        manifest_entry_paths(&pkg),
        vec!["./cjs/index.js", "./esm/index.js", "./bin/demo.js", "./esm/index.js", "./cjs/index.js"]
    );
}

#[test]
fn bin_as_a_single_path_and_non_objects() {
    let pkg = obj(vec![("bin", s("cli.js")), ("main", JsonValue::Other)]);
    assert_eq!(manifest_entry_paths(&pkg), vec!["cli.js".to_string()]);
    assert!(manifest_entry_paths(&JsonValue::Other).is_empty());
    assert!(manifest_entry_paths(&s("main")).is_empty());
}
