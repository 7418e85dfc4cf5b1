use codecompass::plugin::{build_registry, Analyzer};

#[test]
fn default_registry_has_ts_js_and_css() {
    let reg = build_registry();
    assert!(reg.plugin_count() >= 2);
}

#[test]
fn resolves_ts_extension() {
    let reg = build_registry();
    assert!(reg.resolve("ts").is_some());
    assert!(reg.resolve("tsx").is_some());
    assert!(reg.resolve("js").is_some());
    assert!(reg.resolve("css").is_some());
}

#[test]
fn returns_none_for_unknown_extension() {
    let reg = build_registry();
    assert!(reg.resolve("png").is_none());
    assert!(reg.resolve("md").is_none());
}

#[test]
fn all_extensions_includes_ts_and_css() {
    let reg = build_registry();
    let exts = reg.all_extensions();
    assert!(exts.contains(&"ts".to_string()));
    assert!(exts.contains(&"css".to_string()));
}

#[test]
fn plugin_info_contains_metadata() {
    let reg = build_registry();
    let plugins = reg.plugin_list();
    let ts = plugins.iter().find(|p| p.name == "TypeScript/JavaScript").unwrap();
    assert!(!ts.extensions.is_empty());
    assert!(!ts.description.is_empty());
}

#[test]
fn resolve_lowercases_and_maps_to_the_right_analyzer() {
    let reg = build_registry();
    assert_eq!(reg.resolve("TSX"), Some(Analyzer::TypeScriptJavaScript));
    assert_eq!(reg.resolve("Css"), Some(Analyzer::Css));
}

#[test]
fn all_extensions_are_sorted_and_unique() {
    let reg = build_registry();
    let exts = reg.all_extensions();
    assert_eq!(exts, vec!["css", "js", "jsx", "ts", "tsx"]);
}

#[test]
fn resolve_lowercases_but_resolve_key_does_not() {
    let reg = build_registry();
    assert_eq!(reg.resolve("TSX"), Some(Analyzer::TypeScriptJavaScript));
    assert_eq!(reg.resolve("Css"), Some(Analyzer::Css));
    assert_eq!(reg.resolve_key("css"), Some(Analyzer::Css));
    assert_eq!(reg.resolve_key("CSS"), None);
}
