use codecompass::platform::PathComponent;
use codecompass::workspaces::{
    count_lines, detect_language, find_duplicate, find_nested_parents, is_external_package, normalize_separators,
    source_file, FolderRow,
};

fn comps(p: &str) -> Vec<PathComponent> {
    let mut v = vec![PathComponent::RootDir];
    for part in p.split('/').filter(|s| !s.is_empty()) {
        v.push(PathComponent::Normal(part.to_string()));
    }
    v
}

fn rows() -> Vec<FolderRow> {
    vec![
        (1, "/home/a".to_string(), comps("/home/a")),
        (2, "/home/b".to_string(), comps("/home/b")),
        (3, "/home".to_string(), comps("/home")),
    ]
}

#[test]
fn duplicates_are_found_by_path() {
    assert_eq!(find_duplicate(&rows(), &comps("/home/b"), false), Some(2));
    assert_eq!(find_duplicate(&rows(), &comps("/home/B"), false), None);
    assert_eq!(find_duplicate(&rows(), &comps("/home/B"), true), Some(2));
    assert_eq!(find_duplicate(&rows(), &comps("/tmp"), false), None);
}

#[test]
fn nested_folders_produce_warnings_in_order() {
    let w = find_nested_parents(&rows(), &comps("/home/a/x"), "/home/a/x", false);
    assert_eq!(w.len(), 2);
    assert_eq!(w[0].0, "/home/a");
    assert_eq!(w[0].1, "/home/a/x is already covered by the indexed folder /home/a");
    assert_eq!(w[1].0, "/home");
    let w = find_nested_parents(&rows(), &comps("/home"), "/home", false);
    assert!(w.is_empty());
}

#[test]
fn languages_follow_extension() {
    assert_eq!(detect_language("a/b.tsx"), "typescriptreact");
    assert_eq!(detect_language("a/b.TS"), "typescript");
    assert_eq!(detect_language("x.jsx"), "javascriptreact");
    assert_eq!(detect_language("x.js"), "javascript");
    assert_eq!(detect_language("x.css"), "plaintext");
}

#[test]
fn lines_are_counted() {
    assert_eq!(count_lines(""), 0);
    assert_eq!(count_lines("a"), 1);
    assert_eq!(count_lines("a\n"), 1);
    assert_eq!(count_lines("a\n\nb"), 3);
}

#[test]
fn source_file_carries_content_and_language() {
    let f = source_file("x\ny\n".to_string(), "src/a.ts", true);
    assert_eq!(f.content, "x\ny\n");
    assert_eq!(f.language, "typescript");
    assert_eq!(f.total_lines, 2);
    assert!(f.truncated);
}

#[test]
fn package_specifiers_and_separators() {
    assert!(is_external_package("react"));
    assert!(is_external_package("@scope/pkg"));
    assert!(!is_external_package("./x"));
    assert!(!is_external_package("/abs"));
    assert!(!is_external_package("C:\\x"));
    assert_eq!(normalize_separators("a\\b\\c"), "a/b/c");
}

#[test]
fn language_of_lowercased_path() {
    assert_eq!(codecompass::workspaces::language_of_lowercase("a/b.tsx"), "typescriptreact");
    assert_eq!(codecompass::workspaces::language_of_lowercase("a/b.TS"), "plaintext");
}
