use codecompass::findings::{
    highly_connected_finding, orphaned_files_finding, unresolved_imports_finding, unused_exports_finding,
};

#[test]
fn unresolved_imports_are_reported_with_count() {
    assert!(unresolved_imports_finding(0, &vec!["./x".to_string()]).is_none());
    let f = unresolved_imports_finding(3, &vec!["./a".to_string(), "./b".to_string()]).unwrap();
    assert_eq!(f.category, "unresolved_import");
    assert_eq!(f.severity, "warning");
    assert_eq!(f.title, "3 file(s) have unresolved local imports");
    assert_eq!(f.evidence, vec!["unresolved: ./a".to_string(), "unresolved: ./b".to_string()]);
}

#[test]
fn only_modules_above_threshold_are_highly_connected() {
    let rows = vec![
        ("src/hub.ts".to_string(), 10, 8),
        ("src/edge.ts".to_string(), 10, 5),
        ("src/core.ts".to_string(), 1, 20),
    ];
    let f = highly_connected_finding(&rows).unwrap();
    assert_eq!(f.category, "highly_connected");
    assert_eq!(f.title, "Highly connected modules detected");
    assert_eq!(
        f.evidence,
        vec![
            "src/hub.ts (out: 10, in: 8, total: 18)".to_string(),
            "src/core.ts (out: 1, in: 20, total: 21)".to_string(),
        ]
    );
    assert!(highly_connected_finding(&vec![("a.ts".to_string(), 10, 5)]).is_none());
    assert!(highly_connected_finding(&Vec::new()).is_none());
}

#[test]
fn orphans_and_unused_exports() {
    assert!(orphaned_files_finding(Vec::new()).is_none());
    let f = orphaned_files_finding(vec!["a.ts".to_string(), "b.ts".to_string()]).unwrap();
    assert_eq!(f.title, "2 file(s) have no import relationships");
    assert_eq!(f.evidence, vec!["a.ts".to_string(), "b.ts".to_string()]);
    assert_eq!(f.category, "orphaned_file");

    assert!(unused_exports_finding(&Vec::new()).is_none());
    let f = unused_exports_finding(&vec![("helper".to_string(), "src/util.ts".to_string())]).unwrap();
    assert_eq!(f.title, "1 exported symbol(s) may be unused within the workspace");
    assert_eq!(f.evidence, vec!["helper in src/util.ts".to_string()]);
    assert_eq!(f.severity, "info");
}
