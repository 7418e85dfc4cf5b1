use codecompass::entrypoint::{entry_evidence, files_evidence};

#[test]
fn main_in_src_that_imports_much_is_an_orchestrator() {
    let e = entry_evidence("src/main.ts", "main.ts", 6, 0);
    assert_eq!(
        e.reasons,
        vec![
            "filename matches 'main.ts'".to_string(),
            "located in src/ directory".to_string(),
            "imports 6 modules but only imported by 0 \u{2014} likely orchestrator".to_string(),
        ]
    );
    assert!(e.known_name);
    assert!(e.in_src);
    assert!(e.orchestrator);
    assert!(!e.shared_module);
}

#[test]
fn heavily_imported_file_is_a_shared_module() {
    let e = entry_evidence("lib/util.ts", "util.ts", 1, 4);
    assert_eq!(e.reasons, vec!["imported by 4 files (outgoing: 1) \u{2014} likely shared module".to_string()]);
    assert!(e.shared_module);
    assert!(!e.known_name);
    assert!(!e.in_src);
}

#[test]
fn pages_directory_and_case_are_recognised() {
    let e = entry_evidence("app/Pages/Home.tsx", "Home.tsx", 0, 0);
    assert!(e.in_pages);
    assert!(e.reasons.contains(&"located in pages/ directory".to_string()));
}

#[test]
fn plain_file_has_no_evidence() {
    let e = entry_evidence("lib/helpers.ts", "helpers.ts", 1, 1);
    assert!(e.reasons.is_empty());
    assert!(!e.known_name && !e.in_src && !e.in_pages && !e.shared_module && !e.orchestrator);
}

#[test]
fn lowered_evidence_takes_text_as_given() {
    let e = codecompass::entrypoint::entry_evidence_lowered("src/Main.ts", "Main.ts", 0, 0);
    assert!(!e.known_name);
    assert!(e.in_src);
    let e = codecompass::entrypoint::entry_evidence_lowered("cli.js", "cli.js", 0, 0);
    assert!(e.known_name);
    assert_eq!(e.reasons, vec!["filename matches 'cli.js'".to_string()]);
}

#[test]
fn import_counts_feed_the_evidence_of_each_file() {
    let files = vec![
        (1, "src/util.ts".to_string(), "util.ts".to_string()),
        (2, "lib/a.ts".to_string(), "a.ts".to_string()),
        (3, "lib/b.ts".to_string(), "b.ts".to_string()),
        (4, "lib/c.ts".to_string(), "c.ts".to_string()),
    ];
    let edges = vec![(2, 1), (3, 1), (4, 1), (2, 3)];
    let ev = files_evidence(&files, &edges);
    assert_eq!(ev.len(), 4);
    assert!(ev[0].shared_module);
    assert!(!ev[1].shared_module);
    let direct = entry_evidence("src/util.ts", "util.ts", 0, 3);
    assert_eq!(ev[0].reasons, direct.reasons);
    assert_eq!(ev[1].reasons, entry_evidence("lib/a.ts", "a.ts", 2, 0).reasons);
}
