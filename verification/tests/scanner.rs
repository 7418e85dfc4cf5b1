use codecompass::models::ScanProgressEvent;
use codecompass::scanner::{NoopCallbacks, ScanCallbacks};
use codecompass::scanner::{
    clamp_size, compute_fingerprint, final_status, is_ignored_directory, is_supported_extension, parent_or_dot, scan_summary,
    should_reconcile, ScanAction, ScanCounters, WalkEntry, BATCH_SIZE,
};

#[test]
fn ignored_directories_are_skipped() {
    assert!(is_ignored_directory("node_modules"));
    assert!(is_ignored_directory(".git"));
    assert!(is_ignored_directory("target"));
    assert!(!is_ignored_directory("src"));
    assert!(!is_ignored_directory("Node_Modules"));
}

#[test]
fn supported_extensions_ignore_case() {
    assert!(is_supported_extension(Some("ts")));
    assert!(is_supported_extension(Some("TSX")));
    assert!(is_supported_extension(Some("Js")));
    assert!(!is_supported_extension(Some("css")));
    assert!(!is_supported_extension(None));
}

#[test]
fn fingerprint_joins_size_and_time() {
    assert_eq!(compute_fingerprint(1234, Some(1700)), "1234:1700");
    assert_eq!(compute_fingerprint(0, None), "0:0");
}

#[test]
fn scan_steps_count_and_classify() {
    let mut c = ScanCounters::new();
    assert_eq!(c.scan_step(false, WalkEntry::Root), ScanAction::Continue);
    assert_eq!(
        c.scan_step(false, WalkEntry::Directory { name: Some("node_modules".to_string()) }),
        ScanAction::SkipDirectory
    );
    assert_eq!(c.scan_step(false, WalkEntry::Directory { name: Some("src".to_string()) }), ScanAction::Continue);
    assert_eq!(c.scan_step(false, WalkEntry::Unreadable), ScanAction::Continue);
    assert_eq!(c.error_count, 1);
    assert_eq!(c.scan_step(false, WalkEntry::OutsideRoot), ScanAction::Continue);
    assert_eq!(c.warning_count, 1);
    assert_eq!(
        c.scan_step(false, WalkEntry::File { relative_ok: true, extension: Some("md".to_string()) }),
        ScanAction::Continue
    );
    assert_eq!(c.files_processed, 1);
    assert_eq!(
        c.scan_step(false, WalkEntry::File { relative_ok: true, extension: Some("ts".to_string()) }),
        ScanAction::IndexFile
    );
    assert!(c.pending);
    assert!(!c.record_row(true));
    assert_eq!(c.files_indexed, 1);
    assert_eq!(c.batch_len, 1);
    assert_eq!(
        c.scan_step(false, WalkEntry::File { relative_ok: false, extension: Some("ts".to_string()) }),
        ScanAction::Continue
    );
    assert_eq!(c.warning_count, 2);
    assert_eq!(c.files_processed, 3);
    assert_eq!(c.scan_step(true, WalkEntry::Root), ScanAction::Cancel);
}

#[test]
fn batch_is_full_at_batch_size() {
    let mut c = ScanCounters::new();
    let mut flushes = 0;
    for _ in 0..BATCH_SIZE {
        let a = c.scan_step(false, WalkEntry::File { relative_ok: true, extension: Some("js".to_string()) });
        assert_eq!(a, ScanAction::IndexFile);
        if c.record_row(true) {
            flushes += 1;
            c.batch_flushed();
        }
    }
    assert_eq!(flushes, 1);
    assert_eq!(c.batch_len, 0);
    assert_eq!(c.files_indexed, BATCH_SIZE as i64);
    let a = c.scan_step(false, WalkEntry::File { relative_ok: true, extension: Some("jsx".to_string()) });
    assert_eq!(a, ScanAction::IndexFile);
    assert!(!c.record_row(false));
    assert_eq!(c.error_count, 1);
}

#[test]
fn final_status_and_reconciliation() {
    assert_eq!(final_status(0, 0), "completed");
    assert_eq!(final_status(0, 2), "completed_with_warnings");
    assert_eq!(final_status(1, 2), "completed_with_errors");
    assert!(should_reconcile("completed"));
    assert!(should_reconcile("completed_with_warnings"));
    assert!(!should_reconcile("completed_with_errors"));
    assert!(!should_reconcile("cancelled"));
    assert!(!should_reconcile("failed"));
}

#[test]
fn summary_copies_tallies() {
    let mut c = ScanCounters::new();
    c.scan_step(false, WalkEntry::OutsideRoot);
    let s = scan_summary(&c, "completed_with_warnings");
    assert_eq!(s.warning_count, 1);
    assert_eq!(s.files_processed, 0);
    assert_eq!(s.status, "completed_with_warnings");
}

#[test]
fn parent_and_size_helpers() {
    assert_eq!(parent_or_dot(Some("src/lib".to_string())), "src/lib");
    assert_eq!(parent_or_dot(Some(String::new())), ".");
    assert_eq!(parent_or_dot(None), ".");
    assert_eq!(clamp_size(42), 42);
    assert_eq!(clamp_size(u64::MAX), i64::MAX);
}

#[test]
fn lowercase_extension_check() {
    assert!(codecompass::scanner::is_supported_lowercase("tsx"));
    assert!(!codecompass::scanner::is_supported_lowercase("TSX"));
    assert!(!codecompass::scanner::is_supported_lowercase("css"));
}

#[test]
fn noop_callbacks_accept_progress() {
    let cb: &dyn ScanCallbacks = &NoopCallbacks;
    cb.emit_progress(ScanProgressEvent {
        run_id: 1,
        workspace_id: 1,
        status: "running".to_string(),
        files_processed: 0,
        files_indexed: 0,
        warning_count: 0,
        error_count: 0,
        phase: Some("walking".to_string()),
    });
}
