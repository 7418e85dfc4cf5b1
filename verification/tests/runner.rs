use codecompass::runner::{analysis_status, AnalysisCounters, FileMark, FileOutcome};

#[test]
fn outcomes_decide_marks_and_tallies() {
    let mut c = AnalysisCounters::new();
    c.begin_file();
    let d = c.record(FileOutcome::Missing);
    assert_eq!(d.mark, FileMark::FileNotFound);
    assert!(!d.store_results);
    assert_eq!(c.error_count, 1);

    c.begin_file();
    let d = c.record(FileOutcome::Parsed { success: true, diagnostics: 0 });
    assert_eq!(d.mark, FileMark::Done);
    assert!(d.store_results);
    assert!(!d.save_diagnostics);
    assert_eq!(c.parsed, 1);

    c.begin_file();
    let d = c.record(FileOutcome::Parsed { success: false, diagnostics: 2 });
    assert_eq!(d.mark, FileMark::FirstDiagnostic);
    assert!(d.save_diagnostics);
    assert_eq!(c.error_count, 2);

    c.begin_file();
    let d = c.record(FileOutcome::Parsed { success: true, diagnostics: 1 });
    assert_eq!(d.mark, FileMark::Done);
    assert!(d.save_diagnostics);

    c.begin_file();
    let d = c.record(FileOutcome::Parsed { success: false, diagnostics: 0 });
    assert_eq!(d.mark, FileMark::Untouched);
    assert_eq!(c.error_count, 2);

    c.begin_file();
    assert_eq!(c.record(FileOutcome::Unreadable).mark, FileMark::ReadFailed);
    c.begin_file();
    assert_eq!(c.record(FileOutcome::NoAnalyzer).mark, FileMark::NoAnalyzer);
    assert_eq!(c.processed, 7);
    assert_eq!(c.parsed, 2);
    assert_eq!(c.error_count, 4);
}

#[test]
fn progress_every_ten_files() {
    let mut c = AnalysisCounters::new();
    for i in 1..=20 {
        c.begin_file();
        c.record(FileOutcome::Parsed { success: true, diagnostics: 0 });
        assert_eq!(c.progress_due(), i % 10 == 0);
    }
}

#[test]
fn analysis_status_reflects_errors() {
    assert_eq!(analysis_status(0), "analyzed");
    assert_eq!(analysis_status(3), "analyzed_with_errors");
}
