//! The decisions of an analysis run: what each file's outcome means for
//! the index and the tallies, when progress is reported, and the final
//! status. Reading files, parsing and writing the index happen around them.
use vstd::prelude::*;

verus! {

/// Progress of a running analysis.
#[derive(Debug)]
pub struct AnalysisProgressEvent {
    pub workspace_id: i64,
    pub status: String,
    pub files_processed: i64,
    pub files_total: i64,
    pub files_parsed: i64,
    pub error_count: i64,
}

/// Progress is reported after every this many files.
pub const PROGRESS_EVERY: i64 = 10;

/// What happened to one file.
#[derive(Debug, Clone, Copy, PartialEq, Eq, Structural)]
pub enum FileOutcome {
    /// The file is gone or is no regular file.
    Missing,
    /// The file could not be read as text.
    Unreadable,
    /// No analyzer handles its extension.
    NoAnalyzer,
    /// The analyzer ran; `success` when its results are usable.
    Parsed { success: bool, diagnostics: usize },
}

/// How a file is marked in the index afterwards.
#[derive(Debug, Clone, Copy, PartialEq, Eq, Structural)]
pub enum FileMark {
    /// Left as it is.
    Untouched,
    /// Analysis done.
    Done,
    /// Parse error: the file was not found.
    FileNotFound,
    /// Parse error: the read failed (with the read error's text).
    ReadFailed,
    /// Parse error: no analyzer for the extension.
    NoAnalyzer,
    /// Parse error: the first diagnostic's message.
    FirstDiagnostic,
}

/// What to write to the index for one file.
#[derive(Debug, Clone, Copy, PartialEq, Eq, Structural)]
pub struct FileDecision {
    /// Store the imports, symbols and references found.
    pub store_results: bool,
    /// Store the diagnostics reported.
    pub save_diagnostics: bool,
    pub mark: FileMark,
}

/// The running tallies of an analysis.
#[derive(Debug)]
pub struct AnalysisCounters {
    pub processed: i64,
    pub parsed: i64,
    pub error_count: i64,
}

/// Each processed file is at most once parsed or failed.
pub open spec fn analysis_ok(c: AnalysisCounters) -> bool {
    0 <= c.parsed && 0 <= c.error_count && c.parsed + c.error_count <= c.processed
}

/// The decision for an outcome.
pub open spec fn decision_for(o: FileOutcome) -> FileDecision {
    match o {
        FileOutcome::Missing => FileDecision { store_results: false, save_diagnostics: false, mark: FileMark::FileNotFound },
        FileOutcome::Unreadable => FileDecision { store_results: false, save_diagnostics: false, mark: FileMark::ReadFailed },
        FileOutcome::NoAnalyzer => FileDecision { store_results: false, save_diagnostics: false, mark: FileMark::NoAnalyzer },
        FileOutcome::Parsed { success, diagnostics } => FileDecision {
            store_results: success,
            save_diagnostics: diagnostics > 0,
            mark: if diagnostics > 0 && !success {
                FileMark::FirstDiagnostic
            } else if success {
                FileMark::Done
            } else {
                FileMark::Untouched
            },
        },
    }
}

/// The outcome counts as a failure.
pub open spec fn is_failure(o: FileOutcome) -> bool {
    match o {
        FileOutcome::Parsed { success, diagnostics } => !success && diagnostics > 0,
        _ => true,
    }
}

impl AnalysisCounters {
    /// Tallies of an analysis that has not started.
    pub fn new() -> (c: Self)
        ensures
            analysis_ok(c),
            c.processed == 0 && c.parsed == 0 && c.error_count == 0,
    {
        AnalysisCounters { processed: 0, parsed: 0, error_count: 0 }
    }

    /// A file is taken up.
    pub fn begin_file(&mut self)
        requires
            analysis_ok(*old(self)),
            old(self).processed < i64::MAX,
        ensures
            analysis_ok(*final(self)),
            final(self).processed == old(self).processed + 1,
            final(self).parsed == old(self).parsed,
            final(self).error_count == old(self).error_count,
    {
        self.processed = self.processed + 1;
    }

    /// Records the outcome of the file just taken up and says what to
    /// write for it.
    pub fn record(&mut self, outcome: FileOutcome) -> (d: FileDecision)
        requires
            analysis_ok(*old(self)),
            old(self).parsed + old(self).error_count < old(self).processed,
        ensures
            analysis_ok(*final(self)),
            d == decision_for(outcome),
            final(self).processed == old(self).processed,
            final(self).parsed == old(self).parsed + if d.store_results {
                1int
            } else {
                0int
            },
            final(self).error_count == old(self).error_count + if is_failure(outcome) {
                1int
            } else {
                0int
            },
    {
        match outcome {
            FileOutcome::Missing => {
                self.error_count = self.error_count + 1;
                FileDecision { store_results: false, save_diagnostics: false, mark: FileMark::FileNotFound }
            },
            FileOutcome::Unreadable => {
                self.error_count = self.error_count + 1;
                FileDecision { store_results: false, save_diagnostics: false, mark: FileMark::ReadFailed }
            },
            FileOutcome::NoAnalyzer => {
                self.error_count = self.error_count + 1;
                FileDecision { store_results: false, save_diagnostics: false, mark: FileMark::NoAnalyzer }
            },
            FileOutcome::Parsed { success, diagnostics } => {
                if success {
                    self.parsed = self.parsed + 1;
                }
                let mark = if diagnostics > 0 {
                    if !success {
                        self.error_count = self.error_count + 1;
                        FileMark::FirstDiagnostic
                    } else {
                        FileMark::Done
                    }
                } else if success {
                    FileMark::Done
                } else {
                    FileMark::Untouched
                };
                FileDecision { store_results: success, save_diagnostics: diagnostics > 0, mark }
            },
        }
    }

    /// Progress is due after every `PROGRESS_EVERY` processed files.
    pub fn progress_due(&self) -> (r: bool)
        ensures
            r == (self.processed % PROGRESS_EVERY == 0),
    {
        self.processed % PROGRESS_EVERY == 0
    }
}

/// The status of a finished analysis.
pub open spec fn analysis_status_of(error_count: i64) -> Seq<char> {
    if error_count > 0 {
        "analyzed_with_errors"@
    } else {
        "analyzed"@
    }
}

/// The status of a finished analysis: with errors when any file failed.
pub fn analysis_status(error_count: i64) -> (s: &'static str)
    ensures
        s@ == analysis_status_of(error_count),
{
    if error_count > 0 {
        "analyzed_with_errors"
    } else {
        "analyzed"
    }
}

} // verus!
