//! The decisions of a workspace scan: which walked entries are counted,
//! skipped or indexed, when a batch is full, and how a finished scan is
//! judged. The walk itself, file metadata and the database writes happen
//! around these decisions.
use vstd::prelude::*;
use vstd::string::StringExecFns;

use crate::decimal::{append_i64, signed_dec};
use crate::text::{lowercase, text_eq, to_lowercase};

verus! {

/// Rows are written to the index in batches of this many files.
pub const BATCH_SIZE: usize = 100;

/// Directories never descended into.
pub open spec fn ignored_dir(name: Seq<char>) -> bool {
    name == ".git"@
        || name == "node_modules"@
        || name == "dist"@
        || name == "build"@
        || name == "coverage"@
        || name == ".next"@
        || name == "out"@
        || name == "target"@
        || name == "vendor"@
        || name == ".idea"@
}

/// Whether a directory of this name is skipped.
pub fn is_ignored_directory(name: &str) -> (r: bool)
    ensures
        r == ignored_dir(name@),
{
    text_eq(name, ".git")
        || text_eq(name, "node_modules")
        || text_eq(name, "dist")
        || text_eq(name, "build")
        || text_eq(name, "coverage")
        || text_eq(name, ".next")
        || text_eq(name, "out")
        || text_eq(name, "target")
        || text_eq(name, "vendor")
        || text_eq(name, ".idea")
}

/// The extensions the scanner indexes (after lowercasing).
pub open spec fn supported_ext(e: Seq<char>) -> bool {
    e == "ts"@ || e == "tsx"@ || e == "js"@ || e == "jsx"@
}

/// Whether a file with this extension is indexed; the extension is
/// lowercased first.
pub fn is_supported_extension(extension: Option<&str>) -> (r: bool)
    ensures
        r == match extension {
            Some(e) => supported_ext(lowercase(e@)),
            None => false,
        },
{
    match extension {
        Some(e) => {
            let l = to_lowercase(e);
            is_supported_lowercase(l.as_str())
        },
        None => false,
    }
}

/// Whether an already lowercased extension is indexed.
pub fn is_supported_lowercase(extension: &str) -> (r: bool)
    ensures
        r == supported_ext(extension@),
{
    text_eq(extension, "ts") || text_eq(extension, "tsx") || text_eq(extension, "js") || text_eq(extension, "jsx")
}

/// Information needed to upsert a single file during a scan.
#[derive(Debug)]
pub struct FileUpsert {
    pub relative_path: String,
    pub name: String,
    pub parent_path: String,
    pub extension: Option<String>,
    pub size_bytes: i64,
    pub created_at: Option<i64>,
    pub modified_at: Option<i64>,
    pub fingerprint: String,
    pub indexed_at: i64,
    pub last_seen_at: i64,
}

/// The fingerprint of a file: its size and modification time, `size:mtime`
/// (0 when the time is unknown).
pub fn compute_fingerprint(size_bytes: i64, modified_at: Option<i64>) -> (f: String)
    ensures
        f@ == signed_dec(size_bytes as int) + seq![':'] + signed_dec(
            match modified_at {
                Some(m) => m as int,
                None => 0,
            },
        ),
{
    let mut s = String::new();
    append_i64(&mut s, size_bytes);
    s.append(":");
    let m = match modified_at {
        Some(m) => m,
        None => 0,
    };
    append_i64(&mut s, m);
    proof {
        reveal_strlit(":");
    }
    s
}

/// The parent folder of a file as stored: "." at the workspace root.
pub fn parent_or_dot(parent: Option<String>) -> (p: String)
    ensures
        p@ == match parent {
            Some(s) => if s@.len() == 0 {
                "."@
            } else {
                s@
            },
            None => "."@,
        },
{
    match parent {
        Some(s) => {
            if s.as_str().is_empty() {
                String::from_str(".")
            } else {
                s
            }
        },
        None => String::from_str("."),
    }
}

/// A file size as stored: sizes beyond `i64::MAX` are capped.
pub fn clamp_size(len: u64) -> (s: i64)
    ensures
        s == if len > i64::MAX as u64 {
            i64::MAX as int
        } else {
            len as int
        },
{
    if len > i64::MAX as u64 {
        i64::MAX
    } else {
        len as i64
    }
}

/// Summary produced when a scan finishes.
#[derive(Debug)]
pub struct ScanSummary {
    pub files_processed: i64,
    pub files_indexed: i64,
    pub warning_count: i64,
    pub error_count: i64,
    pub status: String,
}

/// Receives the progress of a running scan.
pub trait ScanCallbacks {
    fn emit_progress(&self, event: crate::models::ScanProgressEvent);
}

/// Progress that goes nowhere.
pub struct NoopCallbacks;

impl ScanCallbacks for NoopCallbacks {
    fn emit_progress(&self, _event: crate::models::ScanProgressEvent) {
    }
}

/// What the directory walk produced next.
pub enum WalkEntry {
    /// The walker could not read an entry.
    Unreadable,
    /// The entry lies outside the workspace root.
    OutsideRoot,
    /// The workspace root itself.
    Root,
    Symlink,
    /// A directory; `name` when its name is valid text.
    Directory { name: Option<String> },
    /// A regular file; `relative_ok` when its path relative to the root
    /// could be formed, `extension` its extension if any.
    File { relative_ok: bool, extension: Option<String> },
    /// Anything else (devices, sockets, ...).
    Other,
}

/// What to do with a walked entry.
#[derive(Debug, Clone, Copy, PartialEq, Eq, Structural)]
pub enum ScanAction {
    /// Go on with the next entry.
    Continue,
    /// Do not descend into this directory.
    SkipDirectory,
    /// Read the file's metadata and report back with `record_row`.
    IndexFile,
    /// Stop: the scan was cancelled.
    Cancel,
}

/// The running tallies of a scan.
#[derive(Debug)]
pub struct ScanCounters {
    pub files_processed: i64,
    pub files_indexed: i64,
    pub warning_count: i64,
    pub error_count: i64,
    /// Rows waiting to be written.
    pub batch_len: usize,
    /// A file was handed out for indexing and not yet reported back.
    pub pending: bool,
}

/// The tallies are consistent: every indexed or pending file was counted
/// as processed.
pub open spec fn counters_ok(c: ScanCounters) -> bool {
    &&& 0 <= c.files_indexed
    &&& c.files_indexed + (if c.pending {
        1int
    } else {
        0int
    }) <= c.files_processed
    &&& 0 <= c.warning_count
    &&& 0 <= c.error_count
    &&& c.batch_len <= c.files_indexed
}

/// The tallies leave room for one more step.
pub open spec fn counters_bounded(c: ScanCounters) -> bool {
    &&& c.files_processed < i64::MAX
    &&& c.warning_count < i64::MAX
    &&& c.error_count < i64::MAX
    &&& c.batch_len < usize::MAX
}

/// Same tallies, apart from the named changes.
pub open spec fn tallied(old_c: ScanCounters, c: ScanCounters, processed: int, warnings: int, errors: int, pending: bool) -> bool {
    &&& c.files_processed == old_c.files_processed + processed
    &&& c.files_indexed == old_c.files_indexed
    &&& c.warning_count == old_c.warning_count + warnings
    &&& c.error_count == old_c.error_count + errors
    &&& c.batch_len == old_c.batch_len
    &&& c.pending == pending
}

/// What one walked entry does to the tallies, and the action it calls for.
pub open spec fn stepped(old_c: ScanCounters, c: ScanCounters, cancelled: bool, entry: WalkEntry, a: ScanAction) -> bool {
    if cancelled {
        a == ScanAction::Cancel && tallied(old_c, c, 0, 0, 0, false)
    } else {
        match entry {
            WalkEntry::Unreadable => a == ScanAction::Continue && tallied(old_c, c, 0, 0, 1, false),
            WalkEntry::OutsideRoot => a == ScanAction::Continue && tallied(old_c, c, 0, 1, 0, false),
            WalkEntry::Directory { name } => tallied(old_c, c, 0, 0, 0, false) && a == if (name matches Some(n)
                && ignored_dir(n@)) {
                ScanAction::SkipDirectory
            } else {
                ScanAction::Continue
            },
            WalkEntry::File { relative_ok, extension } => if !relative_ok {
                a == ScanAction::Continue && tallied(old_c, c, 1, 1, 0, false)
            } else if !(extension matches Some(e) && supported_ext(lowercase(e@))) {
                a == ScanAction::Continue && tallied(old_c, c, 1, 0, 0, false)
            } else {
                a == ScanAction::IndexFile && tallied(old_c, c, 1, 0, 0, true)
            },
            _ => a == ScanAction::Continue && tallied(old_c, c, 0, 0, 0, false),
        }
    }
}

/// A directory is ignored exactly when its name is one of those of
/// version control and editor folders, installed packages, and build or
/// coverage output.
pub proof fn lemma_ignored_names(name: Seq<char>)
    ensures
        ignored_dir(name) <==> set![".git"@, "node_modules"@, "dist"@, "build"@, "coverage"@, ".next"@, "out"@, "target"@, "vendor"@, ".idea"@].contains(name),
{
}

/// Unless the scan is cancelled, a walked directory is skipped exactly when
/// its name is one of those ignored, and is otherwise descended into;
/// the tallies do not change either way.
pub proof fn lemma_directory_step(old_c: ScanCounters, c: ScanCounters, name: Option<String>, a: ScanAction)
    requires
        stepped(old_c, c, false, WalkEntry::Directory { name }, a),
    ensures
        a == ScanAction::SkipDirectory <==> (name matches Some(n) && set![".git"@, "node_modules"@, "dist"@, "build"@, "coverage"@, ".next"@, "out"@, "target"@, "vendor"@, ".idea"@].contains(n@)),
        a == ScanAction::SkipDirectory || a == ScanAction::Continue,
        c.files_processed == old_c.files_processed && c.files_indexed == old_c.files_indexed,
        c.warning_count == old_c.warning_count && c.error_count == old_c.error_count,
{
    if let Some(n) = name {
        lemma_ignored_names(n@);
    }
}

/// Unless the scan is cancelled, a walked file whose relative path could be
/// formed is sent for indexing exactly when its lowercased extension is
/// `ts`, `tsx`, `js` or `jsx`; every walked file counts as processed once.
pub proof fn lemma_file_step(
    old_c: ScanCounters,
    c: ScanCounters,
    relative_ok: bool,
    extension: Option<String>,
    a: ScanAction,
)
    requires
        stepped(old_c, c, false, WalkEntry::File { relative_ok, extension }, a),
    ensures
        a == ScanAction::IndexFile <==> relative_ok && (extension matches Some(x) && set![
            "ts"@,
            "tsx"@,
            "js"@,
            "jsx"@,
        ].contains(lowercase(x@))),
        a == ScanAction::IndexFile || a == ScanAction::Continue,
        c.files_processed == old_c.files_processed + 1,
        c.files_indexed == old_c.files_indexed,
{
}

impl ScanCounters {
    /// Tallies of a scan that has not started.
    pub fn new() -> (c: Self)
        ensures
            counters_ok(c),
            c.files_processed == 0 && c.files_indexed == 0 && c.warning_count == 0 && c.error_count == 0,
            c.batch_len == 0 && !c.pending,
    {
        ScanCounters {
            files_processed: 0,
            files_indexed: 0,
            warning_count: 0,
            error_count: 0,
            batch_len: 0,
            pending: false,
        }
    }

    /// Decides what to do with the next walked entry; `cancelled` is the
    /// cancellation flag as read before the entry is looked at.
    pub fn scan_step(&mut self, cancelled: bool, entry: WalkEntry) -> (a: ScanAction)
        requires
            counters_ok(*old(self)),
            counters_bounded(*old(self)),
            !old(self).pending,
        ensures
            counters_ok(*final(self)),
            stepped(*old(self), *final(self), cancelled, entry, a),
    {
        if cancelled {
            return ScanAction::Cancel;
        }
        match entry {
            WalkEntry::Unreadable => {
                self.error_count = self.error_count + 1;
                ScanAction::Continue
            },
            WalkEntry::OutsideRoot => {
                self.warning_count = self.warning_count + 1;
                ScanAction::Continue
            },
            WalkEntry::Root => ScanAction::Continue,
            WalkEntry::Symlink => ScanAction::Continue,
            WalkEntry::Directory { name } => match name {
                Some(n) => {
                    if is_ignored_directory(n.as_str()) {
                        ScanAction::SkipDirectory
                    } else {
                        ScanAction::Continue
                    }
                },
                None => ScanAction::Continue,
            },
            WalkEntry::File { relative_ok, extension } => {
                self.files_processed = self.files_processed + 1;
                if !relative_ok {
                    self.warning_count = self.warning_count + 1;
                    return ScanAction::Continue;
                }
                let supported = match &extension {
                    Some(e) => is_supported_extension(Some(e.as_str())),
                    None => false,
                };
                if !supported {
                    return ScanAction::Continue;
                }
                self.pending = true;
                ScanAction::IndexFile
            },
            WalkEntry::Other => ScanAction::Continue,
        }
    }

    /// Reports back on a file handed out for indexing: `built` when its row
    /// could be made (it joins the batch), else a metadata error. Returns
    /// whether the batch is now full and must be written.
    pub fn record_row(&mut self, built: bool) -> (flush: bool)
        requires
            counters_ok(*old(self)),
            counters_bounded(*old(self)),
            old(self).pending,
        ensures
            counters_ok(*final(self)),
            !final(self).pending,
            final(self).files_processed == old(self).files_processed,
            final(self).warning_count == old(self).warning_count,
            built ==> final(self).files_indexed == old(self).files_indexed + 1 && final(self).batch_len
                == old(self).batch_len + 1 && final(self).error_count == old(self).error_count,
            !built ==> final(self).files_indexed == old(self).files_indexed && final(self).batch_len
                == old(self).batch_len && final(self).error_count == old(self).error_count + 1,
            flush == (final(self).batch_len >= BATCH_SIZE),
    {
        self.pending = false;
        if built {
            self.files_indexed = self.files_indexed + 1;
            self.batch_len = self.batch_len + 1;
        } else {
            self.error_count = self.error_count + 1;
        }
        self.batch_len >= BATCH_SIZE
    }

    /// The batch was written.
    pub fn batch_flushed(&mut self)
        requires
            counters_ok(*old(self)),
        ensures
            counters_ok(*final(self)),
            final(self).batch_len == 0,
            final(self).files_processed == old(self).files_processed,
            final(self).files_indexed == old(self).files_indexed,
            final(self).warning_count == old(self).warning_count,
            final(self).error_count == old(self).error_count,
            final(self).pending == old(self).pending,
    {
        self.batch_len = 0;
    }
}

/// The status of a scan that walked the whole tree.
pub open spec fn status_of(error_count: i64, warning_count: i64) -> Seq<char> {
    if error_count > 0 {
        "completed_with_errors"@
    } else if warning_count > 0 {
        "completed_with_warnings"@
    } else {
        "completed"@
    }
}

/// Only a scan that saw every entry may mark unseen files as removed.
pub open spec fn reconciles(status: Seq<char>) -> bool {
    status == "completed"@ || status == "completed_with_warnings"@
}

/// The final status of a completed walk: errors first, then warnings.
pub fn final_status(error_count: i64, warning_count: i64) -> (s: &'static str)
    ensures
        s@ == status_of(error_count, warning_count),
{
    if error_count > 0 {
        "completed_with_errors"
    } else if warning_count > 0 {
        "completed_with_warnings"
    } else {
        "completed"
    }
}

/// Whether a scan with this status marks the files it did not see as
/// removed.
pub fn should_reconcile(status: &str) -> (r: bool)
    ensures
        r == reconciles(status@),
{
    text_eq(status, "completed") || text_eq(status, "completed_with_warnings")
}

/// A completed walk reconciles exactly when it met no errors; a cancelled
/// or failed scan never does.
pub proof fn lemma_reconcile_rules(error_count: i64, warning_count: i64)
    ensures
        reconciles(status_of(error_count, warning_count)) <==> error_count <= 0,
        !reconciles("cancelled"@),
        !reconciles("failed"@),
{
    reveal_strlit("completed");
    reveal_strlit("completed_with_warnings");
    reveal_strlit("completed_with_errors");
    reveal_strlit("cancelled");
    reveal_strlit("failed");
    assert("completed_with_errors"@[15] != "completed_with_warnings"@[15]);
    assert("completed_with_errors"@.len() != "completed"@.len());
    assert("completed_with_errors"@ != "completed"@);
    assert("completed_with_errors"@ != "completed_with_warnings"@);
    assert("cancelled"@[1] != "completed"@[1]);
    assert("failed"@[0] != "completed"@[0]);
}

/// The summary of a scan with the given tallies and status.
pub fn scan_summary(c: &ScanCounters, status: &str) -> (s: ScanSummary)
    ensures
        s.files_processed == c.files_processed,
        s.files_indexed == c.files_indexed,
        s.warning_count == c.warning_count,
        s.error_count == c.error_count,
        s.status@ == status@,
{
    ScanSummary {
        files_processed: c.files_processed,
        files_indexed: c.files_indexed,
        warning_count: c.warning_count,
        error_count: c.error_count,
        status: String::from_str(status),
    }
}

} // verus!
