//! The error type of the library: what failed, with a stable code for the
//! interface to switch on and a message that explains how to recover.
use vstd::prelude::*;
use vstd::string::StringExecFns;

use crate::decimal::{append_i64, append_u64, dec, signed_dec};

verus! {

/// The unified error type for all CodeCompass backend operations.
///
/// Errors raised by the database, migrations and the file system carry the
/// text of the underlying error.
#[derive(Debug)]
pub enum AppError {
    Database(String),
    Migration(String),
    DatabaseLock(String),
    AppDir(String),
    Io(String),
    FolderNotFound(String),
    NotADirectory(String),
    DuplicateFolder(String),
    ScanCancelled,
    ScanAlreadyRunning(i64),
    ScanRunNotFound(i64),
    InvalidInput(String),
    PathTraversal(String),
    AnalysisAlreadyRunning(i64),
    OversizedFile { path: String, size: u64, limit: u64 },
    FileNotFound(String),
}

/// Structured error payload sent to the frontend.
#[derive(Debug)]
pub struct ErrorPayload {
    pub code: &'static str,
    pub message: String,
    pub detail: String,
}

/// The stable code of an error.
pub open spec fn error_code(e: AppError) -> Seq<char> {
    match e {
        AppError::Database(f_0) => "database_error"@,
        AppError::Migration(f_0) => "migration_error"@,
        AppError::DatabaseLock(f_0) => "database_lock"@,
        AppError::AppDir(f_0) => "app_dir"@,
        AppError::Io(f_0) => "io_error"@,
        AppError::FolderNotFound(f_0) => "folder_not_found"@,
        AppError::NotADirectory(f_0) => "not_a_directory"@,
        AppError::DuplicateFolder(f_0) => "duplicate_folder"@,
        AppError::ScanCancelled => "scan_cancelled"@,
        AppError::ScanAlreadyRunning(f_0) => "scan_already_running"@,
        AppError::ScanRunNotFound(f_0) => "scan_run_not_found"@,
        AppError::InvalidInput(f_0) => "invalid_input"@,
        AppError::PathTraversal(f_0) => "path_traversal"@,
        AppError::AnalysisAlreadyRunning(f_0) => "analysis_already_running"@,
        AppError::OversizedFile { path: f_path, size: f_size, limit: f_limit } => "oversized_file"@,
        AppError::FileNotFound(f_0) => "file_not_found"@,
    }
}

/// The user-facing message of an error: what failed, the likely cause, and what to do next.
pub open spec fn error_message(e: AppError) -> Seq<char> {
    match e {
        AppError::Database(f_0) => "A database error occurred: "@ + f_0@ + ".\n\nYour source files are unaffected. Restart CodeCompass and retry. If the problem persists, removing the index database in the app data folder will rebuild it from scratch."@,
        AppError::Migration(f_0) => "The index database could not be upgraded: "@ + f_0@ + ".\n\nYour source files are unaffected. Removing the database file in the app data folder will recreate it on next launch."@,
        AppError::DatabaseLock(f_0) => "The index database is busy: "@ + f_0@ + ".\n\nAnother operation may be in progress. Wait a moment and retry. Your data is not lost."@,
        AppError::AppDir(f_0) => "CodeCompass could not access its application data directory: "@ + f_0@ + ".\n\nCheck that the app data folder is writable and the disk is not full."@,
        AppError::Io(f_0) => "A file system error occurred: "@ + f_0@ + ".\n\nCheck that the folder exists and that you have permission to read it, then retry."@,
        AppError::FolderNotFound(f_0) => "The folder could not be found: "@ + f_0@ + ".\n\nLikely cause: the folder was moved, renamed, or the drive is not mounted.\n\nYour saved index data is safe. Re-add the folder at its new location, or remove the missing workspace from the list."@,
        AppError::NotADirectory(f_0) => "The selected path is a file, not a folder: "@ + f_0@ + ".\n\nChoose a directory that contains your source code."@,
        AppError::DuplicateFolder(f_0) => "This folder is already in your workspace list: "@ + f_0@ + ".\n\nSelect the existing entry to scan or analyze it again."@,
        AppError::ScanCancelled => "The scan was cancelled. Files indexed before cancellation are preserved; deleted files are not reconciled until a full scan completes."@,
        AppError::ScanAlreadyRunning(f_0) => "A scan is already running for workspace "@ + signed_dec(f_0 as int) + ".\n\nWait for it to finish, or cancel it before starting a new one."@,
        AppError::ScanRunNotFound(f_0) => "Scan run "@ + signed_dec(f_0 as int) + " was not found. It may have been cleaned up. Start a new scan to refresh the index."@,
        AppError::InvalidInput(f_0) => "Invalid input: "@ + f_0@ + ".\n\nPlease check the value and try again."@,
        AppError::PathTraversal(f_0) => "A path was rejected because it escapes the workspace root: "@ + f_0@ + ".\n\nThis is a safety check. Choose a path inside the workspace."@,
        AppError::AnalysisAlreadyRunning(f_0) => "Analysis is already running for workspace "@ + signed_dec(f_0 as int) + ".\n\nWait for it to finish, or cancel it before restarting."@,
        AppError::OversizedFile { path: f_path, size: f_size, limit: f_limit } => "The file "@ + f_path@ + " is too large to display ("@ + dec(f_size as nat) + " bytes; limit "@ + dec(f_limit as nat) + ").\n\nCodeCompass shows the first "@ + dec(f_limit as nat) + " bytes for performance. Open the file in a dedicated editor to view the full contents."@,
        AppError::FileNotFound(f_0) => "The file could not be found: "@ + f_0@ + ".\n\nIt may have been moved, renamed or deleted since the last scan. Rescan the workspace to refresh the index."@,
    }
}

/// The technical description of an error.
pub open spec fn error_detail(e: AppError) -> Seq<char> {
    match e {
        AppError::Database(f_0) => "Database error: "@ + f_0@,
        AppError::Migration(f_0) => "Migration error: "@ + f_0@,
        AppError::DatabaseLock(f_0) => "Database lock error: "@ + f_0@,
        AppError::AppDir(f_0) => "Application directory error: "@ + f_0@,
        AppError::Io(f_0) => "I/O error: "@ + f_0@,
        AppError::FolderNotFound(f_0) => "Folder not found: "@ + f_0@,
        AppError::NotADirectory(f_0) => "Path is not a directory: "@ + f_0@,
        AppError::DuplicateFolder(f_0) => "Folder already indexed: "@ + f_0@,
        AppError::ScanCancelled => "Scan cancelled"@,
        AppError::ScanAlreadyRunning(f_0) => "Scan already running for folder "@ + signed_dec(f_0 as int),
        AppError::ScanRunNotFound(f_0) => "Scan run not found: "@ + signed_dec(f_0 as int),
        AppError::InvalidInput(f_0) => "Invalid input: "@ + f_0@,
        AppError::PathTraversal(f_0) => "Path traversal detected: "@ + f_0@,
        AppError::AnalysisAlreadyRunning(f_0) => "Analysis already running for workspace "@ + signed_dec(f_0 as int),
        AppError::OversizedFile { path: f_path, size: f_size, limit: f_limit } => "File too large to display: "@ + dec(f_size as nat) + " bytes (limit "@ + dec(f_limit as nat) + " bytes) at "@ + f_path@,
        AppError::FileNotFound(f_0) => "File not found: "@ + f_0@,
    }
}

/// Position of the error's variant in the declaration.
pub open spec fn variant_index(e: AppError) -> int {
    match e {
        AppError::Database(..) => 0,
        AppError::Migration(..) => 1,
        AppError::DatabaseLock(..) => 2,
        AppError::AppDir(..) => 3,
        AppError::Io(..) => 4,
        AppError::FolderNotFound(..) => 5,
        AppError::NotADirectory(..) => 6,
        AppError::DuplicateFolder(..) => 7,
        AppError::ScanCancelled => 8,
        AppError::ScanAlreadyRunning(..) => 9,
        AppError::ScanRunNotFound(..) => 10,
        AppError::InvalidInput(..) => 11,
        AppError::PathTraversal(..) => 12,
        AppError::AnalysisAlreadyRunning(..) => 13,
        AppError::OversizedFile { .. } => 14,
        AppError::FileNotFound(..) => 15,
    }
}

/// Codes are unique: errors of different variants never share a code.
#[verifier::rlimit(50)]
pub proof fn lemma_codes_unique(a: AppError, b: AppError)
    requires
        variant_index(a) != variant_index(b),
    ensures
        error_code(a) != error_code(b),
{
    let ka = (error_code(a).len(), error_code(a)[0]);
    let kb = (error_code(b).len(), error_code(b)[0]);
    reveal_strlit("database_error");
    assert("database_error"@.len() == 14 && "database_error"@[0] == 'd');
    reveal_strlit("migration_error");
    assert("migration_error"@.len() == 15 && "migration_error"@[0] == 'm');
    reveal_strlit("database_lock");
    assert("database_lock"@.len() == 13 && "database_lock"@[0] == 'd');
    reveal_strlit("app_dir");
    assert("app_dir"@.len() == 7 && "app_dir"@[0] == 'a');
    reveal_strlit("io_error");
    assert("io_error"@.len() == 8 && "io_error"@[0] == 'i');
    reveal_strlit("folder_not_found");
    assert("folder_not_found"@.len() == 16 && "folder_not_found"@[0] == 'f');
    reveal_strlit("not_a_directory");
    assert("not_a_directory"@.len() == 15 && "not_a_directory"@[0] == 'n');
    reveal_strlit("duplicate_folder");
    assert("duplicate_folder"@.len() == 16 && "duplicate_folder"@[0] == 'd');
    reveal_strlit("scan_cancelled");
    assert("scan_cancelled"@.len() == 14 && "scan_cancelled"@[0] == 's');
    reveal_strlit("scan_already_running");
    assert("scan_already_running"@.len() == 20 && "scan_already_running"@[0] == 's');
    reveal_strlit("scan_run_not_found");
    assert("scan_run_not_found"@.len() == 18 && "scan_run_not_found"@[0] == 's');
    reveal_strlit("invalid_input");
    assert("invalid_input"@.len() == 13 && "invalid_input"@[0] == 'i');
    reveal_strlit("path_traversal");
    assert("path_traversal"@.len() == 14 && "path_traversal"@[0] == 'p');
    reveal_strlit("analysis_already_running");
    assert("analysis_already_running"@.len() == 24 && "analysis_already_running"@[0] == 'a');
    reveal_strlit("oversized_file");
    assert("oversized_file"@.len() == 14 && "oversized_file"@[0] == 'o');
    reveal_strlit("file_not_found");
    assert("file_not_found"@.len() == 14 && "file_not_found"@[0] == 'f');
    assert(ka != kb);
}

impl AppError {
    /// A short code identifying the error category; the frontend can
    /// switch on it to render tailored recovery UI.
    pub fn code(&self) -> (c: &'static str)
        ensures
            c@ == error_code(*self),
    {
        match self {
            AppError::Database(_f_0) => "database_error",
            AppError::Migration(_f_0) => "migration_error",
            AppError::DatabaseLock(_f_0) => "database_lock",
            AppError::AppDir(_f_0) => "app_dir",
            AppError::Io(_f_0) => "io_error",
            AppError::FolderNotFound(_f_0) => "folder_not_found",
            AppError::NotADirectory(_f_0) => "not_a_directory",
            AppError::DuplicateFolder(_f_0) => "duplicate_folder",
            AppError::ScanCancelled => "scan_cancelled",
            AppError::ScanAlreadyRunning(_f_0) => "scan_already_running",
            AppError::ScanRunNotFound(_f_0) => "scan_run_not_found",
            AppError::InvalidInput(_f_0) => "invalid_input",
            AppError::PathTraversal(_f_0) => "path_traversal",
            AppError::AnalysisAlreadyRunning(_f_0) => "analysis_already_running",
            AppError::OversizedFile { path: _f_path, size: _f_size, limit: _f_limit } => "oversized_file",
            AppError::FileNotFound(_f_0) => "file_not_found",
        }
    }

    /// A user-facing, actionable message: what failed, the likely cause, and
    /// the next step the user can try.
    pub fn user_message(&self) -> (m: String)
        ensures
            m@ == error_message(*self),
    {
        match self {
            AppError::Database(f_0) => {
                let mut s = String::from_str("A database error occurred: ");
                s.append(f_0.as_str());
                s.append(".\n\nYour source files are unaffected. Restart CodeCompass and retry. If the problem persists, removing the index database in the app data folder will rebuild it from scratch.");
                s
            },
            AppError::Migration(f_0) => {
                let mut s = String::from_str("The index database could not be upgraded: ");
                s.append(f_0.as_str());
                s.append(".\n\nYour source files are unaffected. Removing the database file in the app data folder will recreate it on next launch.");
                s
            },
            AppError::DatabaseLock(f_0) => {
                let mut s = String::from_str("The index database is busy: ");
                s.append(f_0.as_str());
                s.append(".\n\nAnother operation may be in progress. Wait a moment and retry. Your data is not lost.");
                s
            },
            AppError::AppDir(f_0) => {
                let mut s = String::from_str("CodeCompass could not access its application data directory: ");
                s.append(f_0.as_str());
                s.append(".\n\nCheck that the app data folder is writable and the disk is not full.");
                s
            },
            AppError::Io(f_0) => {
                let mut s = String::from_str("A file system error occurred: ");
                s.append(f_0.as_str());
                s.append(".\n\nCheck that the folder exists and that you have permission to read it, then retry.");
                s
            },
            AppError::FolderNotFound(f_0) => {
                let mut s = String::from_str("The folder could not be found: ");
                s.append(f_0.as_str());
                s.append(".\n\nLikely cause: the folder was moved, renamed, or the drive is not mounted.\n\nYour saved index data is safe. Re-add the folder at its new location, or remove the missing workspace from the list.");
                s
            },
            AppError::NotADirectory(f_0) => {
                let mut s = String::from_str("The selected path is a file, not a folder: ");
                s.append(f_0.as_str());
                s.append(".\n\nChoose a directory that contains your source code.");
                s
            },
            AppError::DuplicateFolder(f_0) => {
                let mut s = String::from_str("This folder is already in your workspace list: ");
                s.append(f_0.as_str());
                s.append(".\n\nSelect the existing entry to scan or analyze it again.");
                s
            },
            AppError::ScanCancelled => {
                let mut s = String::from_str("The scan was cancelled. Files indexed before cancellation are preserved; deleted files are not reconciled until a full scan completes.");
                s
            },
            AppError::ScanAlreadyRunning(f_0) => {
                let mut s = String::from_str("A scan is already running for workspace ");
                append_i64(&mut s, *f_0);
                s.append(".\n\nWait for it to finish, or cancel it before starting a new one.");
                s
            },
            AppError::ScanRunNotFound(f_0) => {
                let mut s = String::from_str("Scan run ");
                append_i64(&mut s, *f_0);
                s.append(" was not found. It may have been cleaned up. Start a new scan to refresh the index.");
                s
            },
            AppError::InvalidInput(f_0) => {
                let mut s = String::from_str("Invalid input: ");
                s.append(f_0.as_str());
                s.append(".\n\nPlease check the value and try again.");
                s
            },
            AppError::PathTraversal(f_0) => {
                let mut s = String::from_str("A path was rejected because it escapes the workspace root: ");
                s.append(f_0.as_str());
                s.append(".\n\nThis is a safety check. Choose a path inside the workspace.");
                s
            },
            AppError::AnalysisAlreadyRunning(f_0) => {
                let mut s = String::from_str("Analysis is already running for workspace ");
                append_i64(&mut s, *f_0);
                s.append(".\n\nWait for it to finish, or cancel it before restarting.");
                s
            },
            AppError::OversizedFile { path: f_path, size: f_size, limit: f_limit } => {
                let mut s = String::from_str("The file ");
                s.append(f_path.as_str());
                s.append(" is too large to display (");
                append_u64(&mut s, *f_size);
                s.append(" bytes; limit ");
                append_u64(&mut s, *f_limit);
                s.append(").\n\nCodeCompass shows the first ");
                append_u64(&mut s, *f_limit);
                s.append(" bytes for performance. Open the file in a dedicated editor to view the full contents.");
                s
            },
            AppError::FileNotFound(f_0) => {
                let mut s = String::from_str("The file could not be found: ");
                s.append(f_0.as_str());
                s.append(".\n\nIt may have been moved, renamed or deleted since the last scan. Rescan the workspace to refresh the index.");
                s
            },
        }
    }

    /// The technical message, as the error's display text reads.
    pub fn detail(&self) -> (m: String)
        ensures
            m@ == error_detail(*self),
    {
        match self {
            AppError::Database(f_0) => {
                let mut s = String::from_str("Database error: ");
                s.append(f_0.as_str());
                s
            },
            AppError::Migration(f_0) => {
                let mut s = String::from_str("Migration error: ");
                s.append(f_0.as_str());
                s
            },
            AppError::DatabaseLock(f_0) => {
                let mut s = String::from_str("Database lock error: ");
                s.append(f_0.as_str());
                s
            },
            AppError::AppDir(f_0) => {
                let mut s = String::from_str("Application directory error: ");
                s.append(f_0.as_str());
                s
            },
            AppError::Io(f_0) => {
                let mut s = String::from_str("I/O error: ");
                s.append(f_0.as_str());
                s
            },
            AppError::FolderNotFound(f_0) => {
                let mut s = String::from_str("Folder not found: ");
                s.append(f_0.as_str());
                s
            },
            AppError::NotADirectory(f_0) => {
                let mut s = String::from_str("Path is not a directory: ");
                s.append(f_0.as_str());
                s
            },
            AppError::DuplicateFolder(f_0) => {
                let mut s = String::from_str("Folder already indexed: ");
                s.append(f_0.as_str());
                s
            },
            AppError::ScanCancelled => {
                let mut s = String::from_str("Scan cancelled");
                s
            },
            AppError::ScanAlreadyRunning(f_0) => {
                let mut s = String::from_str("Scan already running for folder ");
                append_i64(&mut s, *f_0);
                s
            },
            AppError::ScanRunNotFound(f_0) => {
                let mut s = String::from_str("Scan run not found: ");
                append_i64(&mut s, *f_0);
                s
            },
            AppError::InvalidInput(f_0) => {
                let mut s = String::from_str("Invalid input: ");
                s.append(f_0.as_str());
                s
            },
            AppError::PathTraversal(f_0) => {
                let mut s = String::from_str("Path traversal detected: ");
                s.append(f_0.as_str());
                s
            },
            AppError::AnalysisAlreadyRunning(f_0) => {
                let mut s = String::from_str("Analysis already running for workspace ");
                append_i64(&mut s, *f_0);
                s
            },
            AppError::OversizedFile { path: f_path, size: f_size, limit: f_limit } => {
                let mut s = String::from_str("File too large to display: ");
                append_u64(&mut s, *f_size);
                s.append(" bytes (limit ");
                append_u64(&mut s, *f_limit);
                s.append(" bytes) at ");
                s.append(f_path.as_str());
                s
            },
            AppError::FileNotFound(f_0) => {
                let mut s = String::from_str("File not found: ");
                s.append(f_0.as_str());
                s
            },
        }
    }

    /// The payload combining the stable code, the user-facing guidance and
    /// the technical message.
    pub fn to_payload(&self) -> (p: ErrorPayload)
        ensures
            p.code@ == error_code(*self),
            p.message@ == error_message(*self),
            p.detail@ == error_detail(*self),
    {
        ErrorPayload { code: self.code(), message: self.user_message(), detail: self.detail() }
    }
}

} // verus!
