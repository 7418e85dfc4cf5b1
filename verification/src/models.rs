//! Plain records the library and its interface exchange.
use vstd::prelude::*;

verus! {

/// Name and version of the application.
#[derive(Debug)]
pub struct ApplicationInfo {
    pub name: String,
    pub version: String,
    pub build_timestamp: String,
}

/// State of the index database.
#[derive(Debug)]
pub struct DatabaseStatus {
    pub connected: bool,
    pub database_path: String,
    pub migration_version: i64,
}

/// A registered workspace folder.
#[derive(Debug)]
pub struct IndexedFolder {
    pub id: i64,
    pub name: String,
    pub path: String,
    pub added_at: i64,
    pub last_successful_scan_at: Option<i64>,
    pub availability: String,
    pub monitoring_enabled: bool,
    pub scan_status: String,
}

/// A newly registered folder, with a warning about nesting when there is
/// one.
#[derive(Debug)]
pub struct AddFolderResult {
    pub folder: IndexedFolder,
    pub warning: Option<String>,
}

/// One scan of a workspace.
#[derive(Debug)]
pub struct ScanRun {
    pub id: i64,
    pub workspace_id: i64,
    pub status: String,
    pub started_at: i64,
    pub completed_at: Option<i64>,
    pub files_processed: i64,
    pub files_indexed: i64,
    pub warning_count: i64,
    pub error_count: i64,
    pub error_message: Option<String>,
    pub phase: Option<String>,
}

/// The latest scan of a workspace and how many files it indexed.
#[derive(Debug)]
pub struct ScanStatus {
    pub run: ScanRun,
    pub file_count: i64,
}

/// An indexed file.
#[derive(Debug)]
pub struct FileEntry {
    pub id: i64,
    pub workspace_id: i64,
    pub relative_path: String,
    pub name: String,
    pub parent_path: String,
    pub extension: Option<String>,
    pub size_bytes: i64,
    pub created_at: Option<i64>,
    pub modified_at: Option<i64>,
    pub indexed_at: Option<i64>,
    pub last_seen_at: Option<i64>,
    pub fingerprint: Option<String>,
    pub previous_fingerprint: Option<String>,
    pub is_present: bool,
    pub change_status: String,
}

/// Progress of a running scan.
#[derive(Debug)]
pub struct ScanProgressEvent {
    pub run_id: i64,
    pub workspace_id: i64,
    pub status: String,
    pub files_processed: i64,
    pub files_indexed: i64,
    pub warning_count: i64,
    pub error_count: i64,
    pub phase: Option<String>,
}

/// A stored symbol.
#[derive(Debug)]
pub struct SymbolEntry {
    pub id: i64,
    pub workspace_id: i64,
    pub file_id: i64,
    pub name: String,
    pub kind: String,
    pub parent_symbol_id: Option<i64>,
    pub source_line: i64,
    pub source_column: i64,
    pub source_end_line: i64,
    pub source_end_column: i64,
    pub signature: Option<String>,
    pub visibility: String,
    pub is_exported: bool,
    pub relative_path: Option<String>,
}

/// One page of a symbol search.
#[derive(Debug)]
pub struct SymbolSearchResult {
    pub symbols: Vec<SymbolEntry>,
    pub total: i64,
    pub page: i64,
    pub page_size: i64,
}

/// A stored reference.
#[derive(Debug)]
pub struct ReferenceEntry {
    pub id: i64,
    pub caller_symbol_id: Option<i64>,
    pub callee_name: String,
    pub caller_file_id: i64,
    pub resolved_callee_symbol_id: Option<i64>,
    pub reference_type: String,
    pub source_line: i64,
    pub source_column: i64,
}

/// The contents of a source file for the viewer.
#[derive(Debug)]
pub struct SourceFile {
    pub content: String,
    pub language: String,
    pub total_lines: i64,
    pub truncated: bool,
}

/// Git facts about a workspace.
#[derive(Debug)]
pub struct GitInfo {
    pub is_repo: bool,
    pub branch: Option<String>,
    pub status: Option<String>,
    pub commit_count: Option<i64>,
    pub last_commit_short: Option<String>,
    pub last_commit_timestamp: Option<i64>,
    pub last_commit_message: Option<String>,
}

/// Git facts about one file.
#[derive(Debug)]
pub struct GitFileInfo {
    pub last_commit: Option<String>,
    pub change_frequency: i64,
}

/// Per-workspace settings for Git analysis and automatic re-analysis.
#[derive(Debug)]
pub struct WorkspaceSettings {
    pub workspace_id: i64,
    pub git_analysis_enabled: bool,
    pub auto_reanalyze_enabled: bool,
}

/// A structural observation about a workspace, with its evidence.
#[derive(Debug)]
pub struct StructuralFinding {
    pub category: String,
    pub severity: String,
    pub title: String,
    pub description: String,
    pub evidence: Vec<String>,
    pub limitation: String,
    pub investigation: String,
}

} // verus!
