use std::collections::HashSet;

use codecompass::error::AppError;

#[test]
fn codes_are_stable_and_unique() {
    let cases = [
        (AppError::FolderNotFound("x".into()), "folder_not_found"),
        (AppError::NotADirectory("x".into()), "not_a_directory"),
        (AppError::DuplicateFolder("x".into()), "duplicate_folder"),
        (AppError::ScanCancelled, "scan_cancelled"),
        (AppError::ScanAlreadyRunning(1), "scan_already_running"),
        (AppError::InvalidInput("x".into()), "invalid_input"),
        (AppError::PathTraversal("x".into()), "path_traversal"),
        (AppError::FileNotFound("x".into()), "file_not_found"),
    ];
    let mut seen = HashSet::new();
    for (err, expected) in cases {
        assert_eq!(err.code(), expected);
        assert!(seen.insert(expected), "duplicate code {expected}");
    }
}

#[test]
fn user_message_explains_recovery() {
    let err = AppError::FolderNotFound("/missing/path".into());
    let msg = err.user_message();
    assert!(msg.contains("could not be found"), "{msg}");
    assert!(msg.contains("safe"), "should reassure data safety: {msg}");
}

#[test]
fn payload_round_trips_codes_and_messages() {
    let err = AppError::ScanCancelled;
    let p = err.to_payload();
    assert_eq!(p.code, "scan_cancelled");
    assert!(!p.message.is_empty());
    assert_eq!(p.detail, err.detail());
}

#[test]
fn messages_include_numbers_and_paths() {
    let err = AppError::OversizedFile { path: "big.ts".into(), size: 2000000, limit: 1000000 };
    assert_eq!(err.detail(), "File too large to display: 2000000 bytes (limit 1000000 bytes) at big.ts");
    assert!(err.user_message().starts_with("The file big.ts is too large to display (2000000 bytes; limit 1000000)."));
    assert_eq!(AppError::ScanRunNotFound(-4).detail(), "Scan run not found: -4");
    assert_eq!(AppError::Database("locked".into()).detail(), "Database error: locked");
}

#[test]
fn missing_file_payload_says_it_could_not_be_found() {
    let p = AppError::FileNotFound("missing.ts".into()).to_payload();
    assert_eq!(p.code, "file_not_found");
    assert!(p.message.contains("could not be found"), "{}", p.message);
    assert_eq!(p.detail, "File not found: missing.ts");
}
