use codecompass::git::{commit_count, commit_log, last_commit_timestamp, recent_file_changes, working_tree_status};

const H1: &str = "aaaaaaaaaaaaaaaaaaaaaaaaaaaaaaaaaaaaaaaa";
const H2: &str = "0123456789abcdef0123456789abcdef01234567";

#[test]
fn working_tree_status_reads_porcelain_output() {
    assert_eq!(working_tree_status(Some(String::new())), Some("clean".to_string()));
    assert_eq!(working_tree_status(Some(" M a.ts".to_string())), Some("dirty".to_string()));
    assert_eq!(working_tree_status(None), None);
}

#[test]
fn numbers_parse_like_i64() {
    assert_eq!(commit_count(Some("42".to_string())), Some(42));
    assert_eq!(commit_count(Some("x".to_string())), None);
    assert_eq!(commit_count(Some("".to_string())), None);
    assert_eq!(last_commit_timestamp(Some("-7".to_string())), Some(-7));
    assert_eq!(last_commit_timestamp(Some("+3".to_string())), Some(3));
    assert_eq!(commit_count(Some("9223372036854775807".to_string())), Some(i64::MAX));
    assert_eq!(commit_count(Some("-9223372036854775808".to_string())), Some(i64::MIN));
    assert_eq!(commit_count(Some("9223372036854775808".to_string())), None);
    assert_eq!(commit_count(Some("99999999999999999999999".to_string())), None);
    assert_eq!(commit_count(None), None);
}

#[test]
fn recent_changes_follow_their_commit_headers() {
    let out = format!("src/orphan.ts\n{H1} 1700000000\n\nsrc/a.ts\n  src/b.ts  \n{H2} 1700000100\nMerge: abc def\nc.ts");
    let r = recent_file_changes(Some(out));
    assert_eq!(r.len(), 3);
    assert_eq!(r[0], (H1.to_string(), 1700000000, "src/a.ts".to_string()));
    assert_eq!(r[1].2, "src/b.ts");
    assert_eq!(r[2], (H2.to_string(), 1700000100, "c.ts".to_string()));
    assert!(recent_file_changes(None).is_empty());
}

#[test]
fn recent_changes_are_capped() {
    let mut out = format!("{H1} 5\n");
    for i in 0..1200 {
        out.push_str(&format!("f{i}.ts\n"));
    }
    assert_eq!(recent_file_changes(Some(out)).len(), 1000);
}

#[test]
fn commit_log_reads_hash_time_and_subject() {
    let out = format!("{H1} 1700 first message\n{H2} 1800\nnot a header");
    let r = commit_log(Some(out.clone()), 10);
    assert_eq!(r.len(), 2);
    assert_eq!(r[0], (H1.to_string(), 1700, "first message".to_string()));
    assert_eq!(r[1], (H2.to_string(), 1800, String::new()));
    assert_eq!(commit_log(Some(out.clone()), 1).len(), 1);
    assert!(commit_log(Some(out), 0).is_empty());
    assert!(commit_log(None, 5).is_empty());
}
