use codecompass::evolution::{epoch_to_month, evolution_report, CoChangePair};

#[test]
fn epoch_to_month_conversion() {
    assert_eq!(epoch_to_month(1767225600), "2026-01");
    assert_eq!(epoch_to_month(0), "unknown");
}

#[test]
fn epoch_to_month_pads_and_handles_negatives() {
    assert_eq!(epoch_to_month(1), "1970-01");
    assert_eq!(epoch_to_month(-5), "unknown");
    assert_eq!(epoch_to_month(2629800 * 13), "1971-02");
}

fn change(h: &str, p: &str, ts: i64) -> (String, String, i64) {
    (h.to_string(), p.to_string(), ts)
}

#[test]
fn empty_report_has_no_data() {
    let r = evolution_report(&vec![], vec![]);
    assert_eq!(r.summary.total_commits, 0);
    assert_eq!(r.summary.total_file_changes, 0);
    assert_eq!(r.summary.most_active_month, "unknown");
    assert_eq!(r.summary.oldest_commit_ts, 0);
    assert_eq!(r.summary.newest_commit_ts, 0);
    assert!(r.timeline.is_empty());
    assert!(r.top_churn_files.is_empty());
}

#[test]
fn report_counts_commits_files_and_months() {
    let ts_jan = 1767225600;
    let ts_feb = 1769904000;
    let hash_a = "abc1234567890123456789012345678901234567";
    let hash_b = "def6789012345678901234567890123456789012";
    let rows = vec![
        change(hash_a, "a.ts", ts_jan),
        change(hash_a, "b.ts", ts_jan),
        change(hash_b, "a.ts", ts_feb),
        change(hash_b, "c.ts", ts_feb),
    ];
    let hot = vec![CoChangePair { file_a: "a.ts".to_string(), file_b: "b.ts".to_string(), together_count: 1 }];
    let r = evolution_report(&rows, hot);
    assert_eq!(r.summary.total_commits, 2);
    assert_eq!(r.summary.total_files_changed, 3);
    assert_eq!(r.summary.total_file_changes, 4);
    assert_eq!(r.summary.oldest_commit_ts, ts_jan);
    assert_eq!(r.summary.newest_commit_ts, ts_feb);
    assert_eq!(r.timeline.len(), 2);
    assert_eq!(r.timeline[0].month, epoch_to_month(ts_jan));
    assert_eq!(r.timeline[0].commit_count, 1);
    assert_eq!(r.timeline[0].file_changes, 2);
    assert!(r.timeline[0].month < r.timeline[1].month);
    let a = r.top_churn_files.iter().find(|f| f.relative_path == "a.ts").unwrap();
    assert_eq!(a.change_count, 2);
    assert_eq!(r.top_churn_files[0].relative_path, "a.ts");
    assert_eq!(r.top_hotspots.len(), 1);
}

#[test]
fn undated_changes_count_but_have_no_month() {
    let rows = vec![change("h1", "x.ts", 0), change("h2", "y.ts", -3)];
    let r = evolution_report(&rows, vec![]);
    assert_eq!(r.summary.total_commits, 0);
    assert_eq!(r.summary.total_file_changes, 2);
    assert_eq!(r.summary.total_files_changed, 2);
    assert_eq!(r.summary.newest_commit_ts, 0);
    assert!(r.timeline.is_empty());
    assert_eq!(r.summary.most_active_month, "unknown");
}

#[test]
fn churn_is_capped_at_twenty() {
    let mut rows = Vec::new();
    for i in 0..25 {
        for _ in 0..(i % 4 + 1) {
            rows.push(change("h", &format!("f{i}.ts"), 100));
        }
    }
    let r = evolution_report(&rows, vec![]);
    assert_eq!(r.top_churn_files.len(), 20);
    for w in r.top_churn_files.windows(2) {
        assert!(w[0].change_count >= w[1].change_count);
    }
    assert_eq!(r.top_churn_files[0].change_count, 4);
}

#[test]
fn timeline_counts_each_dated_change_once() {
    let rows = vec![
        change("h1", "a.ts", 1767225600),
        change("h1", "b.ts", 1767225600),
        change("h2", "a.ts", 1769904000),
        change("h3", "c.ts", 0),
        change("h4", "d.ts", 1700000000),
    ];
    let r = evolution_report(&rows, vec![]);
    let total: i64 = r.timeline.iter().map(|p| p.file_changes).sum();
    assert_eq!(total, 4);
    assert_eq!(r.timeline.len(), 3);
    assert_eq!(r.summary.total_file_changes, 5);
}
