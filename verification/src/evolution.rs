//! Repository evolution: monthly commit timeline, churn per file and
//! summary figures, computed from the file changes recorded from Git.
use vstd::prelude::*;
use vstd::string::StringExecFns;

use crate::decimal::{append_padded, dec, zero_pad};
use crate::text::{holds_text, insert_sorted, lemma_text_lt_total, strictly_sorted, text_eq, text_lt};

verus! {

/// A single point on the commit timeline (monthly bucket).
#[derive(Debug)]
pub struct TimelinePoint {
    pub month: String,
    pub commit_count: i64,
    pub file_changes: i64,
}

/// A file with its change frequency from git history.
#[derive(Debug)]
pub struct FileChurn {
    pub relative_path: String,
    pub change_count: i64,
}

/// Aggregate evolution statistics for the workspace.
#[derive(Debug)]
pub struct EvolutionSummary {
    pub total_commits: i64,
    pub total_files_changed: i64,
    pub total_file_changes: i64,
    pub most_active_month: String,
    pub oldest_commit_ts: i64,
    pub newest_commit_ts: i64,
}

/// Hotspot: two files that changed together, and how often.
#[derive(Debug)]
pub struct CoChangePair {
    pub file_a: String,
    pub file_b: String,
    pub together_count: i64,
}

/// Complete repository evolution data.
#[derive(Debug)]
pub struct RepositoryEvolution {
    pub summary: EvolutionSummary,
    pub timeline: Vec<TimelinePoint>,
    pub top_churn_files: Vec<FileChurn>,
    pub top_hotspots: Vec<CoChangePair>,
}

/// A recorded file change: commit hash, relative path, commit timestamp
/// (seconds since the epoch; 0 or less when unknown).
pub type GitChange = (String, String, i64);

/// Seconds in an average month (30.44 days).
pub const SECONDS_PER_MONTH: i64 = 2629800;

/// At most this many files are listed by churn.
pub const MAX_CHURN_FILES: usize = 20;

/// The month bucket of a timestamp, `YYYY-MM`, counting average-length
/// months from January 1970; "unknown" for timestamps of 0 or less.
pub open spec fn month_label(epoch: i64) -> Seq<char> {
    if epoch <= 0 {
        "unknown"@
    } else {
        let m = epoch / SECONDS_PER_MONTH;
        zero_pad(dec((1970 + m / 12) as nat), 4) + seq!['-'] + zero_pad(dec((m % 12 + 1) as nat), 2)
    }
}

/// The month bucket of a timestamp.
pub fn epoch_to_month(epoch: i64) -> (s: String)
    ensures
        s@ == month_label(epoch),
{
    if epoch <= 0 {
        return String::from_str("unknown");
    }
    let m = epoch / SECONDS_PER_MONTH;
    let year = 1970 + m / 12;
    let month = m % 12 + 1;
    let mut s = String::new();
    append_padded(&mut s, year as u64, 4);
    s.append("-");
    append_padded(&mut s, month as u64, 2);
    proof {
        reveal_strlit("-");
        assert(s@ =~= month_label(epoch));
    }
    s
}

/// Number of distinct values in `s`.
pub open spec fn distinct_count<A>(s: Seq<A>) -> nat
    decreases s.len(),
{
    if s.len() == 0 {
        0
    } else {
        distinct_count(s.drop_last()) + if s.drop_last().contains(s.last()) {
            0nat
        } else {
            1nat
        }
    }
}

/// Hashes of the changes with a known timestamp.
pub open spec fn dated_hashes(rows: Seq<GitChange>) -> Seq<Seq<char>>
    decreases rows.len(),
{
    if rows.len() == 0 {
        Seq::empty()
    } else {
        let pre = dated_hashes(rows.drop_last());
        if rows.last().2 > 0 {
            pre.push(rows.last().0@)
        } else {
            pre
        }
    }
}

/// Paths of all changes.
pub open spec fn change_paths(rows: Seq<GitChange>) -> Seq<Seq<char>> {
    Seq::new(rows.len(), |i: int| rows[i].1@)
}

/// The (hash, timestamp) commits of the dated changes in month `label`.
pub open spec fn month_commits(rows: Seq<GitChange>, label: Seq<char>) -> Seq<(Seq<char>, i64)>
    decreases rows.len(),
{
    if rows.len() == 0 {
        Seq::empty()
    } else {
        let pre = month_commits(rows.drop_last(), label);
        let r = rows.last();
        if r.2 > 0 && month_label(r.2) == label {
            pre.push((r.0@, r.2))
        } else {
            pre
        }
    }
}

/// Number of dated changes in month `label`.
pub open spec fn month_changes(rows: Seq<GitChange>, label: Seq<char>) -> nat
    decreases rows.len(),
{
    if rows.len() == 0 {
        0
    } else {
        month_changes(rows.drop_last(), label) + if rows.last().2 > 0 && month_label(rows.last().2) == label {
            1nat
        } else {
            0nat
        }
    }
}

/// Number of changes to `path`.
pub open spec fn path_changes(rows: Seq<GitChange>, path: Seq<char>) -> nat
    decreases rows.len(),
{
    if rows.len() == 0 {
        0
    } else {
        path_changes(rows.drop_last(), path) + if rows.last().1@ == path {
            1nat
        } else {
            0nat
        }
    }
}

/// The earliest known timestamp, 0 when none is known.
pub open spec fn oldest(rows: Seq<GitChange>) -> i64
    decreases rows.len(),
{
    if rows.len() == 0 {
        0
    } else {
        let o = oldest(rows.drop_last());
        let t = rows.last().2;
        if t <= 0 {
            o
        } else if o == 0 || t < o {
            t
        } else {
            o
        }
    }
}

/// The latest timestamp of all changes, 0 when there are none.
pub open spec fn newest(rows: Seq<GitChange>) -> i64
    decreases rows.len(),
{
    if rows.len() == 0 {
        0
    } else {
        let n = newest(rows.drop_last());
        if rows.len() == 1 || rows.last().2 > n {
            rows.last().2
        } else {
            n
        }
    }
}

/// Some dated change falls in month `label`.
pub open spec fn has_month(rows: Seq<GitChange>, label: Seq<char>) -> bool {
    exists|i: int| 0 <= i < rows.len() && rows[i].2 > 0 && #[trigger] month_label(rows[i].2) == label
}

/// Some change touches `path`.
pub open spec fn has_path(rows: Seq<GitChange>, path: Seq<char>) -> bool {
    exists|i: int| 0 <= i < rows.len() && (#[trigger] rows[i]).1@ == path
}

/// The timeline lists each month with dated changes once, in ascending
/// order, with its distinct commits and its changes.
pub open spec fn timeline_ok(rows: Seq<GitChange>, t: Seq<TimelinePoint>) -> bool {
    &&& forall|i: int, j: int| 0 <= i < j < t.len() ==> text_lt(t[i].month@, t[j].month@)
    &&& forall|l: Seq<char>| #[trigger] has_month(rows, l) <==> exists|i: int| 0 <= i < t.len() && t[i].month@ == l
    &&& forall|i: int|
        0 <= i < t.len() ==> (#[trigger] t[i]).file_changes == month_changes(rows, t[i].month@)
            && t[i].commit_count == distinct_count(month_commits(rows, t[i].month@))
}

/// The most active month: one with the most dated changes, "unknown"
/// without any.
pub open spec fn most_active_ok(t: Seq<TimelinePoint>, m: Seq<char>) -> bool {
    if t.len() == 0 {
        m == "unknown"@
    } else {
        exists|k: int|
            0 <= k < t.len() && t[k].month@ == m && forall|j: int|
                0 <= j < t.len() ==> (#[trigger] t[j]).file_changes <= t[k].file_changes
    }
}

/// The most changed files: at most `MAX_CHURN_FILES`, each once, with
/// their change counts, most changed first; none left out changed more
/// often than one listed, and none left out at all below the limit.
pub open spec fn churn_ok(rows: Seq<GitChange>, c: Seq<FileChurn>) -> bool {
    &&& c.len() <= MAX_CHURN_FILES
    &&& forall|i: int, j: int| 0 <= i < j < c.len() ==> c[i].relative_path@ != c[j].relative_path@
    &&& forall|i: int|
        0 <= i < c.len() ==> has_path(rows, (#[trigger] c[i]).relative_path@) && c[i].change_count
            == path_changes(rows, c[i].relative_path@)
    &&& forall|i: int, j: int| 0 <= i < j < c.len() ==> c[j].change_count <= c[i].change_count
    &&& forall|p: Seq<char>|
        #[trigger] has_path(rows, p) && !(exists|i: int| 0 <= i < c.len() && c[i].relative_path@ == p) ==> {
            &&& c.len() == MAX_CHURN_FILES
            &&& forall|i: int| 0 <= i < c.len() ==> path_changes(rows, p) <= (#[trigger] c[i]).change_count
        }
}

/// Everything the evolution report promises about its rows.
pub open spec fn evolution_ok(rows: Seq<GitChange>, r: RepositoryEvolution) -> bool {
    &&& r.summary.total_commits == distinct_count(dated_hashes(rows))
    &&& r.summary.total_files_changed == distinct_count(change_paths(rows))
    &&& r.summary.total_file_changes == rows.len()
    &&& r.summary.oldest_commit_ts == oldest(rows)
    &&& r.summary.newest_commit_ts == newest(rows)
    &&& timeline_ok(rows, r.timeline@)
    &&& most_active_ok(r.timeline@, r.summary.most_active_month@)
    &&& churn_ok(rows, r.top_churn_files@)
}

proof fn lemma_distinct_count_bound<A>(s: Seq<A>)
    ensures
        distinct_count(s) <= s.len(),
    decreases s.len(),
{
    if s.len() > 0 {
        lemma_distinct_count_bound(s.drop_last());
    }
}

proof fn lemma_dated_hashes_len(rows: Seq<GitChange>)
    ensures
        dated_hashes(rows).len() <= rows.len(),
    decreases rows.len(),
{
    if rows.len() > 0 {
        lemma_dated_hashes_len(rows.drop_last());
    }
}

proof fn lemma_month_commits_len(rows: Seq<GitChange>, l: Seq<char>)
    ensures
        month_commits(rows, l).len() <= rows.len(),
        month_changes(rows, l) <= rows.len(),
    decreases rows.len(),
{
    if rows.len() > 0 {
        lemma_month_commits_len(rows.drop_last(), l);
    }
}

proof fn lemma_path_changes_len(rows: Seq<GitChange>, p: Seq<char>)
    ensures
        path_changes(rows, p) <= rows.len(),
    decreases rows.len(),
{
    if rows.len() > 0 {
        lemma_path_changes_len(rows.drop_last(), p);
    }
}

/// Whether the text `x` is among `seen`.
fn has_string(seen: &Vec<String>, x: &String) -> (r: bool)
    ensures
        r == exists|i: int| 0 <= i < seen@.len() && (#[trigger] seen@[i])@ == x@,
{
    let mut i: usize = 0;
    while i < seen.len()
        invariant
            i <= seen.len(),
            forall|k: int| 0 <= k < i ==> (#[trigger] seen@[k])@ != x@,
        decreases seen.len() - i,
    {
        if text_eq(seen[i].as_str(), x.as_str()) {
            return true;
        }
        i = i + 1;
    }
    false
}

/// Whether the commit `(h, t)` is among `seen`.
fn has_commit(seen: &Vec<(String, i64)>, h: &String, t: i64) -> (r: bool)
    ensures
        r == exists|i: int| 0 <= i < seen@.len() && (#[trigger] seen@[i]).0@ == h@ && seen@[i].1 == t,
{
    let mut i: usize = 0;
    while i < seen.len()
        invariant
            i <= seen.len(),
            forall|k: int| 0 <= k < i ==> !((#[trigger] seen@[k]).0@ == h@ && seen@[k].1 == t),
        decreases seen.len() - i,
    {
        if seen[i].1 == t && text_eq(seen[i].0.as_str(), h.as_str()) {
            return true;
        }
        i = i + 1;
    }
    false
}

/// The views of a list of strings.
pub open spec fn texts(s: Seq<String>) -> Seq<Seq<char>> {
    Seq::new(s.len(), |i: int| s[i]@)
}

/// Number of distinct commit hashes among the dated changes.
fn count_dated_commits(rows: &Vec<GitChange>) -> (n: usize)
    ensures
        n == distinct_count(dated_hashes(rows@)),
{
    let mut seen: Vec<String> = Vec::new();
    let mut i: usize = 0;
    while i < rows.len()
        invariant
            i <= rows.len(),
            seen.len() == distinct_count(dated_hashes(rows@.take(i as int))),
            forall|x: Seq<char>|
                #![trigger texts(seen@).contains(x)]
                #![trigger dated_hashes(rows@.take(i as int)).contains(x)]
                texts(seen@).contains(x) <==> dated_hashes(rows@.take(i as int)).contains(x),
        decreases rows.len() - i,
    {
        proof {
            assert(rows@.take(i + 1).drop_last() =~= rows@.take(i as int));
        }
        let ghost pre = dated_hashes(rows@.take(i as int));
        if rows[i].2 > 0 {
            let h = &rows[i].0;
            let found = has_string(&seen, h);
            proof {
                assert(found == texts(seen@).contains(h@)) by {
                    if found {
                        let k = choose|k: int| 0 <= k < seen@.len() && (#[trigger] seen@[k])@ == h@;
                        assert(texts(seen@)[k] == h@);
                    }
                    if texts(seen@).contains(h@) {
                        let k = choose|k: int| 0 <= k < texts(seen@).len() && texts(seen@)[k] == h@;
                        assert(seen@[k]@ == h@);
                    }
                }
                assert(dated_hashes(rows@.take(i + 1)) == pre.push(h@));
                assert(pre.push(h@).drop_last() =~= pre);
            }
            let ghost tv = texts(seen@);
            if !found {
                seen.push(h.clone());
                proof {
                    assert(texts(seen@) =~= tv.push(h@));
                    assert forall|x: Seq<char>| texts(seen@).contains(x) <==> (tv.contains(x) || x == h@) by {
                        if texts(seen@).contains(x) && x != h@ {
                            let k = choose|k: int| 0 <= k < texts(seen@).len() && texts(seen@)[k] == x;
                            assert(tv[k] == x);
                        }
                        if tv.contains(x) {
                            let k = choose|k: int| 0 <= k < tv.len() && tv[k] == x;
                            assert(texts(seen@)[k] == x);
                        }
                        if x == h@ {
                            assert(texts(seen@)[tv.len() as int] == x);
                        }
                    }
                }
            }
            proof {
                assert(forall|x: Seq<char>| texts(seen@).contains(x) <==> (tv.contains(x) || x == h@));
                let post = pre.push(h@);
                assert forall|x: Seq<char>| texts(seen@).contains(x) <==> post.contains(x) by {
                    if post.contains(x) {
                        let k = choose|k: int| 0 <= k < post.len() && post[k] == x;
                        if k < pre.len() {
                            assert(pre[k] == x);
                            assert(pre.contains(x));
                        }
                    }
                    if pre.contains(x) {
                        let k = choose|k: int| 0 <= k < pre.len() && pre[k] == x;
                        assert(post[k] == x);
                    }
                    if x == h@ {
                        assert(post[post.len() - 1] == x);
                    }
                }
            }
        } else {
            proof {
                assert(dated_hashes(rows@.take(i + 1)) == pre);
            }
        }
        i = i + 1;
    }
    proof {
        assert(rows@.take(i as int) =~= rows@);
    }
    seen.len()
}


/// The month labels of the dated changes, ascending, each once.
fn month_labels(rows: &Vec<GitChange>) -> (labels: Vec<String>)
    ensures
        strictly_sorted(labels@),
        forall|l: Seq<char>| #[trigger] holds_text(labels@, l) <==> has_month(rows@, l),
{
    let mut labels: Vec<String> = Vec::new();
    let mut i: usize = 0;
    while i < rows.len()
        invariant
            i <= rows.len(),
            strictly_sorted(labels@),
            forall|l: Seq<char>| #[trigger] holds_text(labels@, l) <==> has_month(rows@.take(i as int), l),
        decreases rows.len() - i,
    {
        let ghost t0 = rows@.take(i as int);
        let ghost t1 = rows@.take(i + 1);
        proof {
            assert forall|l: Seq<char>| #[trigger] has_month(t1, l) <==> (has_month(t0, l) || (rows@[i as int].2 > 0
                && month_label(rows@[i as int].2) == l)) by {
                if has_month(t1, l) {
                    let k = choose|k: int| 0 <= k < t1.len() && t1[k].2 > 0 && #[trigger] month_label(t1[k].2) == l;
                    if k < i {
                        assert(t0[k] == t1[k]);
                    }
                }
                if has_month(t0, l) {
                    let k = choose|k: int| 0 <= k < t0.len() && t0[k].2 > 0 && #[trigger] month_label(t0[k].2) == l;
                    assert(t1[k] == t0[k]);
                }
                if rows@[i as int].2 > 0 && month_label(rows@[i as int].2) == l {
                    assert(t1[i as int] == rows@[i as int]);
                }
            }
        }
        let ts = rows[i].2;
        if ts > 0 {
            let label = epoch_to_month(ts);
            if !has_string(&labels, &label) {
                proof {
                    if holds_text(labels@, label@) {
                        let k = choose|k: int| 0 <= k < labels@.len() && (#[trigger] labels@[k])@ == label@;
                    }
                }
                insert_sorted(&mut labels, label);
            }
        }
        i = i + 1;
    }
    proof {
        assert(rows@.take(i as int) =~= rows@);
    }
    labels
}

/// The commits as plain values.
pub open spec fn commit_views(s: Seq<(String, i64)>) -> Seq<(Seq<char>, i64)> {
    Seq::new(s.len(), |i: int| (s[i].0@, s[i].1))
}

/// Distinct commits and changes of month `label`.
fn month_stats(rows: &Vec<GitChange>, label: &String) -> (r: (usize, usize))
    ensures
        r.0 == distinct_count(month_commits(rows@, label@)),
        r.1 == month_changes(rows@, label@),
{
    let mut seen: Vec<(String, i64)> = Vec::new();
    let mut changes: usize = 0;
    let mut i: usize = 0;
    while i < rows.len()
        invariant
            i <= rows.len(),
            changes == month_changes(rows@.take(i as int), label@),
            changes <= i,
            seen.len() == distinct_count(month_commits(rows@.take(i as int), label@)),
            forall|x: (Seq<char>, i64)|
                #![trigger commit_views(seen@).contains(x)]
                #![trigger month_commits(rows@.take(i as int), label@).contains(x)]
                commit_views(seen@).contains(x) <==> month_commits(rows@.take(i as int), label@).contains(x),
        decreases rows.len() - i,
    {
        proof {
            assert(rows@.take(i + 1).drop_last() =~= rows@.take(i as int));
        }
        let ghost pre = month_commits(rows@.take(i as int), label@);
        let ts = rows[i].2;
        let hit = if ts > 0 {
            let l = epoch_to_month(ts);
            text_eq(l.as_str(), label.as_str())
        } else {
            false
        };
        if hit {
            changes = changes + 1;
            let h = &rows[i].0;
            let found = has_commit(&seen, h, ts);
            let ghost key = (h@, ts);
            let ghost cv = commit_views(seen@);
            proof {
                assert(found == cv.contains(key)) by {
                    if found {
                        let k = choose|k: int| 0 <= k < seen@.len() && (#[trigger] seen@[k]).0@ == h@ && seen@[k].1 == ts;
                        assert(cv[k] == key);
                    }
                    if cv.contains(key) {
                        let k = choose|k: int| 0 <= k < cv.len() && cv[k] == key;
                        assert(seen@[k].0@ == h@ && seen@[k].1 == ts);
                    }
                }
                assert(month_commits(rows@.take(i + 1), label@) == pre.push(key));
                assert(pre.push(key).drop_last() =~= pre);
            }
            if !found {
                seen.push((h.clone(), ts));
                proof {
                    assert(commit_views(seen@) =~= cv.push(key));
                }
            }
            proof {
                assert forall|x: (Seq<char>, i64)| commit_views(seen@).contains(x) <==> (cv.contains(x) || x == key) by {
                    if !found {
                        if commit_views(seen@).contains(x) && x != key {
                            let k = choose|k: int| 0 <= k < commit_views(seen@).len() && commit_views(seen@)[k] == x;
                            assert(cv[k] == x);
                        }
                        if cv.contains(x) {
                            let k = choose|k: int| 0 <= k < cv.len() && cv[k] == x;
                            assert(commit_views(seen@)[k] == x);
                        }
                        if x == key {
                            assert(commit_views(seen@)[cv.len() as int] == x);
                        }
                    }
                }
                let post = pre.push(key);
                assert forall|x: (Seq<char>, i64)| commit_views(seen@).contains(x) <==> post.contains(x) by {
                    if post.contains(x) {
                        let k = choose|k: int| 0 <= k < post.len() && post[k] == x;
                        if k < pre.len() {
                            assert(pre[k] == x);
                            assert(pre.contains(x));
                        }
                    }
                    if pre.contains(x) {
                        let k = choose|k: int| 0 <= k < pre.len() && pre[k] == x;
                        assert(post[k] == x);
                    }
                    if x == key {
                        assert(post[post.len() - 1] == x);
                    }
                }
            }
        } else {
            proof {
                assert(month_commits(rows@.take(i + 1), label@) == pre);
            }
        }
        i = i + 1;
    }
    proof {
        assert(rows@.take(i as int) =~= rows@);
    }
    (seen.len(), changes)
}

proof fn lemma_change_paths_step(rows: Seq<GitChange>, i: int)
    requires
        0 <= i < rows.len(),
    ensures
        change_paths(rows.take(i + 1)) == change_paths(rows.take(i)).push(rows[i].1@),
        path_changes(rows.take(i + 1), rows[i].1@) == path_changes(rows.take(i), rows[i].1@) + 1,
        forall|p: Seq<char>| p != rows[i].1@ ==> #[trigger] path_changes(rows.take(i + 1), p) == path_changes(rows.take(i), p),
        forall|p: Seq<char>| #[trigger] has_path(rows.take(i + 1), p) <==> (has_path(rows.take(i), p) || p == rows[i].1@),
{
    let t0 = rows.take(i);
    let t1 = rows.take(i + 1);
    assert(t1.drop_last() =~= t0);
    assert(change_paths(t1) =~= change_paths(t0).push(rows[i].1@));
    assert forall|p: Seq<char>| #[trigger] has_path(t1, p) <==> (has_path(t0, p) || p == rows[i].1@) by {
        if has_path(t1, p) {
            let k = choose|k: int| 0 <= k < t1.len() && (#[trigger] t1[k]).1@ == p;
            if k < i {
                assert(t0[k] == t1[k]);
            }
        }
        if has_path(t0, p) {
            let k = choose|k: int| 0 <= k < t0.len() && (#[trigger] t0[k]).1@ == p;
            assert(t1[k] == t0[k]);
        }
        if p == rows[i].1@ {
            assert(t1[i] == rows[i]);
        }
    }
}

proof fn lemma_path_absent(rows: Seq<GitChange>, p: Seq<char>)
    requires
        !has_path(rows, p),
    ensures
        path_changes(rows, p) == 0,
    decreases rows.len(),
{
    if rows.len() > 0 {
        let r = rows.drop_last();
        assert(!has_path(r, p)) by {
            if has_path(r, p) {
                let k = choose|k: int| 0 <= k < r.len() && (#[trigger] r[k]).1@ == p;
                assert(rows[k] == r[k]);
            }
        }
        assert(rows[rows.len() - 1].1@ != p);
        lemma_path_absent(r, p);
    }
}

/// The changed paths, each once, with their change counts.
fn path_counts(rows: &Vec<GitChange>) -> (r: (Vec<String>, Vec<usize>))
    ensures
        r.0.len() == r.1.len(),
        r.0.len() == distinct_count(change_paths(rows@)),
        forall|a: int, b: int| 0 <= a < b < r.0.len() ==> r.0@[a]@ != r.0@[b]@,
        forall|p: Seq<char>| #[trigger] holds_text(r.0@, p) <==> has_path(rows@, p),
        forall|k: int| 0 <= k < r.0.len() ==> #[trigger] r.1@[k] == path_changes(rows@, r.0@[k]@),
{
    let mut paths: Vec<String> = Vec::new();
    let mut counts: Vec<usize> = Vec::new();
    let mut i: usize = 0;
    while i < rows.len()
        invariant
            i <= rows.len(),
            paths.len() == counts.len(),
            paths.len() == distinct_count(change_paths(rows@.take(i as int))),
            forall|a: int, b: int| 0 <= a < b < paths.len() ==> paths@[a]@ != paths@[b]@,
            forall|p: Seq<char>| #[trigger] holds_text(paths@, p) <==> has_path(rows@.take(i as int), p),
            forall|k: int| 0 <= k < paths.len() ==> #[trigger] counts@[k] == path_changes(rows@.take(i as int), paths@[k]@),
            forall|k: int| 0 <= k < paths.len() ==> #[trigger] counts@[k] <= i,
        decreases rows.len() - i,
    {
        let x = &rows[i].1;
        proof {
            lemma_change_paths_step(rows@, i as int);
            lemma_path_changes_len(rows@.take(i as int), x@);
        }
        let ghost t0 = rows@.take(i as int);
        let ghost cp0 = change_paths(t0);
        proof {
            assert forall|p: Seq<char>| cp0.contains(p) <==> has_path(t0, p) by {
                if cp0.contains(p) {
                    let k = choose|k: int| 0 <= k < cp0.len() && cp0[k] == p;
                    assert(t0[k].1@ == p);
                }
                if has_path(t0, p) {
                    let k = choose|k: int| 0 <= k < t0.len() && (#[trigger] t0[k]).1@ == p;
                    assert(cp0[k] == p);
                }
            }
            assert(change_paths(rows@.take(i + 1)).drop_last() =~= cp0);
        }
        let mut k: usize = 0;
        while k < paths.len() && !text_eq(paths[k].as_str(), x.as_str())
            invariant
                k <= paths.len(),
                forall|q: int| 0 <= q < k ==> paths@[q]@ != x@,
            decreases paths.len() - k,
        {
            k = k + 1;
        }
        if k < paths.len() {
            let c = counts[k];
            counts.set(k, c + 1);
            proof {
                assert(holds_text(paths@, x@));
                assert forall|q: int| 0 <= q < paths.len() implies #[trigger] counts@[q] == path_changes(rows@.take(i + 1), paths@[q]@) by {
                    if q != k {
                        assert(paths@[q]@ != x@);
                    }
                }
            }
        } else {
            proof {
                assert(!holds_text(paths@, x@)) by {
                    if holds_text(paths@, x@) {
                        let q = choose|q: int| 0 <= q < paths@.len() && (#[trigger] paths@[q])@ == x@;
                    }
                }
                lemma_path_absent(t0, x@);
            }
            let ghost pre = paths@;
            paths.push(x.clone());
            counts.push(1);
            proof {
                assert forall|p: Seq<char>| #[trigger] holds_text(paths@, p) <==> (holds_text(pre, p) || p == x@) by {
                    if holds_text(paths@, p) {
                        let q = choose|q: int| 0 <= q < paths@.len() && (#[trigger] paths@[q])@ == p;
                        if q < pre.len() {
                            assert(pre[q] == paths@[q]);
                        }
                    }
                    if holds_text(pre, p) {
                        let q = choose|q: int| 0 <= q < pre.len() && (#[trigger] pre[q])@ == p;
                        assert(paths@[q] == pre[q]);
                    }
                    if p == x@ {
                        assert(paths@[pre.len() as int]@ == p);
                    }
                }
                assert forall|q: int| 0 <= q < paths.len() implies #[trigger] counts@[q] == path_changes(rows@.take(i + 1), paths@[q]@) by {
                    if q < pre.len() {
                        assert(paths@[q] == pre[q]);
                        assert(pre[q]@ != x@);
                    }
                }
                assert forall|a: int, b: int| 0 <= a < b < paths.len() implies paths@[a]@ != paths@[b]@ by {
                    if b == pre.len() {
                        assert(paths@[a] == pre[a]);
                        assert(holds_text(pre, pre[a]@));
                    }
                }
            }
        }
        i = i + 1;
    }
    proof {
        assert(rows@.take(i as int) =~= rows@);
    }
    (paths, counts)
}

/// The `MAX_CHURN_FILES` most changed paths, most changed first.
fn top_churn(rows: &Vec<GitChange>) -> (c: Vec<FileChurn>)
    requires
        rows.len() < i64::MAX,
    ensures
        churn_ok(rows@, c@),
{
    let (paths, counts) = path_counts(rows);
    let mut chosen: Vec<bool> = Vec::new();
    let mut i: usize = 0;
    while i < paths.len()
        invariant
            i <= paths.len(),
            chosen.len() == i,
            forall|x: int| 0 <= x < i ==> !#[trigger] chosen@[x],
        decreases paths.len() - i,
    {
        chosen.push(false);
        i = i + 1;
    }
    let ghost rv = rows@;
    let mut out: Vec<FileChurn> = Vec::new();
    let mut round: usize = 0;
    while round < MAX_CHURN_FILES
        invariant
            rv == rows@,
            rows.len() < i64::MAX,
            round <= MAX_CHURN_FILES,
            out.len() <= round,
            paths.len() == counts.len(),
            chosen.len() == paths.len(),
            forall|a: int, b: int| 0 <= a < b < paths.len() ==> paths@[a]@ != paths@[b]@,
            forall|p: Seq<char>| #[trigger] holds_text(paths@, p) <==> has_path(rv, p),
            forall|k: int| 0 <= k < paths.len() ==> #[trigger] counts@[k] == path_changes(rv, paths@[k]@),
            forall|x: int|
                0 <= x < paths.len() ==> (#[trigger] chosen@[x] <==> exists|j: int|
                    0 <= j < out.len() && out@[j].relative_path@ == paths@[x]@),
            forall|j: int|
                0 <= j < out.len() ==> has_path(rv, (#[trigger] out@[j]).relative_path@) && out@[j].change_count
                    == path_changes(rv, out@[j].relative_path@),
            forall|a: int, b: int| 0 <= a < b < out.len() ==> out@[a].relative_path@ != out@[b].relative_path@,
            forall|a: int, b: int| 0 <= a < b < out.len() ==> out@[b].change_count <= out@[a].change_count,
            out.len() < round ==> forall|x: int| 0 <= x < paths.len() ==> #[trigger] chosen@[x],
            forall|j: int, x: int|
                0 <= j < out.len() && 0 <= x < paths.len() && !#[trigger] chosen@[x] ==> counts@[x]
                    <= (#[trigger] out@[j]).change_count,
        decreases MAX_CHURN_FILES - round,
    {
        let mut best: Option<usize> = None;
        let mut j: usize = 0;
        while j < paths.len()
            invariant
                j <= paths.len(),
                chosen.len() == paths.len(),
                counts.len() == paths.len(),
                best matches Some(b) ==> b < j && !chosen@[b as int],
                best is None ==> forall|x: int| 0 <= x < j ==> #[trigger] chosen@[x],
                best matches Some(b) ==> forall|x: int|
                    0 <= x < j && !#[trigger] chosen@[x] ==> counts@[x] <= counts@[b as int],
            decreases paths.len() - j,
        {
            if !chosen[j] {
                match best {
                    None => {
                        best = Some(j);
                    },
                    Some(b) => {
                        if counts[j] > counts[b] {
                            best = Some(j);
                        }
                    },
                }
            }
            j = j + 1;
        }
        match best {
            Some(b) => {
                proof {
                    lemma_path_changes_len(rv, paths@[b as int]@);
                    assert(holds_text(paths@, paths@[b as int]@));
                }
                let ghost pre = out@;
                let entry = FileChurn { relative_path: paths[b].clone(), change_count: counts[b] as i64 };
                out.push(entry);
                chosen.set(b, true);
                proof {
                    assert(out@[pre.len() as int] == entry);
                    assert forall|x: int| 0 <= x < paths.len() implies (#[trigger] chosen@[x] <==> exists|jj: int|
                        0 <= jj < out.len() && out@[jj].relative_path@ == paths@[x]@) by {
                        if x == b {
                            assert(out@[pre.len() as int].relative_path@ == paths@[x]@);
                        } else {
                            assert(paths@[x]@ != paths@[b as int]@);
                            if exists|jj: int| 0 <= jj < out.len() && out@[jj].relative_path@ == paths@[x]@ {
                                let jj = choose|jj: int| 0 <= jj < out.len() && out@[jj].relative_path@ == paths@[x]@;
                                assert(jj < pre.len());
                                assert(out@[jj] == pre[jj]);
                            }
                            if exists|jj: int| 0 <= jj < pre.len() && pre[jj].relative_path@ == paths@[x]@ {
                                let jj = choose|jj: int| 0 <= jj < pre.len() && pre[jj].relative_path@ == paths@[x]@;
                                assert(out@[jj] == pre[jj]);
                            }
                        }
                    }
                    assert forall|jj: int| 0 <= jj < out.len() implies has_path(rv, (#[trigger] out@[jj]).relative_path@)
                        && out@[jj].change_count == path_changes(rv, out@[jj].relative_path@) by {
                        if jj < pre.len() {
                            assert(out@[jj] == pre[jj]);
                        }
                    }
                    assert forall|a: int, c: int| 0 <= a < c < out.len() implies out@[a].relative_path@
                        != out@[c].relative_path@ by {
                        if c == pre.len() {
                            assert(out@[a] == pre[a]);
                            if out@[a].relative_path@ == paths@[b as int]@ {
                                assert(exists|jj: int| 0 <= jj < pre.len() && pre[jj].relative_path@ == paths@[b as int]@);
                            }
                        } else {
                            assert(out@[a] == pre[a] && out@[c] == pre[c]);
                        }
                    }
                    assert forall|a: int, c: int| 0 <= a < c < out.len() implies out@[c].change_count
                        <= out@[a].change_count by {
                        if c == pre.len() {
                            assert(out@[a] == pre[a]);
                        } else {
                            assert(out@[a] == pre[a] && out@[c] == pre[c]);
                        }
                    }
                    assert forall|jj: int, x: int|
                        0 <= jj < out.len() && 0 <= x < paths.len() && !#[trigger] chosen@[x] implies counts@[x]
                            <= (#[trigger] out@[jj]).change_count by {
                        if jj < pre.len() {
                            assert(out@[jj] == pre[jj]);
                        }
                    }
                }
            },
            None => {},
        }
        round = round + 1;
    }
    proof {
        assert forall|p: Seq<char>|
            #[trigger] has_path(rv, p) && !(exists|i: int| 0 <= i < out@.len() && out@[i].relative_path@ == p) implies {
            &&& out@.len() == MAX_CHURN_FILES
            &&& forall|i: int| 0 <= i < out@.len() ==> path_changes(rv, p) <= (#[trigger] out@[i]).change_count
        } by {
            assert(holds_text(paths@, p));
            let x = choose|x: int| 0 <= x < paths@.len() && (#[trigger] paths@[x])@ == p;
            assert(!chosen@[x]);
            assert(counts@[x] == path_changes(rv, p));
        }
    }
    out
}

/// Builds the evolution report from the recorded file changes of a
/// workspace and its co-change hotspots.
pub fn evolution_report(rows: &Vec<GitChange>, top_hotspots: Vec<CoChangePair>) -> (r: RepositoryEvolution)
    requires
        rows.len() < i64::MAX,
    ensures
        evolution_ok(rows@, r),
        r.top_hotspots@ == top_hotspots@,
{
    let total_commits = count_dated_commits(rows);
    let (paths, _counts) = path_counts(rows);
    proof {
        lemma_distinct_count_bound(dated_hashes(rows@));
        lemma_dated_hashes_len(rows@);
        lemma_distinct_count_bound(change_paths(rows@));
    }
    let mut oldest_ts: i64 = 0;
    let mut newest_ts: i64 = 0;
    let mut i: usize = 0;
    while i < rows.len()
        invariant
            i <= rows.len(),
            oldest_ts == oldest(rows@.take(i as int)),
            newest_ts == newest(rows@.take(i as int)),
        decreases rows.len() - i,
    {
        proof {
            assert(rows@.take(i + 1).drop_last() =~= rows@.take(i as int));
        }
        let t = rows[i].2;
        if t > 0 && (oldest_ts == 0 || t < oldest_ts) {
            oldest_ts = t;
        }
        if i == 0 || t > newest_ts {
            newest_ts = t;
        }
        i = i + 1;
    }
    proof {
        assert(rows@.take(i as int) =~= rows@);
    }
    let labels = month_labels(rows);
    let mut timeline: Vec<TimelinePoint> = Vec::new();
    let mut k: usize = 0;
    while k < labels.len()
        invariant
            rows.len() < i64::MAX,
            k <= labels.len(),
            strictly_sorted(labels@),
            timeline.len() == k,
            forall|q: int| 0 <= q < k ==> (#[trigger] timeline@[q]).month@ == labels@[q]@,
            forall|q: int|
                0 <= q < k ==> (#[trigger] timeline@[q]).file_changes == month_changes(rows@, timeline@[q].month@)
                    && timeline@[q].commit_count == distinct_count(month_commits(rows@, timeline@[q].month@)),
        decreases labels.len() - k,
    {
        let (commits, changes) = month_stats(rows, &labels[k]);
        proof {
            lemma_month_commits_len(rows@, labels@[k as int]@);
            lemma_distinct_count_bound(month_commits(rows@, labels@[k as int]@));
        }
        timeline.push(
            TimelinePoint { month: labels[k].clone(), commit_count: commits as i64, file_changes: changes as i64 },
        );
        k = k + 1;
    }
    let mut most_active_month = String::from_str("unknown");
    if timeline.len() > 0 {
        let mut best: usize = 0;
        let mut q: usize = 1;
        while q < timeline.len()
            invariant
                0 < timeline.len(),
                best < q <= timeline.len(),
                forall|j: int| 0 <= j < q ==> (#[trigger] timeline@[j]).file_changes <= timeline@[best as int].file_changes,
            decreases timeline.len() - q,
        {
            if timeline[q].file_changes > timeline[best].file_changes {
                best = q;
            }
            q = q + 1;
        }
        most_active_month = timeline[best].month.clone();
    }
    let top_churn_files = top_churn(rows);
    let r = RepositoryEvolution {
        summary: EvolutionSummary {
            total_commits: total_commits as i64,
            total_files_changed: paths.len() as i64,
            total_file_changes: rows.len() as i64,
            most_active_month,
            oldest_commit_ts: oldest_ts,
            newest_commit_ts: newest_ts,
        },
        timeline,
        top_churn_files,
        top_hotspots,
    };
    proof {
        assert forall|l: Seq<char>| #[trigger] has_month(rows@, l) <==> exists|i: int|
            0 <= i < r.timeline@.len() && r.timeline@[i].month@ == l by {
            if has_month(rows@, l) {
                assert(holds_text(labels@, l));
                let q = choose|q: int| 0 <= q < labels@.len() && (#[trigger] labels@[q])@ == l;
                assert(r.timeline@[q].month@ == l);
            }
            if exists|i: int| 0 <= i < r.timeline@.len() && r.timeline@[i].month@ == l {
                let q = choose|q: int| 0 <= q < r.timeline@.len() && r.timeline@[q].month@ == l;
                assert(labels@[q]@ == l);
                assert(holds_text(labels@, l));
            }
        }
        assert forall|a: int, b: int| 0 <= a < b < r.timeline@.len() implies text_lt(
            r.timeline@[a].month@,
            r.timeline@[b].month@,
        ) by {
            assert(r.timeline@[a].month@ == labels@[a]@);
            assert(r.timeline@[b].month@ == labels@[b]@);
        }
        if r.timeline@.len() == 0 {
            reveal_strlit("unknown");
        }
    }
    r
}


/// Number of changes with a known timestamp.
pub open spec fn dated_count(rows: Seq<GitChange>) -> nat
    decreases rows.len(),
{
    if rows.len() == 0 {
        0
    } else {
        dated_count(rows.drop_last()) + if rows.last().2 > 0 {
            1nat
        } else {
            0nat
        }
    }
}

/// Sum of the file changes over the points of a timeline.
pub open spec fn timeline_total(t: Seq<TimelinePoint>) -> int
    decreases t.len(),
{
    if t.len() == 0 {
        0
    } else {
        timeline_total(t.drop_last()) + t.last().file_changes
    }
}

/// Sum, over the months of the points, of the dated changes in each.
spec fn month_total(rows: Seq<GitChange>, t: Seq<TimelinePoint>) -> nat
    decreases t.len(),
{
    if t.len() == 0 {
        0
    } else {
        month_total(rows, t.drop_last()) + month_changes(rows, t.last().month@)
    }
}

/// Number of points for month `label`.
spec fn month_hits(t: Seq<TimelinePoint>, label: Seq<char>) -> nat
    decreases t.len(),
{
    if t.len() == 0 {
        0
    } else {
        month_hits(t.drop_last(), label) + if t.last().month@ == label {
            1nat
        } else {
            0nat
        }
    }
}

proof fn lemma_month_total_step(rows: Seq<GitChange>, t: Seq<TimelinePoint>)
    requires
        rows.len() > 0,
    ensures
        month_total(rows, t) == month_total(rows.drop_last(), t) + if rows.last().2 > 0 {
            month_hits(t, month_label(rows.last().2))
        } else {
            0
        },
    decreases t.len(),
{
    if t.len() > 0 {
        lemma_month_total_step(rows, t.drop_last());
    }
}

proof fn lemma_month_total_empty(rows: Seq<GitChange>, t: Seq<TimelinePoint>)
    requires
        rows.len() == 0,
    ensures
        month_total(rows, t) == 0,
    decreases t.len(),
{
    if t.len() > 0 {
        lemma_month_total_empty(rows, t.drop_last());
    }
}

proof fn lemma_month_hits_none(t: Seq<TimelinePoint>, label: Seq<char>)
    requires
        forall|i: int| 0 <= i < t.len() ==> (#[trigger] t[i]).month@ != label,
    ensures
        month_hits(t, label) == 0,
    decreases t.len(),
{
    if t.len() > 0 {
        lemma_month_hits_none(t.drop_last(), label);
    }
}

proof fn lemma_month_hits_one(t: Seq<TimelinePoint>, label: Seq<char>)
    requires
        forall|i: int, j: int| 0 <= i < j < t.len() ==> (#[trigger] t[i]).month@ != (#[trigger] t[j]).month@,
        exists|i: int| 0 <= i < t.len() && (#[trigger] t[i]).month@ == label,
    ensures
        month_hits(t, label) == 1,
    decreases t.len(),
{
    let k = choose|i: int| 0 <= i < t.len() && (#[trigger] t[i]).month@ == label;
    let p = t.drop_last();
    if k == t.len() - 1 {
        assert forall|i: int| 0 <= i < p.len() implies (#[trigger] p[i]).month@ != label by {
            assert(p[i] == t[i]);
        }
        lemma_month_hits_none(p, label);
    } else {
        assert(p[k] == t[k]);
        assert(t.last().month@ != label);
        lemma_month_hits_one(p, label);
    }
}

proof fn lemma_month_total_counts_dated(rows: Seq<GitChange>, t: Seq<TimelinePoint>)
    requires
        forall|i: int, j: int| 0 <= i < j < t.len() ==> (#[trigger] t[i]).month@ != (#[trigger] t[j]).month@,
        forall|i: int|
            0 <= i < rows.len() && (#[trigger] rows[i]).2 > 0 ==> exists|j: int|
                0 <= j < t.len() && (#[trigger] t[j]).month@ == month_label(rows[i].2),
    ensures
        month_total(rows, t) == dated_count(rows),
    decreases rows.len(),
{
    if rows.len() > 0 {
        let p = rows.drop_last();
        assert forall|i: int| 0 <= i < p.len() && (#[trigger] p[i]).2 > 0 implies exists|j: int|
            0 <= j < t.len() && (#[trigger] t[j]).month@ == month_label(p[i].2) by {
            assert(p[i] == rows[i]);
        }
        lemma_month_total_counts_dated(p, t);
        lemma_month_total_step(rows, t);
        if rows.last().2 > 0 {
            assert(rows[rows.len() - 1] == rows.last());
            lemma_month_hits_one(t, month_label(rows.last().2));
        }
    } else {
        lemma_month_total_empty(rows, t);
    }
}

proof fn lemma_timeline_total_is_month_total(rows: Seq<GitChange>, t: Seq<TimelinePoint>)
    requires
        forall|i: int| 0 <= i < t.len() ==> (#[trigger] t[i]).file_changes == month_changes(rows, t[i].month@),
    ensures
        timeline_total(t) == month_total(rows, t),
    decreases t.len(),
{
    if t.len() > 0 {
        let p = t.drop_last();
        assert forall|i: int| 0 <= i < p.len() implies (#[trigger] p[i]).file_changes == month_changes(
            rows,
            p[i].month@,
        ) by {
            assert(p[i] == t[i]);
        }
        lemma_timeline_total_is_month_total(rows, p);
        assert(t[t.len() - 1] == t.last());
    }
}

/// Every change with a known timestamp is counted in exactly one month of
/// the timeline: the timeline's file changes add up to the dated changes.
pub proof fn lemma_timeline_counts_dated_changes(rows: Seq<GitChange>, r: RepositoryEvolution)
    requires
        evolution_ok(rows, r),
    ensures
        timeline_total(r.timeline@) == dated_count(rows),
{
    let t = r.timeline@;
    assert forall|i: int, j: int| 0 <= i < j < t.len() implies (#[trigger] t[i]).month@ != (#[trigger] t[j]).month@ by {
        lemma_text_lt_total(t[i].month@, t[i].month@);
    }
    assert forall|i: int| 0 <= i < rows.len() && (#[trigger] rows[i]).2 > 0 implies exists|j: int|
        0 <= j < t.len() && (#[trigger] t[j]).month@ == month_label(rows[i].2) by {
        assert(has_month(rows, month_label(rows[i].2)));
    }
    lemma_month_total_counts_dated(rows, t);
    lemma_timeline_total_is_month_total(rows, t);
}

} // verus!
