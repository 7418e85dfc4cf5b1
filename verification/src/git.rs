//! Reading what `git` prints: working-tree state, counts and timestamps,
//! the recent file changes and the commit log. Running `git` is left to
//! the caller, which hands over the trimmed standard output of a command
//! that succeeded (`None` when it failed).
use vstd::prelude::*;
use vstd::string::StringExecFns;

use crate::decimal::{parse_i64, parse_int, parse_or_zero};
use crate::text::{find_char, lemma_split_step, split_lines, string_of, to_chars, trim, trim_range, until};

verus! {

/// At most this many file changes are taken from the history.
pub const MAX_FILE_CHANGES: usize = 1000;

/// "clean" for an empty `git status --porcelain`, "dirty" otherwise.
pub fn working_tree_status(output: Option<String>) -> (r: Option<String>)
    ensures
        match output {
            Some(o) => r matches Some(s) && s@ == if o@.len() == 0 {
                "clean"@
            } else {
                "dirty"@
            },
            None => r is None,
        },
{
    match output {
        Some(o) => {
            if o.as_str().is_empty() {
                Some(String::from_str("clean"))
            } else {
                Some(String::from_str("dirty"))
            }
        },
        None => None,
    }
}

/// A number printed by `git` (commit count, timestamp), when it is one.
pub fn parse_number(output: Option<String>) -> (r: Option<i64>)
    ensures
        match output {
            Some(o) => match parse_int(o@) {
                Some(v) => r == Some(v as i64),
                None => r is None,
            },
            None => r is None,
        },
{
    match output {
        Some(o) => {
            let v = to_chars(o.as_str());
            let n = v.len();
            proof {
                assert(v@.subrange(0, n as int) =~= o@);
            }
            parse_i64(&v, 0, n)
        },
        None => None,
    }
}

/// Number of commits on the current branch, from `git rev-list --count`.
pub fn commit_count(output: Option<String>) -> (r: Option<i64>)
    ensures
        match output {
            Some(o) => match parse_int(o@) {
                Some(v) => r == Some(v as i64),
                None => r is None,
            },
            None => r is None,
        },
{
    parse_number(output)
}

/// Last commit timestamp, from `git log -1 --format=%ct`.
pub fn last_commit_timestamp(output: Option<String>) -> (r: Option<i64>)
    ensures
        match output {
            Some(o) => match parse_int(o@) {
                Some(v) => r == Some(v as i64),
                None => r is None,
            },
            None => r is None,
        },
{
    parse_number(output)
}

/// An ASCII hexadecimal digit.
pub open spec fn is_hex(c: char) -> bool {
    ('0' <= c && c <= '9') || ('a' <= c && c <= 'f') || ('A' <= c && c <= 'F')
}

/// A commit header line: forty hex digits, a space, then the rest.
pub open spec fn is_header(t: Seq<char>) -> bool {
    t.len() >= 41 && (forall|i: int| 0 <= i < 40 ==> is_hex(#[trigger] t[i])) && t[40] == ' '
}

/// The line opens a merge description.
pub open spec fn is_merge_line(t: Seq<char>) -> bool {
    t.len() >= 6 && t.take(6) == seq!['M', 'e', 'r', 'g', 'e', ':']
}

/// A file change as plain values: hash, timestamp, path.
pub type ChangeView = (Seq<char>, int, Seq<char>);

/// The state after reading `lines` of `git log --name-only --format="%H %ct"`:
/// the current commit's hash and timestamp and the changes gathered.
pub open spec fn changes_read(lines: Seq<Seq<char>>) -> (Seq<char>, int, Seq<ChangeView>)
    decreases lines.len(),
{
    if lines.len() == 0 {
        (Seq::empty(), 0, Seq::empty())
    } else {
        let (h, ts, res) = changes_read(lines.drop_last());
        let t = trim(lines.last());
        if res.len() >= MAX_FILE_CHANGES || t.len() == 0 || is_merge_line(t) {
            (h, ts, res)
        } else if is_header(t) {
            (t.take(40), parse_or_zero(t.skip(41)), res)
        } else if h.len() > 0 {
            (h, ts, res.push((h, ts, t)))
        } else {
            (h, ts, res)
        }
    }
}

/// The changes as plain values.
pub open spec fn change_views(v: Seq<(String, i64, String)>) -> Seq<ChangeView> {
    Seq::new(v.len(), |i: int| (v[i].0@, v[i].1 as int, v[i].2@))
}

/// A commit of the log as plain values: hash, timestamp, subject.
pub open spec fn log_entry(t: Seq<char>) -> Option<ChangeView> {
    if !is_header(t) {
        None
    } else {
        let rest = t.skip(41);
        let p = until(rest, ' ');
        if p.len() < rest.len() {
            Some((t.take(40), parse_or_zero(p), rest.skip(p.len() + 1int)))
        } else {
            Some((t.take(40), parse_or_zero(rest), Seq::empty()))
        }
    }
}

/// The commits read from `lines` of `git log --format="%H %ct %s"`, stopping
/// once `max_count` are gathered.
pub open spec fn log_read(lines: Seq<Seq<char>>, max_count: int) -> Seq<ChangeView>
    decreases lines.len(),
{
    if lines.len() == 0 {
        Seq::empty()
    } else {
        let res = log_read(lines.drop_last(), max_count);
        let t = trim(lines.last());
        if res.len() >= max_count || t.len() == 0 {
            res
        } else {
            match log_entry(t) {
                Some(e) => res.push(e),
                None => res,
            }
        }
    }
}

fn is_header_at(v: &Vec<char>, a: usize, b: usize) -> (r: bool)
    requires
        a <= b <= v.len(),
    ensures
        r == is_header(v@.subrange(a as int, b as int)),
{
    let ghost t = v@.subrange(a as int, b as int);
    if b - a < 41 {
        return false;
    }
    let mut i: usize = 0;
    while i < 40
        invariant
            b - a >= 41,
            a <= b <= v.len(),
            t == v@.subrange(a as int, b as int),
            i <= 40,
            forall|q: int| 0 <= q < i ==> is_hex(#[trigger] t[q]),
        decreases 40 - i,
    {
        let c = v[a + i];
        proof {
            assert(t[i as int] == c);
        }
        if !(('0' <= c && c <= '9') || ('a' <= c && c <= 'f') || ('A' <= c && c <= 'F')) {
            return false;
        }
        i = i + 1;
    }
    proof {
        assert(t[40] == v@[a + 40]);
    }
    v[a + 40] == ' '
}

fn is_merge_at(v: &Vec<char>, a: usize, b: usize) -> (r: bool)
    requires
        a <= b <= v.len(),
    ensures
        r == is_merge_line(v@.subrange(a as int, b as int)),
{
    let ghost t = v@.subrange(a as int, b as int);
    if b - a < 6 {
        return false;
    }
    let r = v[a] == 'M' && v[a + 1] == 'e' && v[a + 2] == 'r' && v[a + 3] == 'g' && v[a + 4] == 'e' && v[a + 5]
        == ':';
    proof {
        assert(t.take(6)[0] == v@[a as int]);
        assert(t.take(6)[1] == v@[a + 1]);
        assert(t.take(6)[2] == v@[a + 2]);
        assert(t.take(6)[3] == v@[a + 3]);
        assert(t.take(6)[4] == v@[a + 4]);
        assert(t.take(6)[5] == v@[a + 5]);
        if r {
            assert(t.take(6) =~= seq!['M', 'e', 'r', 'g', 'e', ':']);
        }
    }
    r
}

fn parse_or_zero_at(v: &Vec<char>, a: usize, b: usize) -> (r: i64)
    requires
        a <= b <= v.len(),
    ensures
        r == parse_or_zero(v@.subrange(a as int, b as int)),
{
    match parse_i64(v, a, b) {
        Some(x) => x,
        None => 0,
    }
}

/// The files changed by the recent commits, read from the output of
/// `git log --name-only --format="%H %ct"`: every non-empty line that is
/// neither a commit header nor a merge note names a file of the commit
/// above it. At most `MAX_FILE_CHANGES` are taken.
pub fn recent_file_changes(output: Option<String>) -> (r: Vec<(String, i64, String)>)
    ensures
        match output {
            Some(o) => change_views(r@) == changes_read(split_lines(o@)).2,
            None => r@.len() == 0,
        },
        r@.len() <= MAX_FILE_CHANGES,
{
    let o = match output {
        Some(o) => o,
        None => return Vec::new(),
    };
    let v = to_chars(o.as_str());
    let n = v.len();
    let mut results: Vec<(String, i64, String)> = Vec::new();
    let mut hash = String::new();
    let mut ts: i64 = 0;
    let ghost mut done: Seq<Seq<char>> = Seq::empty();
    let mut pos: usize = 0;
    proof {
        assert(v@.skip(0) =~= v@);
        assert(done + split_lines(v@) =~= split_lines(v@));
        assert(change_views(results@) =~= Seq::<ChangeView>::empty());
    }
    while pos < n
        invariant
            v@ == o@,
            n == v.len(),
            pos <= n,
            split_lines(v@) == done + split_lines(v@.skip(pos as int)),
            changes_read(done).0 == hash@,
            changes_read(done).1 == ts as int,
            changes_read(done).2 == change_views(results@),
            results.len() <= MAX_FILE_CHANGES,
        decreases n - pos,
    {
        let e = find_char(&v, pos, n, '\n');
        proof {
            lemma_split_step(v@, pos as int, e as int);
        }
        let (a, b) = trim_range(&v, pos, e);
        let ghost line = v@.subrange(pos as int, e as int);
        let ghost done2 = done.push(line);
        proof {
            assert(done2.drop_last() =~= done);
            assert(done2.last() == line);
        }
        if results.len() >= MAX_FILE_CHANGES || a == b || is_merge_at(&v, a, b) {
            proof {
                assert(changes_read(done2) == changes_read(done));
            }
        } else if is_header_at(&v, a, b) {
            hash = string_of(&v, a, a + 40);
            ts = parse_or_zero_at(&v, a + 41, b);
            proof {
                let t = v@.subrange(a as int, b as int);
                assert(t.take(40) =~= v@.subrange(a as int, a + 40));
                assert(t.skip(41) =~= v@.subrange(a + 41, b as int));
            }
        } else if !hash.as_str().is_empty() {
            let ghost pre = results@;
            results.push((hash.clone(), ts, string_of(&v, a, b)));
            proof {
                assert(change_views(results@) =~= change_views(pre).push((hash@, ts as int, v@.subrange(a as int, b as int))));
            }
        }
        proof {
            done = done2;
            if e < n {
                assert(split_lines(v@) =~= done + split_lines(v@.skip(e + 1)));
            } else {
                assert(v@.skip(n as int) =~= Seq::<char>::empty());
                assert(split_lines(v@) =~= done + split_lines(v@.skip(n as int)));
            }
        }
        pos = if e < n {
            e + 1
        } else {
            n
        };
    }
    proof {
        assert(v@.skip(n as int) =~= Seq::<char>::empty());
        assert(done + split_lines(v@.skip(n as int)) =~= done);
    }
    results
}

/// The recent commits, read from the output of
/// `git log --format="%H %ct %s"`: hash, timestamp (0 when unreadable) and
/// subject of each commit header line, up to `max_count` entries.
pub fn commit_log(output: Option<String>, max_count: usize) -> (r: Vec<(String, i64, String)>)
    ensures
        match output {
            Some(o) => change_views(r@) == log_read(split_lines(o@), max_count as int),
            None => r@.len() == 0,
        },
        r@.len() <= max_count,
{
    let o = match output {
        Some(o) => o,
        None => return Vec::new(),
    };
    let v = to_chars(o.as_str());
    let n = v.len();
    let mut results: Vec<(String, i64, String)> = Vec::new();
    let ghost mut done: Seq<Seq<char>> = Seq::empty();
    let mut pos: usize = 0;
    proof {
        assert(v@.skip(0) =~= v@);
        assert(done + split_lines(v@) =~= split_lines(v@));
        assert(change_views(results@) =~= Seq::<ChangeView>::empty());
    }
    while pos < n
        invariant
            v@ == o@,
            n == v.len(),
            pos <= n,
            split_lines(v@) == done + split_lines(v@.skip(pos as int)),
            log_read(done, max_count as int) == change_views(results@),
            results.len() <= max_count,
        decreases n - pos,
    {
        let e = find_char(&v, pos, n, '\n');
        proof {
            lemma_split_step(v@, pos as int, e as int);
        }
        let (a, b) = trim_range(&v, pos, e);
        let ghost line = v@.subrange(pos as int, e as int);
        let ghost done2 = done.push(line);
        proof {
            assert(done2.drop_last() =~= done);
            assert(done2.last() == line);
        }
        if results.len() >= max_count || a == b {
            proof {
                assert(log_read(done2, max_count as int) == log_read(done, max_count as int));
            }
        } else if is_header_at(&v, a, b) {
            let ghost t = v@.subrange(a as int, b as int);
            let ghost rest = t.skip(41);
            proof {
                assert(rest =~= v@.subrange(a + 41, b as int));
                assert(t.take(40) =~= v@.subrange(a as int, a + 40));
            }
            let sp = find_char(&v, a + 41, b, ' ');
            let hash = string_of(&v, a, a + 40);
            let ghost pre = results@;
            if sp < b {
                let ts = parse_or_zero_at(&v, a + 41, sp);
                let msg = string_of(&v, sp + 1, b);
                proof {
                    assert(rest.skip(until(rest, ' ').len() + 1int) =~= v@.subrange(sp + 1, b as int));
                }
                results.push((hash, ts, msg));
            } else {
                let ts = parse_or_zero_at(&v, a + 41, b);
                results.push((hash, ts, String::new()));
                proof {
                    assert(until(rest, ' ').len() == rest.len());
                }
            }
            proof {
                assert(change_views(results@) =~= change_views(pre).push(log_entry(t)->0));
            }
        } else {
            proof {
                assert(log_read(done2, max_count as int) == log_read(done, max_count as int));
            }
        }
        proof {
            done = done2;
            if e < n {
                assert(split_lines(v@) =~= done + split_lines(v@.skip(e + 1)));
            } else {
                assert(v@.skip(n as int) =~= Seq::<char>::empty());
                assert(split_lines(v@) =~= done + split_lines(v@.skip(n as int)));
            }
        }
        pos = if e < n {
            e + 1
        } else {
            n
        };
    }
    proof {
        assert(v@.skip(n as int) =~= Seq::<char>::empty());
        assert(done + split_lines(v@.skip(n as int)) =~= done);
    }
    results
}

} // verus!
