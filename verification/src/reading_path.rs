//! A beginner-friendly reading order: start from entry points (or, without
//! any, from the most imported files) and follow imports breadth-first.
use std::collections::HashMap;
use vstd::prelude::*;

use crate::digraph::adj_view;
use crate::id_graph::{build_id_graph, has_id_edge, is_node, succ_ids, IdGraph};

verus! {

broadcast use vstd::std_specs::hash::group_hash_axioms;

/// A recommended reading order item.
#[derive(Debug)]
pub struct ReadingPathItem {
    pub order: i64,
    pub file_id: i64,
    pub relative_path: String,
    pub name: String,
    pub depth: i64,
    pub reason: String,
}

/// The path stops growing once it holds this many files.
pub const MAX_READING_PATH: usize = 200;

/// How many of the most imported files seed the path when no entry point
/// is given.
pub const FALLBACK_SEEDS: usize = 3;

/// A file row: id, relative path, name.
pub type FileInfoRow = (i64, String, String);

/// Index of the last row for `id` among the first `k` rows.
pub open spec fn last_row(files: Seq<FileInfoRow>, id: i64, k: int) -> Option<int>
    decreases k,
{
    if k <= 0 {
        None
    } else if files[k - 1].0 == id {
        Some(k - 1)
    } else {
        last_row(files, id, k - 1)
    }
}

/// Relative path recorded for `id` (empty when unknown).
pub open spec fn path_of(files: Seq<FileInfoRow>, id: i64) -> Seq<char> {
    match last_row(files, id, files.len() as int) {
        Some(j) => files[j].1@,
        None => Seq::empty(),
    }
}

/// Name recorded for `id` (empty when unknown).
pub open spec fn name_of(files: Seq<FileInfoRow>, id: i64) -> Seq<char> {
    match last_row(files, id, files.len() as int) {
        Some(j) => files[j].2@,
        None => Seq::empty(),
    }
}

/// Number of imports of `id`.
pub open spec fn in_degree(edges: Seq<(i64, i64)>, id: i64) -> nat
    decreases edges.len(),
{
    if edges.len() == 0 {
        0
    } else {
        in_degree(edges.drop_last(), id) + if edges.last().1 == id {
            1nat
        } else {
            0nat
        }
    }
}

/// `id` is imported by some file.
pub open spec fn is_target(edges: Seq<(i64, i64)>, id: i64) -> bool {
    exists|j: int| 0 <= j < edges.len() && #[trigger] edges[j].1 == id
}

/// The entries without repetition, first occurrence kept.
pub open spec fn dedup(s: Seq<i64>) -> Seq<i64>
    decreases s.len(),
{
    if s.len() == 0 {
        Seq::empty()
    } else {
        let d = dedup(s.drop_last());
        if d.contains(s.last()) {
            d
        } else {
            d.push(s.last())
        }
    }
}

/// The seeds chosen without entry points: distinct imported files, as many
/// as `FALLBACK_SEEDS` allows, none imported less often than an imported
/// file left out, in order of decreasing import count.
pub open spec fn fallback_seeds_ok(edges: Seq<(i64, i64)>, seeds: Seq<i64>) -> bool {
    &&& forall|i: int, j: int| 0 <= i < j < seeds.len() ==> seeds[i] != seeds[j]
    &&& forall|i: int| 0 <= i < seeds.len() ==> is_target(edges, #[trigger] seeds[i])
    &&& seeds.len() <= FALLBACK_SEEDS
    &&& seeds.len() < FALLBACK_SEEDS ==> forall|t: i64| #[trigger] is_target(edges, t) ==> seeds.contains(t)
    &&& forall|i: int, t: i64|
        0 <= i < seeds.len() && #[trigger] is_target(edges, t) && !seeds.contains(t) ==> in_degree(
            edges,
            t,
        ) <= in_degree(edges, #[trigger] seeds[i])
    &&& forall|i: int, j: int| 0 <= i < j < seeds.len() ==> in_degree(edges, #[trigger] seeds[j]) <= in_degree(
        edges,
        #[trigger] seeds[i],
    )
}

/// The label a path item hands down to the files it imports.
pub open spec fn label_of(items: Seq<ReadingPathItem>, k: int, i: int) -> Seq<char> {
    if i < k {
        items[i].reason@
    } else {
        items[i].relative_path@
    }
}

/// The earliest item before `j` that imports item `j`'s file.
pub open spec fn is_parent(edges: Seq<(i64, i64)>, items: Seq<ReadingPathItem>, p: int, j: int) -> bool {
    &&& 0 <= p < j
    &&& has_id_edge(edges, items[p].file_id, items[j].file_id)
    &&& forall|i: int| 0 <= i < p ==> !has_id_edge(edges, #[trigger] items[i].file_id, items[j].file_id)
}

/// Item `j` sits one level below the earliest item importing it, and says so.
pub open spec fn found_from_parent(edges: Seq<(i64, i64)>, items: Seq<ReadingPathItem>, k: int, j: int) -> bool {
    exists|p: int|
        #[trigger] is_parent(edges, items, p, j) && items[j].depth == items[p].depth + 1
            && items[j].reason@ == "imported by "@ + label_of(items, k, p)
}

/// Everything the reading path promises, given its `k` seeds.
pub open spec fn reading_path_ok(
    edges: Seq<(i64, i64)>,
    files: Seq<FileInfoRow>,
    entries: Seq<i64>,
    items: Seq<ReadingPathItem>,
    k: int,
) -> bool {
    &&& 0 <= k <= items.len()
    &&& forall|i: int| 0 <= i < items.len() ==> (#[trigger] items[i]).order == i
    &&& forall|i: int, j: int| 0 <= i < j < items.len() ==> items[i].file_id != items[j].file_id
    &&& forall|i: int|
        0 <= i < items.len() ==> (#[trigger] items[i]).relative_path@ == path_of(files, items[i].file_id)
            && items[i].name@ == name_of(files, items[i].file_id)
    // seeds
    &&& forall|i: int| 0 <= i < k ==> (#[trigger] items[i]).depth == 0
    &&& entries.len() > 0 ==> {
        &&& k == dedup(entries).len()
        &&& forall|i: int| 0 <= i < k ==> (#[trigger] items[i]).file_id == dedup(entries)[i]
                && items[i].reason@ == "entry point"@
    }
    &&& entries.len() == 0 ==> {
        &&& fallback_seeds_ok(edges, Seq::new(k as nat, |i: int| items[i].file_id))
        &&& forall|i: int| 0 <= i < k ==> (#[trigger] items[i]).reason@ == "highly imported module"@
    }
    // every later item is found from the earliest item importing it
    &&& forall|j: int| k <= j < items.len() ==> #[trigger] found_from_parent(edges, items, k, j)
    // items found from the same or a later item come later
    &&& forall|j1: int, j2: int, p1: int, p2: int|
        k <= j1 < j2 < items.len() && #[trigger] is_parent(edges, items, p1, j1) && #[trigger] is_parent(
            edges,
            items,
            p2,
            j2,
        ) ==> p1 <= p2
    // growth stops at the limit
    &&& items.len() <= if k >= MAX_READING_PATH {
        k + 1
    } else {
        MAX_READING_PATH as int
    }
    // below the limit, everything reachable is listed
    &&& items.len() < MAX_READING_PATH ==> forall|i: int, t: i64|
        0 <= i < items.len() && #[trigger] has_id_edge(edges, items[i].file_id, t) ==> exists|j: int|
            0 <= j < items.len() && #[trigger] items[j].file_id == t
}

/// Depths along a reading path never decrease, and every file listed after
/// the seeds sits at depth one or more.
pub proof fn lemma_reading_path_depths(
    edges: Seq<(i64, i64)>,
    files: Seq<FileInfoRow>,
    entries: Seq<i64>,
    items: Seq<ReadingPathItem>,
    k: int,
)
    requires
        reading_path_ok(edges, files, entries, items, k),
    ensures
        forall|j: int| k <= j < items.len() ==> #[trigger] items[j].depth >= 1,
        forall|i: int, j: int| 0 <= i < j < items.len() ==> items[i].depth <= items[j].depth,
{
    lemma_depths_upto(edges, files, entries, items, k, items.len() as int);
}

proof fn lemma_depths_upto(
    edges: Seq<(i64, i64)>,
    files: Seq<FileInfoRow>,
    entries: Seq<i64>,
    items: Seq<ReadingPathItem>,
    k: int,
    n: int,
)
    requires
        reading_path_ok(edges, files, entries, items, k),
        0 <= n <= items.len(),
    ensures
        forall|j: int| 0 <= j < n ==> #[trigger] items[j].depth >= 0,
        forall|j: int| k <= j < n ==> #[trigger] items[j].depth >= 1,
        forall|i: int, j: int| 0 <= i < j < n ==> items[i].depth <= items[j].depth,
    decreases n,
{
    if n > 0 {
        lemma_depths_upto(edges, files, entries, items, k, n - 1);
        let j = n - 1;
        if j >= k {
            assert(found_from_parent(edges, items, k, j));
            let p = choose|p: int|
                #[trigger] is_parent(edges, items, p, j) && items[j].depth == items[p].depth + 1
                    && items[j].reason@ == "imported by "@ + label_of(items, k, p);
            assert(items[p].depth >= 0);
            assert forall|i: int| 0 <= i < j implies items[i].depth <= items[j].depth by {
                if i < k {
                    assert(items[i].depth == 0);
                } else {
                    assert(found_from_parent(edges, items, k, i));
                    let q = choose|q: int|
                        #[trigger] is_parent(edges, items, q, i) && items[i].depth == items[q].depth + 1
                            && items[i].reason@ == "imported by "@ + label_of(items, k, q);
                    assert(q <= p);
                    if q < p {
                        assert(items[q].depth <= items[p].depth);
                    }
                }
            }
        } else {
            assert(items[j].depth == 0);
            assert forall|i: int| 0 <= i < j implies items[i].depth <= items[j].depth by {
                assert(items[i].depth == 0);
            }
        }
    }
}

/// In the import list `s`, `a` occurs before any occurrence of `b`.
pub open spec fn imported_before(s: Seq<i64>, a: i64, b: i64) -> bool {
    exists|r: int| 0 <= r < s.len() && s[r] == a && forall|x: int| 0 <= x <= r ==> #[trigger] s[x] != b
}

/// Files found from the same item come in the order that item imports
/// them.
pub open spec fn siblings_in_import_order(edges: Seq<(i64, i64)>, items: Seq<ReadingPathItem>, k: int) -> bool {
    forall|j1: int, j2: int, p: int|
        k <= j1 < j2 < items.len() && #[trigger] is_parent(edges, items, p, j1) && #[trigger] is_parent(
            edges,
            items,
            p,
            j2,
        ) ==> imported_before(
            crate::id_graph::succ_ids(edges, items[p].file_id),
            items[j1].file_id,
            items[j2].file_id,
        )
}

/// Each later item sits at the first position of its file in its
/// parent's adjacency list, and siblings keep that order.
spec fn order_ok(g: IdGraph, nodes: Seq<usize>, par: Seq<int>, pos: Seq<int>, k: int) -> bool {
    &&& pos.len() == nodes.len()
    &&& forall|j: int|
        k <= j < nodes.len() ==> {
            let a = g.adj@[nodes[par[j]] as int]@;
            &&& 0 <= #[trigger] pos[j] < a.len()
            &&& a[pos[j]] == nodes[j]
            &&& forall|r: int| 0 <= r < pos[j] ==> a[r] != nodes[j]
        }
    &&& forall|j1: int, j2: int|
        k <= j1 < j2 < nodes.len() && #[trigger] par[j1] == #[trigger] par[j2] ==> pos[j1] < pos[j2]
}

fn file_index(files: &Vec<FileInfoRow>) -> (m: HashMap<i64, usize>)
    ensures
        forall|id: i64|
            #[trigger] m@.contains_key(id) <==> last_row(files@, id, files.len() as int) is Some,
        forall|id: i64|
            #[trigger] m@.contains_key(id) ==> last_row(files@, id, files.len() as int) == Some(
                m@[id] as int,
            ),
{
    let mut m: HashMap<i64, usize> = HashMap::new();
    let mut i: usize = 0;
    while i < files.len()
        invariant
            i <= files.len(),
            forall|id: i64| #[trigger] m@.contains_key(id) <==> last_row(files@, id, i as int) is Some,
            forall|id: i64|
                #[trigger] m@.contains_key(id) ==> last_row(files@, id, i as int) == Some(m@[id] as int),
        decreases files.len() - i,
    {
        m.insert(files[i].0, i);
        i = i + 1;
    }
    m
}

fn lookup(files: &Vec<FileInfoRow>, m: &HashMap<i64, usize>, id: i64) -> (r: (String, String))
    requires
        forall|x: i64|
            #[trigger] m@.contains_key(x) <==> last_row(files@, x, files.len() as int) is Some,
        forall|x: i64|
            #[trigger] m@.contains_key(x) ==> last_row(files@, x, files.len() as int) == Some(
                m@[x] as int,
            ),
    ensures
        r.0@ == path_of(files@, id),
        r.1@ == name_of(files@, id),
{
    match m.get(&id) {
        Some(j) => {
            proof {
                assert(last_row(files@, id, files.len() as int) == Some(*j as int));
                crate::reading_path::lemma_last_row_bound(files@, id, files.len() as int);
            }
            (files[*j].1.clone(), files[*j].2.clone())
        },
        None => (String::new(), String::new()),
    }
}

proof fn lemma_last_row_bound(files: Seq<FileInfoRow>, id: i64, k: int)
    requires
        k <= files.len(),
    ensures
        last_row(files, id, k) matches Some(j) ==> 0 <= j < k && files[j].0 == id,
    decreases k,
{
    if k > 0 {
        lemma_last_row_bound(files, id, k - 1);
    }
}


proof fn lemma_dedup_props(s: Seq<i64>)
    ensures
        forall|i: int, j: int| 0 <= i < j < dedup(s).len() ==> dedup(s)[i] != dedup(s)[j],
        forall|x: i64| #[trigger] dedup(s).contains(x) <==> s.contains(x),
        dedup(s).len() <= s.len(),
    decreases s.len(),
{
    if s.len() > 0 {
        let r = s.drop_last();
        lemma_dedup_props(r);
        assert forall|x: i64| #[trigger] dedup(s).contains(x) <==> s.contains(x) by {
            if s.contains(x) && x != s.last() {
                let t = choose|t: int| 0 <= t < s.len() && s[t] == x;
                assert(r[t] == x);
                assert(r.contains(x));
            }
            if r.contains(x) {
                let t = choose|t: int| 0 <= t < r.len() && r[t] == x;
                assert(s[t] == x);
            }
            if dedup(s).contains(x) && !dedup(r).contains(x) {
                assert(dedup(s).last() == s.last());
                assert(s[s.len() - 1] == x);
            }
            if s.contains(x) && x == s.last() && !dedup(r).contains(x) {
                assert(dedup(s)[dedup(s).len() - 1] == x);
            }
            if dedup(r).contains(x) && !dedup(s).contains(x) {
                let t = choose|t: int| 0 <= t < dedup(r).len() && dedup(r)[t] == x;
                assert(dedup(s)[t] == x);
            }
        }
    }
}

/// The entry points without repetition, first occurrence kept.
fn dedup_entries(entries: &Vec<i64>) -> (r: Vec<i64>)
    ensures
        r@ == dedup(entries@),
{
    let mut r: Vec<i64> = Vec::new();
    let mut i: usize = 0;
    while i < entries.len()
        invariant
            i <= entries.len(),
            r@ == dedup(entries@.take(i as int)),
        decreases entries.len() - i,
    {
        let x = entries[i];
        let mut found = false;
        let mut j: usize = 0;
        while j < r.len()
            invariant
                j <= r.len(),
                found <==> r@.take(j as int).contains(x),
            decreases r.len() - j,
        {
            if r[j] == x {
                found = true;
            }
            proof {
                assert(r@.take(j + 1) =~= r@.take(j as int).push(r@[j as int]));
                if r@.take(j as int).contains(x) {
                    let t = choose|t: int| 0 <= t < j && #[trigger] r@.take(j as int)[t] == x;
                    assert(r@.take(j + 1)[t] == x);
                }
                if r@[j as int] == x {
                    assert(r@.take(j + 1)[j as int] == x);
                }
                if r@.take(j + 1).contains(x) && r@[j as int] != x {
                    let t = choose|t: int| 0 <= t < j + 1 && #[trigger] r@.take(j + 1)[t] == x;
                    assert(r@.take(j as int)[t] == x);
                }
            }
            j = j + 1;
        }
        proof {
            assert(r@.take(j as int) =~= r@);
            assert(entries@.take(i + 1).drop_last() =~= entries@.take(i as int));
            assert(entries@.take(i + 1).last() == x);
        }
        if !found {
            r.push(x);
        }
        i = i + 1;
    }
    proof {
        assert(entries@.take(i as int) =~= entries@);
    }
    r
}

fn import_counts(edges: &Vec<(i64, i64)>) -> (m: HashMap<i64, usize>)
    ensures
        forall|id: i64| #[trigger] m@.contains_key(id) <==> is_target(edges@, id),
        forall|id: i64| #[trigger] m@.contains_key(id) ==> m@[id] == in_degree(edges@, id),
{
    let mut m: HashMap<i64, usize> = HashMap::new();
    let mut i: usize = 0;
    while i < edges.len()
        invariant
            i <= edges.len(),
            forall|id: i64| #[trigger] m@.contains_key(id) <==> is_target(edges@.take(i as int), id),
            forall|id: i64|
                #[trigger] m@.contains_key(id) ==> m@[id] == in_degree(edges@.take(i as int), id),
            forall|id: i64| !#[trigger] m@.contains_key(id) ==> in_degree(edges@.take(i as int), id) == 0,
            forall|id: i64| #[trigger] m@.contains_key(id) ==> m@[id] <= i,
        decreases edges.len() - i,
    {
        let t = edges[i].1;
        let cur: usize = match m.get(&t) {
            Some(c) => *c,
            None => 0,
        };
        proof {
            let e0 = edges@.take(i as int);
            let e1 = edges@.take(i + 1);
            assert(e1.drop_last() =~= e0);
            assert(e1.last() == edges@[i as int]);
            assert forall|id: i64| is_target(e1, id) <==> (is_target(e0, id) || id == t) by {
                if is_target(e1, id) {
                    let j = choose|j: int| 0 <= j < e1.len() && #[trigger] e1[j].1 == id;
                    if j < i {
                        assert(e0[j].1 == id);
                    }
                }
                if is_target(e0, id) {
                    let j = choose|j: int| 0 <= j < e0.len() && #[trigger] e0[j].1 == id;
                    assert(e1[j].1 == id);
                }
                if id == t {
                    assert(e1[i as int].1 == id);
                }
            }
        }
        m.insert(t, cur + 1);
        i = i + 1;
    }
    proof {
        assert(edges@.take(i as int) =~= edges@);
    }
    m
}

/// The distinct imported files in order of first import.
fn imported_files(edges: &Vec<(i64, i64)>) -> (r: Vec<i64>)
    ensures
        forall|i: int, j: int| 0 <= i < j < r.len() ==> r[i] != r[j],
        forall|t: i64| #[trigger] r@.contains(t) <==> is_target(edges@, t),
{
    let mut r: Vec<i64> = Vec::new();
    let mut seen: HashMap<i64, bool> = HashMap::new();
    let mut i: usize = 0;
    while i < edges.len()
        invariant
            i <= edges.len(),
            forall|a: int, b: int| 0 <= a < b < r.len() ==> r[a] != r[b],
            forall|t: i64| #[trigger] r@.contains(t) <==> is_target(edges@.take(i as int), t),
            forall|t: i64| #[trigger] seen@.contains_key(t) <==> r@.contains(t),
        decreases edges.len() - i,
    {
        let t = edges[i].1;
        let ghost e0 = edges@.take(i as int);
        let ghost e1 = edges@.take(i + 1);
        proof {
            assert forall|id: i64| is_target(e1, id) <==> (is_target(e0, id) || id == t) by {
                if is_target(e1, id) {
                    let j = choose|j: int| 0 <= j < e1.len() && #[trigger] e1[j].1 == id;
                    if j < i {
                        assert(e0[j].1 == id);
                    }
                }
                if is_target(e0, id) {
                    let j = choose|j: int| 0 <= j < e0.len() && #[trigger] e0[j].1 == id;
                    assert(e1[j].1 == id);
                }
                if id == t {
                    assert(e1[i as int].1 == id);
                }
            }
        }
        if !seen.contains_key(&t) {
            let ghost pre = r@;
            r.push(t);
            seen.insert(t, true);
            proof {
                assert forall|x: i64| #[trigger] r@.contains(x) <==> (pre.contains(x) || x == t) by {
                    if r@.contains(x) && x != t {
                        let q = choose|q: int| 0 <= q < r@.len() && r@[q] == x;
                        assert(pre[q] == x);
                    }
                    if pre.contains(x) {
                        let q = choose|q: int| 0 <= q < pre.len() && pre[q] == x;
                        assert(r@[q] == x);
                    }
                    if x == t {
                        assert(r@[r@.len() - 1] == t);
                    }
                }
                assert forall|a: int, b: int| 0 <= a < b < r.len() implies r[a] != r[b] by {
                    if b == r.len() - 1 {
                        assert(pre.contains(r[a]));
                    }
                }
            }
        }
        i = i + 1;
    }
    proof {
        assert(edges@.take(i as int) =~= edges@);
    }
    r
}

/// Up to `FALLBACK_SEEDS` most imported files, most imported first.
fn fallback_seeds(edges: &Vec<(i64, i64)>) -> (seeds: Vec<i64>)
    ensures
        fallback_seeds_ok(edges@, seeds@),
{
    let counts = import_counts(edges);
    let cands = imported_files(edges);
    let mut seeds: Vec<i64> = Vec::new();
    let mut chosen: Vec<bool> = Vec::new();
    let mut i: usize = 0;
    while i < cands.len()
        invariant
            i <= cands.len(),
            chosen.len() == i,
            forall|x: int| 0 <= x < i ==> !#[trigger] chosen@[x],
        decreases cands.len() - i,
    {
        chosen.push(false);
        i = i + 1;
    }
    let ghost e = edges@;
    let mut round: usize = 0;
    while round < FALLBACK_SEEDS
        invariant
            round <= FALLBACK_SEEDS,
            seeds.len() <= round,
            chosen.len() == cands.len(),
            forall|a: int, b: int| 0 <= a < b < cands.len() ==> cands[a] != cands[b],
            forall|t: i64| #[trigger] cands@.contains(t) <==> is_target(e, t),
            forall|id: i64| #[trigger] counts@.contains_key(id) <==> is_target(e, id),
            forall|id: i64| #[trigger] counts@.contains_key(id) ==> counts@[id] == in_degree(e, id),
            forall|x: int| 0 <= x < cands.len() ==> (#[trigger] chosen@[x] <==> seeds@.contains(cands[x])),
            forall|a: int, b: int| 0 <= a < b < seeds.len() ==> seeds[a] != seeds[b],
            forall|a: int| 0 <= a < seeds.len() ==> is_target(e, #[trigger] seeds[a]),
            seeds.len() < round ==> forall|t: i64| #[trigger] is_target(e, t) ==> seeds@.contains(t),
            forall|a: int, t: i64|
                0 <= a < seeds.len() && #[trigger] is_target(e, t) && !seeds@.contains(t) ==> in_degree(e, t)
                    <= in_degree(e, #[trigger] seeds[a]),
            forall|a: int, b: int| 0 <= a < b < seeds.len() ==> in_degree(e, #[trigger] seeds[b]) <= in_degree(
                e,
                #[trigger] seeds[a],
            ),
        decreases FALLBACK_SEEDS - round,
    {
        let mut best: Option<usize> = None;
        let mut j: usize = 0;
        while j < cands.len()
            invariant
                j <= cands.len(),
                chosen.len() == cands.len(),
                forall|id: i64| #[trigger] counts@.contains_key(id) <==> is_target(e, id),
                forall|id: i64| #[trigger] counts@.contains_key(id) ==> counts@[id] == in_degree(e, id),
                forall|t: i64| #[trigger] cands@.contains(t) <==> is_target(e, t),
                best matches Some(b) ==> b < j && !chosen@[b as int],
                best is None ==> forall|x: int| 0 <= x < j ==> #[trigger] chosen@[x],
                best matches Some(b) ==> forall|x: int|
                    0 <= x < j && !#[trigger] chosen@[x] ==> in_degree(e, cands[x]) <= in_degree(
                        e,
                        cands[b as int],
                    ),
            decreases cands.len() - j,
        {
            if !chosen[j] {
                proof {
                    assert(cands@.contains(cands[j as int]));
                }
                let cj = *counts.get(&cands[j]).unwrap();
                match best {
                    None => {
                        best = Some(j);
                    },
                    Some(b) => {
                        proof {
                            assert(cands@.contains(cands[b as int]));
                        }
                        let cb = *counts.get(&cands[b]).unwrap();
                        if cj > cb {
                            best = Some(j);
                        }
                    },
                }
            }
            j = j + 1;
        }
        match best {
            Some(b) => {
                let ghost pre = seeds@;
                let t = cands[b];
                proof {
                    assert(cands@.contains(t));
                    assert(!pre.contains(t));
                }
                seeds.push(t);
                chosen.set(b, true);
                proof {
                    assert forall|x: i64| #[trigger] seeds@.contains(x) <==> (pre.contains(x) || x == t) by {
                        if seeds@.contains(x) && x != t {
                            let q = choose|q: int| 0 <= q < seeds@.len() && seeds@[q] == x;
                            assert(pre[q] == x);
                        }
                        if pre.contains(x) {
                            let q = choose|q: int| 0 <= q < pre.len() && pre[q] == x;
                            assert(seeds@[q] == x);
                        }
                        if x == t {
                            assert(seeds@[seeds@.len() - 1] == t);
                        }
                    }
                    assert forall|x: int| 0 <= x < cands.len() implies (#[trigger] chosen@[x] <==> seeds@.contains(cands[x])) by {
                        if x != b {
                            assert(cands[x] != t);
                        }
                    }
                    assert forall|a: int, bb: int| 0 <= a < bb < seeds.len() implies seeds[a] != seeds[bb] by {
                        if bb == seeds.len() - 1 {
                            assert(pre.contains(seeds[a]));
                        }
                    }
                    assert forall|a: int, tt: i64|
                        0 <= a < seeds.len() && #[trigger] is_target(e, tt) && !seeds@.contains(tt) implies in_degree(e, tt)
                            <= in_degree(e, #[trigger] seeds[a]) by {
                        assert(cands@.contains(tt));
                        let x = choose|x: int| 0 <= x < cands.len() && cands[x] == tt;
                        assert(!chosen@[x]);
                        if a == seeds.len() - 1 {
                            assert(x != b);
                        } else {
                            assert(seeds[a] == pre[a]);
                        }
                    }
                    assert forall|a: int, bb: int| 0 <= a < bb < seeds.len() implies in_degree(e, #[trigger] seeds[bb])
                        <= in_degree(e, #[trigger] seeds[a]) by {
                        if bb == seeds.len() - 1 {
                            assert(seeds[a] == pre[a]);
                            assert(is_target(e, t));
                        }
                    }
                }
            },
            None => {
                proof {
                    assert forall|t: i64| #[trigger] is_target(e, t) implies seeds@.contains(t) by {
                        assert(cands@.contains(t));
                        let x = choose|x: int| 0 <= x < cands.len() && cands[x] == t;
                        assert(chosen@[x]);
                    }
                }
            },
        }
        round = round + 1;
    }
    seeds
}


/// Every later item reaches back to the earliest item importing it.
spec fn walk_ok(
    edges: Seq<(i64, i64)>,
    files: Seq<FileInfoRow>,
    g: IdGraph,
    seeds: Seq<i64>,
    sr: Seq<char>,
    items: Seq<ReadingPathItem>,
    nodes: Seq<usize>,
    labels: Seq<String>,
    visited: Seq<bool>,
    par: Seq<int>,
    h: int,
) -> bool {
    let k = seeds.len() as int;
    &&& nodes.len() == items.len() && labels.len() == items.len() && par.len() == items.len()
    &&& k <= items.len()
    &&& visited.len() == g.ids.len()
    &&& forall|i: int|
        0 <= i < items.len() ==> #[trigger] nodes[i] < g.ids.len() && g.ids[nodes[i] as int]
            == items[i].file_id
    &&& forall|i: int, j: int| 0 <= i < j < nodes.len() ==> nodes[i] != nodes[j]
    &&& forall|v: int| 0 <= v < visited.len() ==> (#[trigger] visited[v] <==> nodes.contains(v as usize))
    &&& forall|i: int|
        0 <= i < items.len() ==> (#[trigger] items[i]).order == i && items[i].relative_path@
            == path_of(files, items[i].file_id) && items[i].name@ == name_of(files, items[i].file_id)
            && 0 <= items[i].depth <= i
    &&& forall|i: int|
        0 <= i < k ==> (#[trigger] items[i]).file_id == seeds[i] && items[i].depth == 0
            && items[i].reason@ == sr && labels[i]@ == sr
    &&& forall|j: int|
        k <= j < items.len() ==> {
            &&& (#[trigger] labels[j])@ == items[j].relative_path@
            &&& 0 <= par[j] < j
            &&& par[j] <= h
            &&& has_id_edge(edges, items[par[j]].file_id, items[j].file_id)
            &&& items[j].depth == items[par[j]].depth + 1
            &&& items[j].reason@ == "imported by "@ + labels[par[j]]@
            &&& forall|i: int| 0 <= i < par[j] ==> !has_id_edge(edges, #[trigger] items[i].file_id, items[j].file_id)
        }
    &&& forall|j1: int, j2: int| k <= j1 < j2 < items.len() ==> #[trigger] par[j1] <= #[trigger] par[j2]
}

/// All files imported by the first `h` items are listed.
spec fn closed_upto(edges: Seq<(i64, i64)>, items: Seq<ReadingPathItem>, h: int) -> bool {
    forall|i: int, t: i64|
        0 <= i < h && #[trigger] has_id_edge(edges, items[i].file_id, t) ==> exists|j: int|
            0 <= j < items.len() && #[trigger] items[j].file_id == t
}

/// The earliest importer is unique.
proof fn lemma_parent_unique(edges: Seq<(i64, i64)>, items: Seq<ReadingPathItem>, p: int, q: int, j: int)
    requires
        is_parent(edges, items, p, j),
        is_parent(edges, items, q, j),
    ensures
        p == q,
{
    if p < q {
        assert(has_id_edge(edges, items[p].file_id, items[j].file_id));
    }
    if q < p {
        assert(has_id_edge(edges, items[q].file_id, items[j].file_id));
    }
}


/// Listing a newly found file keeps the walk consistent.
proof fn lemma_walk_push(
    edges: Seq<(i64, i64)>,
    files: Seq<FileInfoRow>,
    g: IdGraph,
    seeds: Seq<i64>,
    sr: Seq<char>,
    items: Seq<ReadingPathItem>,
    nodes: Seq<usize>,
    labels: Seq<String>,
    visited: Seq<bool>,
    par: Seq<int>,
    h: int,
    v: int,
    item: ReadingPathItem,
    label: String,
)
    requires
        g.represents(seeds, edges),
        walk_ok(edges, files, g, seeds, sr, items, nodes, labels, visited, par, h),
        closed_upto(edges, items, h),
        0 <= h < items.len(),
        0 <= v < g.ids.len(),
        !visited[v],
        has_id_edge(edges, items[h].file_id, g.ids[v]),
        item.order == items.len(),
        item.file_id == g.ids[v],
        item.relative_path@ == path_of(files, item.file_id),
        item.name@ == name_of(files, item.file_id),
        item.depth == items[h].depth + 1,
        item.reason@ == "imported by "@ + labels[h]@,
        label@ == item.relative_path@,
    ensures
        walk_ok(
            edges,
            files,
            g,
            seeds,
            sr,
            items.push(item),
            nodes.push(v as usize),
            labels.push(label),
            visited.update(v, true),
            par.push(h),
            h,
        ),
        closed_upto(edges, items.push(item), h),
{
    let items2 = items.push(item);
    let nodes2 = nodes.push(v as usize);
    let labels2 = labels.push(label);
    let visited2 = visited.update(v, true);
    let par2 = par.push(h);
    let n = items.len() as int;
    let k = seeds.len() as int;
    assert(items2[n] == item);
    assert forall|i: int| 0 <= i < n implies nodes[i] != v by {
        assert(nodes.contains(nodes[i]));
        if nodes[i] == v {
            assert(visited[v]);
        }
    }
    assert forall|x: int| 0 <= x < visited2.len() implies (#[trigger] visited2[x] <==> nodes2.contains(
        x as usize,
    )) by {
        if x != v {
            if nodes2.contains(x as usize) {
                let q = choose|q: int| 0 <= q < nodes2.len() && nodes2[q] == x as usize;
                assert(q < n);
                assert(nodes.contains(x as usize));
            }
            if nodes.contains(x as usize) {
                let q = choose|q: int| 0 <= q < nodes.len() && nodes[q] == x as usize;
                assert(nodes2[q] == x as usize);
            }
        } else {
            assert(nodes2[n] == v as usize);
        }
    }
    assert forall|i: int| 0 <= i < h implies !has_id_edge(edges, #[trigger] items[i].file_id, item.file_id) by {
        if has_id_edge(edges, items[i].file_id, item.file_id) {
            let j = choose|j: int| 0 <= j < items.len() && #[trigger] items[j].file_id == item.file_id;
            assert(g.ids[nodes[j] as int] == g.ids[v]);
            assert(nodes[j] == v);
        }
    }
    assert forall|j: int| k <= j < items2.len() implies {
        &&& (#[trigger] labels2[j])@ == items2[j].relative_path@
        &&& 0 <= par2[j] < j
        &&& par2[j] <= h
        &&& has_id_edge(edges, items2[par2[j]].file_id, items2[j].file_id)
        &&& items2[j].depth == items2[par2[j]].depth + 1
        &&& items2[j].reason@ == "imported by "@ + labels2[par2[j]]@
        &&& forall|i: int| 0 <= i < par2[j] ==> !has_id_edge(edges, #[trigger] items2[i].file_id, items2[j].file_id)
    } by {
        if j < n {
            assert(labels2[j] == labels[j]);
            assert(items2[j] == items[j]);
            assert(par2[j] == par[j]);
            assert forall|i: int| 0 <= i < par2[j] implies !has_id_edge(edges, #[trigger] items2[i].file_id, items2[j].file_id) by {
                assert(items2[i] == items[i]);
            }
        } else {
            assert(par2[j] == h);
            assert forall|i: int| 0 <= i < par2[j] implies !has_id_edge(edges, #[trigger] items2[i].file_id, items2[j].file_id) by {
                assert(items2[i] == items[i]);
            }
        }
    }
    assert forall|i: int|
        0 <= i < items2.len() implies #[trigger] nodes2[i] < g.ids.len() && g.ids[nodes2[i] as int]
            == items2[i].file_id by {
        if i < n {
            assert(items2[i] == items[i]);
            assert(nodes2[i] == nodes[i]);
        }
    }
    assert forall|i: int, j: int| 0 <= i < j < nodes2.len() implies nodes2[i] != nodes2[j] by {
        if j < n {
            assert(nodes2[i] == nodes[i]);
            assert(nodes2[j] == nodes[j]);
        } else {
            assert(nodes2[i] == nodes[i]);
        }
    }
    assert forall|i: int|
        0 <= i < items2.len() implies (#[trigger] items2[i]).order == i && items2[i].relative_path@
            == path_of(files, items2[i].file_id) && items2[i].name@ == name_of(files, items2[i].file_id)
            && 0 <= items2[i].depth <= i by {
        if i < n {
            assert(items2[i] == items[i]);
        } else {
            assert(items[h].depth <= h);
        }
    }
    assert forall|i: int|
        0 <= i < k implies (#[trigger] items2[i]).file_id == seeds[i] && items2[i].depth == 0
            && items2[i].reason@ == sr && labels2[i]@ == sr by {
        assert(items2[i] == items[i]);
        assert(labels2[i] == labels[i]);
    }
    assert forall|j1: int, j2: int| k <= j1 < j2 < items2.len() implies #[trigger] par2[j1] <= #[trigger] par2[j2] by {
        if j2 < n {
            assert(par2[j1] == par[j1]);
            assert(par2[j2] == par[j2]);
        } else {
            assert(par2[j1] == par[j1]);
            assert(labels[j1]@ == items[j1].relative_path@);
            assert(par2[j2] == h);
        }
    }
    assert forall|i: int, t: i64|
        0 <= i < h && #[trigger] has_id_edge(edges, items2[i].file_id, t) implies exists|j: int|
            0 <= j < items2.len() && #[trigger] items2[j].file_id == t by {
        assert(items2[i] == items[i]);
        let j = choose|j: int| 0 <= j < items.len() && #[trigger] items[j].file_id == t;
        assert(items2[j] == items[j]);
    }
}

/// Once every successor of item `h` is visited, its imports are all listed.
proof fn lemma_walk_close(
    edges: Seq<(i64, i64)>,
    files: Seq<FileInfoRow>,
    g: IdGraph,
    seeds: Seq<i64>,
    sr: Seq<char>,
    items: Seq<ReadingPathItem>,
    nodes: Seq<usize>,
    labels: Seq<String>,
    visited: Seq<bool>,
    par: Seq<int>,
    h: int,
)
    requires
        g.represents(seeds, edges),
        walk_ok(edges, files, g, seeds, sr, items, nodes, labels, visited, par, h),
        closed_upto(edges, items, h),
        0 <= h < items.len(),
        forall|q: int|
            0 <= q < g.adj@[nodes[h] as int]@.len() ==> #[trigger] visited[g.adj@[nodes[h] as int]@[q] as int],
    ensures
        closed_upto(edges, items, h + 1),
{
    assert forall|i: int, t: i64|
        0 <= i < h + 1 && #[trigger] has_id_edge(edges, items[i].file_id, t) implies exists|j: int|
            0 <= j < items.len() && #[trigger] items[j].file_id == t by {
        if i == h {
            let u = nodes[h] as int;
            let e = choose|e: int| 0 <= e < edges.len() && #[trigger] edges[e] == (items[h].file_id, t);
            let s = edges[e].0;
            assert(g.ids[u] == s);
            assert(g.index@.contains_key(g.ids[u]));
            let w = g.index@[s] as int;
            assert(w == u) by {
                assert(g.ids[w] == s);
            }
            assert(g.adj@[w]@.contains(g.index@[edges[e].1]));
            let q = choose|q: int| 0 <= q < g.adj@[u]@.len() && g.adj@[u]@[q] == g.index@[t];
            let x = g.adj@[u]@[q];
            assert(visited[x as int]);
            assert(x < g.ids.len()) by {
                assert(adj_view(g.adj@)[u][q] == x);
            }
            assert(nodes.contains(x));
            let j = choose|j: int| 0 <= j < nodes.len() && nodes[j] == x;
            assert(items[j].file_id == g.ids[x as int]);
            assert(g.index@.contains_key(t)) by {
                assert(is_node(seeds, edges, t)) by {
                    assert(edges[e].1 == t);
                }
            }
            assert(items[j].file_id == t);
        }
    }
}


/// The finished walk meets the reading path's promises.
proof fn lemma_walk_done(
    edges: Seq<(i64, i64)>,
    files: Seq<FileInfoRow>,
    entries: Seq<i64>,
    g: IdGraph,
    seeds: Seq<i64>,
    sr: Seq<char>,
    items: Seq<ReadingPathItem>,
    nodes: Seq<usize>,
    labels: Seq<String>,
    visited: Seq<bool>,
    par: Seq<int>,
    h: int,
)
    requires
        g.represents(seeds, edges),
        walk_ok(edges, files, g, seeds, sr, items, nodes, labels, visited, par, h),
        entries.len() > 0 ==> seeds == dedup(entries) && sr == "entry point"@,
        entries.len() == 0 ==> fallback_seeds_ok(edges, seeds) && sr == "highly imported module"@,
        items.len() <= if seeds.len() >= MAX_READING_PATH {
            seeds.len() + 1int
        } else {
            MAX_READING_PATH as int
        },
        items.len() < MAX_READING_PATH ==> closed_upto(edges, items, items.len() as int),
    ensures
        reading_path_ok(edges, files, entries, items, seeds.len() as int),
{
    let k = seeds.len() as int;
    assert forall|i: int, j: int| 0 <= i < j < items.len() implies items[i].file_id != items[j].file_id by {
        assert(g.ids[nodes[i] as int] == items[i].file_id);
        assert(g.ids[nodes[j] as int] == items[j].file_id);
        assert(nodes[i] != nodes[j]);
    }
    assert forall|j: int| k <= j < items.len() implies #[trigger] found_from_parent(edges, items, k, j) by {
        assert(labels[j]@ == items[j].relative_path@);
        let p = par[j];
        if p < k {
            assert(labels[p]@ == sr);
            assert(items[p].reason@ == sr);
        } else {
            assert(labels[p]@ == items[p].relative_path@);
        }
        assert(is_parent(edges, items, p, j));
    }
    assert forall|j1: int, j2: int, p1: int, p2: int|
        k <= j1 < j2 < items.len() && #[trigger] is_parent(edges, items, p1, j1) && #[trigger] is_parent(
            edges,
            items,
            p2,
            j2,
        ) implies p1 <= p2 by {
        assert(labels[j1]@ == items[j1].relative_path@);
        assert(labels[j2]@ == items[j2].relative_path@);
        assert(labels[j1]@ == items[j1].relative_path@);
        assert(labels[j2]@ == items[j2].relative_path@);
        assert(is_parent(edges, items, par[j1], j1));
        assert(is_parent(edges, items, par[j2], j2));
        lemma_parent_unique(edges, items, p1, par[j1], j1);
        lemma_parent_unique(edges, items, p2, par[j2], j2);
        assert(par[j1] <= par[j2]);
    }
    if entries.len() == 0 {
        assert(Seq::new(k as nat, |i: int| items[i].file_id) =~= seeds);
        assert(fallback_seeds_ok(edges, Seq::new(k as nat, |i: int| items[i].file_id)));
    }
    assert(0 <= k <= items.len());
    assert(forall|i: int| 0 <= i < items.len() ==> (#[trigger] items[i]).order == i);
    assert(forall|i: int|
        0 <= i < items.len() ==> (#[trigger] items[i]).relative_path@ == path_of(files, items[i].file_id)
            && items[i].name@ == name_of(files, items[i].file_id));
    assert(forall|i: int| 0 <= i < k ==> (#[trigger] items[i]).depth == 0);
    if entries.len() > 0 {
        assert(k == dedup(entries).len());
        assert(forall|i: int| 0 <= i < k ==> (#[trigger] items[i]).file_id == dedup(entries)[i]
                && items[i].reason@ == "entry point"@);
    } else {
        assert(forall|i: int| 0 <= i < k ==> (#[trigger] items[i]).reason@ == "highly imported module"@);
    }
    assert(items.len() <= if k >= MAX_READING_PATH {
        k + 1
    } else {
        MAX_READING_PATH as int
    });
    assert(forall|j1: int, j2: int, p1: int, p2: int|
        k <= j1 < j2 < items.len() && #[trigger] is_parent(edges, items, p1, j1) && #[trigger] is_parent(
            edges,
            items,
            p2,
            j2,
        ) ==> p1 <= p2);
    assert(forall|i: int, j: int| 0 <= i < j < items.len() ==> items[i].file_id != items[j].file_id);
    assert(items.len() < MAX_READING_PATH ==> forall|i: int, t: i64|
        0 <= i < items.len() && #[trigger] has_id_edge(edges, items[i].file_id, t) ==> exists|j: int|
            0 <= j < items.len() && #[trigger] items[j].file_id == t);
}

/// Siblings listed in adjacency order are listed in import order.
proof fn lemma_sibling_order(
    edges: Seq<(i64, i64)>,
    files: Seq<FileInfoRow>,
    g: IdGraph,
    seeds: Seq<i64>,
    sr: Seq<char>,
    items: Seq<ReadingPathItem>,
    nodes: Seq<usize>,
    labels: Seq<String>,
    visited: Seq<bool>,
    par: Seq<int>,
    pos: Seq<int>,
    h: int,
)
    requires
        g.represents(seeds, edges),
        walk_ok(edges, files, g, seeds, sr, items, nodes, labels, visited, par, h),
        order_ok(g, nodes, par, pos, seeds.len() as int),
    ensures
        siblings_in_import_order(edges, items, seeds.len() as int),
{
    let k = seeds.len() as int;
    assert forall|j1: int, j2: int, p: int|
        k <= j1 < j2 < items.len() && #[trigger] is_parent(edges, items, p, j1) && #[trigger] is_parent(
            edges,
            items,
            p,
            j2,
        ) implies imported_before(
        crate::id_graph::succ_ids(edges, items[p].file_id),
        items[j1].file_id,
        items[j2].file_id,
    ) by {
        assert(labels[j1]@ == items[j1].relative_path@);
        assert(labels[j2]@ == items[j2].relative_path@);
        assert(is_parent(edges, items, par[j1], j1));
        assert(is_parent(edges, items, par[j2], j2));
        lemma_parent_unique(edges, items, p, par[j1], j1);
        lemma_parent_unique(edges, items, p, par[j2], j2);
        assert(par[j1] == par[j2]);
        assert(pos[j1] < pos[j2]);
        let u = nodes[p];
        let a = g.adj@[u as int]@;
        assert(u < g.ids.len() && g.ids[u as int] == items[p].file_id);
        let sids = crate::id_graph::succ_ids(edges, items[p].file_id);
        assert(a.map_values(|kk: usize| g.ids[kk as int]) == sids);
        let r1 = pos[j1];
        assert(a[r1] == nodes[j1]);
        assert(sids[r1] == g.ids[nodes[j1] as int]);
        assert(g.ids[nodes[j1] as int] == items[j1].file_id);
        assert forall|x: int| 0 <= x <= r1 implies #[trigger] sids[x] != items[j2].file_id by {
            assert(a[x] != nodes[j2]);
            assert(sids[x] == g.ids[a[x] as int]);
            assert(crate::digraph::well_formed(adj_view(g.adj@)));
            assert(adj_view(g.adj@)[u as int][x] == a[x]);
            assert(a[x] < g.ids.len());
            assert(g.ids[nodes[j2] as int] == items[j2].file_id);
        }
    }
}

/// Recommends an order for reading a workspace: the entry points (or,
/// without any, the most imported files) first, then the files they import,
/// breadth-first, each one found from the earliest listed file importing it.
/// The path stops growing at `MAX_READING_PATH` files.
///
/// `edges` are the resolved internal imports (importer, imported);
/// `files` the workspace's files (id, relative path, name).
#[verifier::spinoff_prover]
#[verifier::rlimit(60)]
pub fn generate_reading_path(
    edges: &Vec<(i64, i64)>,
    files: &Vec<FileInfoRow>,
    entry_file_ids: &Vec<i64>,
) -> (items: Vec<ReadingPathItem>)
    requires
        entry_file_ids.len() < i64::MAX,
    ensures
        exists|k: int|
            reading_path_ok(edges@, files@, entry_file_ids@, items@, k) && siblings_in_import_order(edges@, items@, k),
{
    let has_entries = entry_file_ids.len() > 0;
    let seeds: Vec<i64> = if has_entries {
        dedup_entries(entry_file_ids)
    } else {
        fallback_seeds(edges)
    };
    proof {
        lemma_dedup_props(entry_file_ids@);
    }
    let seed_reason: &str = if has_entries {
        "entry point"
    } else {
        "highly imported module"
    };
    let g = build_id_graph(&seeds, edges);
    let index = file_index(files);
    let n = g.ids.len();
    let mut visited: Vec<bool> = Vec::new();
    while visited.len() < n
        invariant
            visited.len() <= n,
            forall|v: int| 0 <= v < visited.len() ==> !#[trigger] visited@[v],
        decreases n - visited.len(),
    {
        visited.push(false);
    }
    let ghost k = seeds.len() as int;
    let mut items: Vec<ReadingPathItem> = Vec::new();
    let mut nodes: Vec<usize> = Vec::new();
    let mut labels: Vec<String> = Vec::new();
    let ghost mut par: Seq<int> = Seq::empty();
    let ghost mut pos: Seq<int> = Seq::empty();
    let mut i: usize = 0;
    while i < seeds.len()
        invariant
            i <= seeds.len(),
            k == seeds.len(),
            seeds.len() <= entry_file_ids.len() || seeds.len() <= FALLBACK_SEEDS,
            entry_file_ids.len() < i64::MAX,
            forall|a: int, b: int| 0 <= a < b < seeds.len() ==> seeds[a] != seeds[b],
            g.represents(seeds@, edges@),
            n == g.ids.len(),
            forall|x: i64|
                #[trigger] index@.contains_key(x) <==> last_row(files@, x, files.len() as int) is Some,
            forall|x: i64|
                #[trigger] index@.contains_key(x) ==> last_row(files@, x, files.len() as int) == Some(
                    index@[x] as int,
                ),
            items.len() == i,
            pos.len() == i,
            walk_ok(
                edges@,
                files@,
                g,
                seeds@.take(i as int),
                seed_reason@,
                items@,
                nodes@,
                labels@,
                visited@,
                par,
                0,
            ),
        decreases seeds.len() - i,
    {
        let s = seeds[i];
        proof {
            assert(g.index@.contains_key(seeds@[i as int]));
        }
        let v = *g.index.get(&s).unwrap();
        proof {
            if visited@[v as int] {
                let j = choose|j: int| 0 <= j < nodes@.len() && nodes@[j] == v;
                assert(items@[j].file_id == seeds@.take(i as int)[j]);
            }
        }
        visited.set(v, true);
        let (path, name) = lookup(files, &index, s);
        let item = ReadingPathItem {
            order: i as i64,
            file_id: s,
            relative_path: path,
            name: name,
            depth: 0,
            reason: String::from_str(seed_reason),
        };
        let ghost items0 = items@;
        let ghost nodes0 = nodes@;
        let ghost labels0 = labels@;
        let ghost visited0 = visited@;
        items.push(item);
        labels.push(String::from_str(seed_reason));
        nodes.push(v);
        proof {
            par = par.push(0);
            pos = pos.push(0);
            let t0 = seeds@.take(i as int);
            let t1 = seeds@.take(i + 1);
            assert forall|x: int| 0 <= x < visited@.len() implies (#[trigger] visited@[x] <==> nodes@.contains(
                x as usize,
            )) by {
                if x != v {
                    assert(visited@[x] == visited0[x]);
                    if nodes@.contains(x as usize) {
                        let q = choose|q: int| 0 <= q < nodes@.len() && nodes@[q] == x as usize;
                        assert(nodes0[q] == x as usize);
                    }
                    if nodes0.contains(x as usize) {
                        let q = choose|q: int| 0 <= q < nodes0.len() && nodes0[q] == x as usize;
                        assert(nodes@[q] == x as usize);
                    }
                } else {
                    assert(nodes@[i as int] == v);
                }
            }
            assert forall|a: int, b: int| 0 <= a < b < nodes@.len() implies nodes@[a] != nodes@[b] by {
                if b == i {
                    assert(nodes0.contains(nodes0[a]));
                }
            }
            assert forall|a: int|
                0 <= a < items@.len() implies #[trigger] nodes@[a] < g.ids.len() && g.ids[nodes@[a] as int]
                    == items@[a].file_id by {
                if a < i {
                    assert(items@[a] == items0[a]);
                }
            }
            assert forall|a: int|
                0 <= a < items@.len() implies (#[trigger] items@[a]).order == a && items@[a].relative_path@
                    == path_of(files@, items@[a].file_id) && items@[a].name@ == name_of(files@, items@[a].file_id)
                    && 0 <= items@[a].depth <= a by {
                if a < i {
                    assert(items@[a] == items0[a]);
                }
            }
            assert forall|a: int|
                0 <= a < t1.len() implies (#[trigger] items@[a]).file_id == t1[a] && items@[a].depth == 0
                    && items@[a].reason@ == seed_reason@ && labels@[a]@ == seed_reason@ by {
                if a < i {
                    assert(items@[a] == items0[a]);
                    assert(labels@[a] == labels0[a]);
                    assert(t1[a] == t0[a]);
                }
            }
        }
        i = i + 1;
    }
    proof {
        assert(seeds@.take(i as int) =~= seeds@);
    }
    let mut h: usize = 0;
    while h < items.len() && (h == 0 || items.len() < MAX_READING_PATH)
        invariant
            k == seeds.len(),
            seeds.len() <= entry_file_ids.len() || seeds.len() <= FALLBACK_SEEDS,
            entry_file_ids.len() < i64::MAX,
            g.represents(seeds@, edges@),
            n == g.ids.len(),
            forall|x: i64|
                #[trigger] index@.contains_key(x) <==> last_row(files@, x, files.len() as int) is Some,
            forall|x: i64|
                #[trigger] index@.contains_key(x) ==> last_row(files@, x, files.len() as int) == Some(
                    index@[x] as int,
                ),
            walk_ok(edges@, files@, g, seeds@, seed_reason@, items@, nodes@, labels@, visited@, par, h as int),
            order_ok(g, nodes@, par, pos, k),
            forall|j: int| k <= j < nodes@.len() ==> #[trigger] par[j] < h,
            h <= items.len(),
            h == 0 ==> items.len() == k,
            (h == 0 || items.len() < MAX_READING_PATH) ==> closed_upto(edges@, items@, h as int),
            items.len() <= if k >= MAX_READING_PATH {
                k + 1
            } else {
                MAX_READING_PATH as int
            },
        decreases (if k >= MAX_READING_PATH {
            k + 1
        } else {
            MAX_READING_PATH as int
        }) - h,
    {
        let u = nodes[h];
        let mut q: usize = 0;
        let mut stop = false;
        while q < g.adj[u].len() && !stop
            invariant
                k == seeds.len(),
                seeds.len() <= entry_file_ids.len() || seeds.len() <= FALLBACK_SEEDS,
                entry_file_ids.len() < i64::MAX,
                g.represents(seeds@, edges@),
                n == g.ids.len(),
                forall|x: i64|
                    #[trigger] index@.contains_key(x) <==> last_row(files@, x, files.len() as int) is Some,
                forall|x: i64|
                    #[trigger] index@.contains_key(x) ==> last_row(files@, x, files.len() as int) == Some(
                        index@[x] as int,
                    ),
                walk_ok(edges@, files@, g, seeds@, seed_reason@, items@, nodes@, labels@, visited@, par, h as int),
                order_ok(g, nodes@, par, pos, k),
                forall|j: int| k <= j < nodes@.len() ==> #[trigger] par[j] <= h,
                forall|j: int| k <= j < nodes@.len() && #[trigger] par[j] == h ==> pos[j] < q,
                h < items.len(),
                u == nodes@[h as int],
                u < n,
                q <= g.adj@[u as int]@.len(),
                closed_upto(edges@, items@, h as int),
                !stop ==> forall|r: int| 0 <= r < q ==> #[trigger] visited@[g.adj@[u as int]@[r] as int],
                !stop ==> (items.len() < MAX_READING_PATH || items.len() == k),
                stop ==> items.len() >= MAX_READING_PATH,
                items.len() <= if k >= MAX_READING_PATH {
                    k + 1
                } else {
                    MAX_READING_PATH as int
                },
            decreases g.adj@[u as int]@.len() - q,
        {
            let v = g.adj[u][q];
            proof {
                assert(adj_view(g.adj@)[u as int][q as int] == v);
            }
            if !visited[v] {
                proof {
                    assert(has_id_edge(edges@, g.ids[u as int], g.ids[g.adj@[u as int]@[q as int] as int]));
                }
                let ghost visited0 = visited@;
                visited.set(v, true);
                let t = g.ids[v];
                let (path, name) = lookup(files, &index, t);
                let lbl = path.clone();
                let reason = String::from_str("imported by ").concat(labels[h].as_str());
                let d = items[h].depth + 1;
                let ord = items.len() as i64;
                let item = ReadingPathItem {
                    order: ord,
                    file_id: t,
                    relative_path: path,
                    name: name,
                    depth: d,
                    reason: reason,
                };
                let ghost items0 = items@;
                let ghost nodes0 = nodes@;
                let ghost labels0 = labels@;
                let ghost par0 = par;
                items.push(item);
                labels.push(lbl);
                nodes.push(v);
                proof {
                    let ghost pos0 = pos;
                    par = par.push(h as int);
                    pos = pos.push(q as int);
                    assert(nodes@ == nodes0.push(v));
                    assert forall|r: int| 0 <= r < q implies g.adj@[u as int]@[r] != v by {
                        assert(visited0[g.adj@[u as int]@[r] as int]);
                    }
                    assert forall|j: int| k <= j < nodes@.len() implies {
                        let a = g.adj@[nodes@[par[j]] as int]@;
                        &&& 0 <= #[trigger] pos[j] < a.len()
                        &&& a[pos[j]] == nodes@[j]
                        &&& forall|r: int| 0 <= r < pos[j] ==> a[r] != nodes@[j]
                    } by {
                        if j < nodes0.len() {
                            assert(labels0[j]@ == items0[j].relative_path@);
                            assert(0 <= par0[j] < j);
                            assert(par[j] == par0[j] && pos[j] == pos0[j] && nodes@[j] == nodes0[j]);
                            assert(nodes@[par[j]] == nodes0[par0[j]]);
                        } else {
                            assert(par[j] == h && pos[j] == q && nodes@[j] == v);
                            assert(nodes@[h as int] == u);
                        }
                    }
                    assert forall|j1: int, j2: int|
                        k <= j1 < j2 < nodes@.len() && #[trigger] par[j1] == #[trigger] par[j2] implies pos[j1] < pos[j2] by {
                        if j2 < nodes0.len() {
                            assert(par[j1] == par0[j1] && par[j2] == par0[j2]);
                            assert(pos[j1] == pos0[j1] && pos[j2] == pos0[j2]);
                        } else {
                            assert(par[j1] == par0[j1] && pos[j1] == pos0[j1]);
                        }
                    }
                    assert(order_ok(g, nodes@, par, pos, k));
                    lemma_walk_push(
                        edges@,
                        files@,
                        g,
                        seeds@,
                        seed_reason@,
                        items0,
                        nodes0,
                        labels0,
                        visited0,
                        par0,
                        h as int,
                        v as int,
                        item,
                        lbl,
                    );
                }
                if items.len() >= MAX_READING_PATH {
                    stop = true;
                }
            }
            q = q + 1;
        }
        proof {
            if !stop {
                lemma_walk_close(
                    edges@,
                    files@,
                    g,
                    seeds@,
                    seed_reason@,
                    items@,
                    nodes@,
                    labels@,
                    visited@,
                    par,
                    h as int,
                );
            }
        }
        h = h + 1;
    }
    proof {
        lemma_walk_done(
            edges@,
            files@,
            entry_file_ids@,
            g,
            seeds@,
            seed_reason@,
            items@,
            nodes@,
            labels@,
            visited@,
            par,
            h as int,
        );
        lemma_sibling_order(
            edges@,
            files@,
            g,
            seeds@,
            seed_reason@,
            items@,
            nodes@,
            labels@,
            visited@,
            par,
            pos,
            h as int,
        );
    }
    items
}

} // verus!
