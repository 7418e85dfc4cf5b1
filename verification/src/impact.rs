//! Change impact of a symbol: which symbols depend on it through resolved
//! call references, and whether those dependencies are cyclic.
use vstd::prelude::*;

use crate::digraph::{
    closed_black, find_cycles_from, ints, is_black, is_cycle, is_path, is_simple_cycle,
    lemma_black_no_reachable_cycle, reaches, reaches_cycle,
};
use crate::id_graph::{
    build_id_graph, id_reaches, is_id_path, is_id_walk_cycle, lemma_cycle_to_ids,
    lemma_id_cycle_to_index, lemma_id_path_to_index, lemma_path_to_ids, IdGraph,
};

verus! {

broadcast use vstd::std_specs::hash::group_hash_axioms;

/// An item potentially affected by a change to a given symbol.
#[derive(Debug)]
pub struct AffectedItem {
    /// "symbol" or "file".
    pub kind: String,
    pub id: i64,
    pub name: String,
    pub path: String,
    pub depth: i64,
    pub is_exported: bool,
    pub has_cycles: bool,
    pub reason: String,
}

/// Each reference `(caller, callee)` seen from the callee: `(callee, caller)`.
pub open spec fn dependents_edges(refs: Seq<(i64, i64)>) -> Seq<(i64, i64)> {
    Seq::new(refs.len(), |i: int| (refs[i].1, refs[i].0))
}

/// Following references from callees to their callers, `start` reaches a
/// cycle.
pub open spec fn reaches_dependency_cycle(refs: Seq<(i64, i64)>, start: i64) -> bool {
    exists|c: Seq<i64>|
        #[trigger] is_id_walk_cycle(dependents_edges(refs), c) && id_reaches(
            dependents_edges(refs),
            start,
            c[0],
        )
}

fn reverse_refs(refs: &Vec<(i64, i64)>) -> (r: Vec<(i64, i64)>)
    ensures
        r@ == dependents_edges(refs@),
{
    let mut r: Vec<(i64, i64)> = Vec::new();
    let mut i: usize = 0;
    while i < refs.len()
        invariant
            i <= refs.len(),
            r@ == dependents_edges(refs@.take(i as int)),
        decreases refs.len() - i,
    {
        let (caller, callee) = refs[i];
        r.push((callee, caller));
        i = i + 1;
        proof {
            assert(r@ =~= dependents_edges(refs@.take(i as int)));
        }
    }
    proof {
        assert(refs@.take(i as int) =~= refs@);
    }
    r
}

/// Whether a depth-first search from `start` along the caller direction of
/// the resolved references `refs` (caller symbol id, callee symbol id)
/// meets a cycle: true exactly when some cycle of callers is reachable
/// from `start`.
pub fn detect_cycle(refs: &Vec<(i64, i64)>, start: i64) -> (r: bool)
    ensures
        r == reaches_dependency_cycle(refs@, start),
{
    let rev = reverse_refs(refs);
    let mut extra: Vec<i64> = Vec::new();
    extra.push(start);
    let g = build_id_graph(&extra, &rev);
    proof {
        assert(extra@[0] == start);
        assert(g.index@.contains_key(start));
    }
    let s = *g.index.get(&start).unwrap();
    let mut order: Vec<usize> = Vec::new();
    order.push(s);
    let cycles = find_cycles_from(&g.adj, &order, 1);
    let found = cycles.len() > 0;
    proof {
        assert(extra@[0] == start);
        assert(g.index@.contains_key(start));
        assert(g.ids[s as int] == start);
        if found {
            let c = ints(cycles@[0]@);
            assert(is_simple_cycle(g.g(), c));
            let k = choose|k: int|
                0 <= k < order@.len() && reaches(g.g(), order@[k] as int, cycles@[0]@[0] as int);
            assert(order@[k] == s);
            let p = choose|p: Seq<int>| #[trigger] is_path(g.g(), p) && p[0] == s as int && p.last() == c[0];
            lemma_path_to_ids(&g, extra@, rev@, p);
            lemma_cycle_to_ids(&g, extra@, rev@, c);
            let pid = p.map_values(|x: int| g.ids[x]);
            let cid = c.map_values(|x: int| g.ids[x]);
            assert(pid[0] == start);
            assert(pid.last() == cid[0]);
            assert(is_id_walk_cycle(rev@, cid) && id_reaches(rev@, start, cid[0]));
        } else {
            let (visited, on_stack) = choose|visited: Seq<bool>, on_stack: Seq<bool>|
                {
                    &&& #[trigger] closed_black(g.g(), visited, on_stack)
                    &&& visited.len() == g.adj.len()
                    &&& on_stack.len() == g.adj.len()
                    &&& forall|i: int|
                        0 <= i < order.len() ==> is_black(visited, on_stack, #[trigger] order@[i] as int)
                };
            assert(is_black(visited, on_stack, order@[0] as int));
            lemma_black_no_reachable_cycle(g.g(), visited, on_stack, s as int);
            assert forall|cid: Seq<i64>|
                !(#[trigger] is_id_walk_cycle(rev@, cid) && id_reaches(rev@, start, cid[0])) by {
                if is_id_walk_cycle(rev@, cid) && id_reaches(rev@, start, cid[0]) {
                    let c = lemma_id_cycle_to_index(&g, extra@, rev@, cid);
                    let pid = choose|pid: Seq<i64>| #[trigger] is_id_path(rev@, pid) && pid[0] == start && pid.last() == cid[0];
                    let p = lemma_id_path_to_index(&g, extra@, rev@, pid);
                    assert(p[0] == s as int);
                    assert(g.index@.contains_key(cid[0]));
                    assert(p.last() == p[p.len() - 1]);
                    assert(p[p.len() - 1] == g.index@[pid[pid.len() - 1]] as int);
                    assert(c[0] == g.index@[cid[0]] as int) by {
                        assert(g.ids[c[0]] == cid[0]);
                        assert(0 <= c[0] < g.ids.len());
                    }
                    assert(reaches(g.g(), s as int, c[0]));
                    assert(reaches_cycle(g.g(), s as int));
                }
            }
        }
    }
    found
}


/// Maximum number of caller steps followed from the changed symbol.
pub const MAX_IMPACT_DEPTH: u64 = 5;

/// The symbols that depend on a changed symbol.
#[derive(Debug)]
pub struct Dependents {
    /// Dependent symbol ids in the order the search reached them; the
    /// changed symbol itself is never listed.
    pub ids: Vec<i64>,
    /// For each id, the length of its shortest chain of callers.
    pub depths: Vec<u64>,
    /// How many dependents call the changed symbol directly.
    pub direct: usize,
}

/// `x` is reached from `s` by a walk of exactly `d` steps.
pub open spec fn id_walk_len(edges: Seq<(i64, i64)>, s: i64, x: i64, d: int) -> bool {
    exists|p: Seq<i64>| #[trigger] is_id_path(edges, p) && p.len() == d + 1 && p[0] == s && p.last() == x
}

pub open spec fn walk_len(g: Seq<Seq<usize>>, s: int, x: int, d: int) -> bool {
    exists|p: Seq<int>| #[trigger] is_path(g, p) && p.len() == d + 1 && p[0] == s && p.last() == x
}

/// Number of entries equal to `v`.
pub open spec fn count_eq(s: Seq<u64>, v: u64) -> nat
    decreases s.len(),
{
    if s.len() == 0 {
        0
    } else {
        count_eq(s.drop_last(), v) + if s.last() == v {
            1nat
        } else {
            0nat
        }
    }
}

/// `x` is reached from `s` by a walk of at most `d` steps.
pub open spec fn reach_within(g: Seq<Seq<usize>>, s: int, x: int, d: int) -> bool {
    exists|k: int| 0 <= k <= d && #[trigger] walk_len(g, s, x, k)
}

/// The shortest walk from `s` to `x` has `d` steps.
pub open spec fn shortest(g: Seq<Seq<usize>>, s: int, x: int, d: int) -> bool {
    &&& walk_len(g, s, x, d)
    &&& forall|k: int| 0 <= k < d ==> !#[trigger] walk_len(g, s, x, k)
}

/// `x` is reached from `s` by a walk of at most `d` steps along `edges`.
pub open spec fn id_within(edges: Seq<(i64, i64)>, s: i64, x: i64, d: int) -> bool {
    exists|k: int| 0 <= k <= d && #[trigger] id_walk_len(edges, s, x, k)
}

/// What the dependents search guarantees about its result: the dependents
/// are exactly the symbols within `MAX_IMPACT_DEPTH` caller steps, each
/// once, with the length of its shortest chain of callers.
pub open spec fn dependents_ok(refs: Seq<(i64, i64)>, symbol_id: i64, r: Dependents) -> bool {
    let e = dependents_edges(refs);
    &&& r.ids.len() == r.depths.len()
    &&& forall|i: int, j: int| 0 <= i < j < r.ids.len() ==> r.ids[i] != r.ids[j]
    &&& forall|i: int| 0 <= i < r.ids.len() ==> #[trigger] r.ids[i] != symbol_id
    &&& forall|i: int|
        0 <= i < r.ids.len() ==> 1 <= #[trigger] r.depths[i] <= MAX_IMPACT_DEPTH && id_walk_len(
            e,
            symbol_id,
            r.ids[i],
            r.depths[i] as int,
        )
    &&& forall|i: int, k: int|
        0 <= i < r.ids.len() && 0 <= k < r.depths[i] ==> !#[trigger] id_walk_len(e, symbol_id, r.ids[i], k)
    &&& forall|y: i64|
        y != symbol_id && #[trigger] id_within(e, symbol_id, y, MAX_IMPACT_DEPTH as int) ==> r.ids@.contains(y)
    &&& r.direct == count_eq(r.depths@, 1)
}

/// The symbols within `MAX_IMPACT_DEPTH` caller steps of `symbol_id`.
pub open spec fn dependent_set(refs: Seq<(i64, i64)>, symbol_id: i64) -> Set<i64> {
    Set::new(
        |y: i64|
            y != symbol_id && id_within(dependents_edges(refs), symbol_id, y, MAX_IMPACT_DEPTH as int),
    )
}

/// The symbols that call `symbol_id` directly.
pub open spec fn direct_set(refs: Seq<(i64, i64)>, symbol_id: i64) -> Set<i64> {
    Set::new(|y: i64| y != symbol_id && id_walk_len(dependents_edges(refs), symbol_id, y, 1))
}

/// The ids among the first `n` whose depth is one, in order.
spec fn depth_one_ids(ids: Seq<i64>, depths: Seq<u64>, n: int) -> Seq<i64>
    decreases n,
{
    if n <= 0 {
        Seq::empty()
    } else {
        let rest = depth_one_ids(ids, depths, n - 1);
        if depths[n - 1] == 1 {
            rest.push(ids[n - 1])
        } else {
            rest
        }
    }
}

proof fn lemma_depth_one_ids(ids: Seq<i64>, depths: Seq<u64>, n: int)
    requires
        0 <= n <= ids.len(),
        ids.len() == depths.len(),
        ids.no_duplicates(),
    ensures
        depth_one_ids(ids, depths, n).len() == count_eq(depths.take(n), 1),
        depth_one_ids(ids, depths, n).no_duplicates(),
        forall|x: i64|
            #[trigger] depth_one_ids(ids, depths, n).contains(x) <==> exists|i: int|
                0 <= i < n && ids[i] == x && depths[i] == 1,
    decreases n,
{
    if n > 0 {
        lemma_depth_one_ids(ids, depths, n - 1);
        assert(depths.take(n).drop_last() =~= depths.take(n - 1));
        let rest = depth_one_ids(ids, depths, n - 1);
        let cur = depth_one_ids(ids, depths, n);
        if depths[n - 1] == 1 {
            assert(!rest.contains(ids[n - 1])) by {
                if rest.contains(ids[n - 1]) {
                    let i = choose|i: int| 0 <= i < n - 1 && ids[i] == ids[n - 1] && depths[i] == 1;
                }
            }
            assert forall|a: int, b: int| 0 <= a < cur.len() && 0 <= b < cur.len() && a != b implies cur[a]
                != cur[b] by {
                if a < rest.len() && b < rest.len() {
                    assert(cur[a] == rest[a] && cur[b] == rest[b]);
                } else if a < rest.len() {
                    assert(cur[a] == rest[a]);
                    assert(rest.contains(rest[a]));
                } else if b < rest.len() {
                    assert(cur[b] == rest[b]);
                    assert(rest.contains(rest[b]));
                }
            }
            assert forall|x: i64| #[trigger] cur.contains(x) <==> exists|i: int|
                0 <= i < n && ids[i] == x && depths[i] == 1 by {
                if cur.contains(x) {
                    let j = choose|j: int| 0 <= j < cur.len() && cur[j] == x;
                    if j < rest.len() {
                        assert(rest[j] == x);
                        assert(rest.contains(x));
                    }
                }
                if exists|i: int| 0 <= i < n && ids[i] == x && depths[i] == 1 {
                    let i = choose|i: int| 0 <= i < n && ids[i] == x && depths[i] == 1;
                    if i < n - 1 {
                        assert(rest.contains(x));
                        let j = choose|j: int| 0 <= j < rest.len() && rest[j] == x;
                        assert(cur[j] == x);
                    } else {
                        assert(cur[cur.len() - 1] == x);
                    }
                }
            }
        } else {
            assert forall|x: i64| #[trigger] cur.contains(x) <==> exists|i: int|
                0 <= i < n && ids[i] == x && depths[i] == 1 by {
                if exists|i: int| 0 <= i < n && ids[i] == x && depths[i] == 1 {
                    let i = choose|i: int| 0 <= i < n && ids[i] == x && depths[i] == 1;
                    assert(i < n - 1);
                }
            }
        }
    }
}

/// The dependents search lists every symbol within `MAX_IMPACT_DEPTH`
/// caller steps exactly once, and counts every direct caller exactly once.
pub proof fn lemma_dependents_counts(refs: Seq<(i64, i64)>, symbol_id: i64, r: Dependents)
    requires
        dependents_ok(refs, symbol_id, r),
    ensures
        dependent_set(refs, symbol_id).finite(),
        r.ids.len() == dependent_set(refs, symbol_id).len(),
        direct_set(refs, symbol_id).finite(),
        r.direct == direct_set(refs, symbol_id).len(),
{
    let e = dependents_edges(refs);
    let ids = r.ids@;
    let depths = r.depths@;
    assert(ids.no_duplicates()) by {
        assert forall|i: int, j: int| 0 <= i < ids.len() && 0 <= j < ids.len() && i != j implies ids[i]
            != ids[j] by {
            if i < j {
                assert(r.ids[i] != r.ids[j]);
            } else {
                assert(r.ids[j] != r.ids[i]);
            }
        }
    }
    assert(ids.to_set() =~= dependent_set(refs, symbol_id)) by {
        assert forall|y: i64| #[trigger] ids.to_set().contains(y) implies dependent_set(refs, symbol_id).contains(y) by {
            let i = choose|i: int| 0 <= i < ids.len() && ids[i] == y;
            assert(r.ids[i] == y);
            assert(id_walk_len(e, symbol_id, y, r.depths[i] as int));
        }
        assert forall|y: i64| #[trigger] dependent_set(refs, symbol_id).contains(y) implies ids.to_set().contains(y) by {
            assert(id_within(e, symbol_id, y, MAX_IMPACT_DEPTH as int));
            assert(r.ids@.contains(y));
        }
    }
    ids.unique_seq_to_set();
    let n = ids.len() as int;
    lemma_depth_one_ids(ids, depths, n);
    assert(depths.take(n) =~= depths);
    let ones = depth_one_ids(ids, depths, n);
    assert(ones.to_set() =~= direct_set(refs, symbol_id)) by {
        assert forall|y: i64| #[trigger] ones.to_set().contains(y) implies direct_set(refs, symbol_id).contains(y) by {
            assert(ones.contains(y));
            let i = choose|i: int| 0 <= i < n && ids[i] == y && depths[i] == 1;
            assert(r.ids[i] == y && r.depths[i] == 1);
        }
        assert forall|y: i64| #[trigger] direct_set(refs, symbol_id).contains(y) implies ones.to_set().contains(y) by {
            assert(id_walk_len(e, symbol_id, y, 1));
            assert(id_within(e, symbol_id, y, MAX_IMPACT_DEPTH as int));
            assert(r.ids@.contains(y));
            let i = choose|i: int| 0 <= i < ids.len() && ids[i] == y;
            assert(r.ids[i] == y);
            assert(1 <= r.depths[i]);
            if r.depths[i] > 1 {
                assert(!id_walk_len(e, symbol_id, r.ids[i], 1));
            }
            assert(ones.contains(y));
        }
    }
    ones.unique_seq_to_set();
}

proof fn lemma_walk_extend(g: Seq<Seq<usize>>, s: int, w: int, k: int, x: int)
    requires
        walk_len(g, s, w, k),
        crate::digraph::has_edge(g, w, x),
        0 <= x < g.len(),
    ensures
        walk_len(g, s, x, k + 1),
{
    let p = choose|p: Seq<int>| #[trigger] is_path(g, p) && p.len() == k + 1 && p[0] == s && p.last() == w;
    let q = p.push(x);
    assert(q[p.len() - 1] == w);
    assert(is_path(g, q));
    assert(q[0] == s && q.last() == x);
}

proof fn lemma_walk_pred(g: Seq<Seq<usize>>, s: int, x: int, k: int) -> (w: int)
    requires
        k >= 0,
        walk_len(g, s, x, k + 1),
    ensures
        walk_len(g, s, w, k),
        crate::digraph::has_edge(g, w, x),
        0 <= w < g.len(),
{
    let p = choose|p: Seq<int>| #[trigger] is_path(g, p) && p.len() == k + 2 && p[0] == s && p.last() == x;
    let q = p.drop_last();
    assert(is_path(g, q)) by {
        assert forall|i: int| 0 <= i < q.len() - 1 implies crate::digraph::has_edge(g, #[trigger] q[i], q[i + 1]) by {
            assert(q[i] == p[i] && q[i + 1] == p[i + 1]);
        }
    }
    assert(q.last() == p[k]);
    assert(crate::digraph::has_edge(g, p[k], p[k + 1]));
    p[k]
}

proof fn lemma_walk_zero(g: Seq<Seq<usize>>, s: int, x: int)
    requires
        walk_len(g, s, x, 0),
    ensures
        x == s,
{
    let p = choose|p: Seq<int>| #[trigger] is_path(g, p) && p.len() == 1 && p[0] == s && p.last() == x;
}

/// Breadth-first search from `s` over node indices, one level of callers
/// at a time up to `MAX_IMPACT_DEPTH`: the nodes in the order they were
/// reached (starting with `s`), the length of the shortest walk to each,
/// and how many other nodes lie one step away.
#[verifier::spinoff_prover]
#[verifier::rlimit(60)]
fn dependents_search(g: &IdGraph, s: usize, Ghost(extra): Ghost<Seq<i64>>, Ghost(rev): Ghost<Seq<(i64, i64)>>) -> (res: (Vec<usize>, Vec<u64>, usize))
    requires
        g.represents(extra, rev),
        s < g.adj.len(),
    ensures
        ({
            let (seen, depth, direct) = res;
            let gg = g.g();
            &&& seen.len() == depth.len()
            &&& seen.len() > 0
            &&& seen[0] == s && depth[0] == 0
            &&& forall|i: int, k: int| 0 <= i < k < seen.len() ==> seen[i] != seen[k]
            &&& forall|i: int| 0 <= i < seen.len() ==> #[trigger] seen[i] < g.adj.len()
            &&& forall|i: int|
                0 <= i < seen.len() ==> #[trigger] depth[i] <= MAX_IMPACT_DEPTH && shortest(
                    gg,
                    s as int,
                    seen[i] as int,
                    depth[i] as int,
                )
            &&& forall|x: int|
                0 <= x < gg.len() && #[trigger] reach_within(gg, s as int, x, MAX_IMPACT_DEPTH as int)
                    ==> seen@.contains(x as usize)
            &&& direct == count_eq(depth@.skip(1), 1)
        }),
{
    let ghost gg = g.g();
    let n = g.adj.len();
    let mut visited: Vec<bool> = Vec::new();
    let mut j: usize = 0;
    while j < n
        invariant
            j <= n,
            visited.len() == j,
            forall|x: int| 0 <= x < j ==> !#[trigger] visited@[x],
        decreases n - j,
    {
        visited.push(false);
        j = j + 1;
    }
    visited.set(s, true);
    let mut seen: Vec<usize> = Vec::new();
    seen.push(s);
    let mut depth: Vec<u64> = Vec::new();
    depth.push(0);
    let mut direct: usize = 0;
    let mut frontier: Vec<usize> = Vec::new();
    frontier.push(s);
    let mut d: u64 = 0;
    proof {
        assert(is_path(gg, seq![s as int]));
        assert(walk_len(gg, s as int, s as int, 0));
        assert(shortest(gg, s as int, s as int, 0));
        assert(reach_within(gg, s as int, s as int, 0));
        assert forall|x: int| 0 <= x < n implies (#[trigger] visited@[x] <==> seen@.contains(x as usize)) by {
            if seen@.contains(x as usize) {
                let t = choose|t: int| 0 <= t < seen.len() && seen[t] == x as usize;
                assert(t == 0);
            }
            if x == s as int {
                assert(seen[0] == s);
            }
        }
        assert forall|x: int| 0 <= x < n implies (#[trigger] visited@[x] <==> reach_within(gg, s as int, x, 0)) by {
            if reach_within(gg, s as int, x, 0) {
                let k = choose|k: int| 0 <= k <= 0 && #[trigger] walk_len(gg, s as int, x, k);
                lemma_walk_zero(gg, s as int, x);
            }
        }
        assert forall|x: int| 0 <= x < n && #[trigger] shortest(gg, s as int, x, 0) implies frontier@.contains(
            x as usize,
        ) by {
            lemma_walk_zero(gg, s as int, x);
            assert(frontier[0] == s);
        }
        assert(depth@.skip(1) =~= Seq::<u64>::empty());
    }
    while d < MAX_IMPACT_DEPTH
        invariant
            gg == g.g(),
            crate::digraph::well_formed(gg),
            n == g.adj.len(),
            n == gg.len(),
            s < n,
            d <= MAX_IMPACT_DEPTH,
            visited.len() == n,
            seen.len() == depth.len(),
            seen.len() > 0,
            seen[0] == s,
            depth[0] == 0,
            forall|i: int, k: int| 0 <= i < k < seen.len() ==> seen[i] != seen[k],
            forall|i: int| 0 <= i < seen.len() ==> #[trigger] seen[i] < n,
            forall|x: int| 0 <= x < n ==> (#[trigger] visited@[x] <==> seen@.contains(x as usize)),
            forall|i: int|
                0 <= i < seen.len() ==> #[trigger] depth[i] <= d && shortest(gg, s as int, seen[i] as int, depth[i] as int),
            forall|x: int| 0 <= x < n ==> (#[trigger] visited@[x] <==> reach_within(gg, s as int, x, d as int)),
            forall|q: int|
                0 <= q < frontier.len() ==> #[trigger] frontier[q] < n && walk_len(gg, s as int, frontier[q] as int, d as int),
            forall|x: int|
                0 <= x < n && #[trigger] shortest(gg, s as int, x, d as int) ==> frontier@.contains(x as usize),
            direct == count_eq(depth@.skip(1), 1),
            direct < seen.len(),
        decreases MAX_IMPACT_DEPTH - d,
    {
        let mut next: Vec<usize> = Vec::new();
        let mut fi: usize = 0;
        while fi < frontier.len()
            invariant
                gg == g.g(),
                crate::digraph::well_formed(gg),
                n == g.adj.len(),
                n == gg.len(),
                s < n,
                d < MAX_IMPACT_DEPTH,
                visited.len() == n,
                seen.len() == depth.len(),
                seen.len() > 0,
                seen[0] == s,
                depth[0] == 0,
                forall|i: int, k: int| 0 <= i < k < seen.len() ==> seen[i] != seen[k],
                forall|i: int| 0 <= i < seen.len() ==> #[trigger] seen[i] < n,
                forall|x: int| 0 <= x < n ==> (#[trigger] visited@[x] <==> seen@.contains(x as usize)),
                forall|i: int|
                    0 <= i < seen.len() ==> #[trigger] depth[i] <= d + 1 && shortest(
                        gg,
                        s as int,
                        seen[i] as int,
                        depth[i] as int,
                    ),
                forall|x: int| 0 <= x < n && #[trigger] reach_within(gg, s as int, x, d as int) ==> visited@[x],
                forall|x: int| 0 <= x < n && #[trigger] visited@[x] ==> reach_within(gg, s as int, x, d + 1),
                forall|x: int|
                    0 <= x < n && #[trigger] visited@[x] && !reach_within(gg, s as int, x, d as int) ==> next@.contains(
                        x as usize,
                    ),
                forall|q: int|
                    0 <= q < next.len() ==> #[trigger] next[q] < n && walk_len(gg, s as int, next[q] as int, d + 1),
                forall|q: int|
                    0 <= q < frontier.len() ==> #[trigger] frontier[q] < n && walk_len(
                        gg,
                        s as int,
                        frontier[q] as int,
                        d as int,
                    ),
                forall|x: int|
                    0 <= x < n && #[trigger] shortest(gg, s as int, x, d as int) ==> frontier@.contains(x as usize),
                fi <= frontier.len(),
                forall|f: int, k: int|
                    0 <= f < fi && 0 <= k < gg[frontier[f] as int].len() ==> visited@[#[trigger] gg[frontier[f] as int][k] as int],
                direct == count_eq(depth@.skip(1), 1),
                direct < seen.len(),
            decreases frontier.len() - fi,
        {
            let u = frontier[fi];
            let succs = &g.adj[u];
            let ghost vstart = visited@;
            let mut k: usize = 0;
            while k < succs.len()
                invariant
                    gg == g.g(),
                    crate::digraph::well_formed(gg),
                    n == g.adj.len(),
                    n == gg.len(),
                    s < n,
                    d < MAX_IMPACT_DEPTH,
                    visited.len() == n,
                    seen.len() == depth.len(),
                    seen.len() > 0,
                    seen[0] == s,
                    depth[0] == 0,
                    forall|i: int, k: int| 0 <= i < k < seen.len() ==> seen[i] != seen[k],
                    forall|i: int| 0 <= i < seen.len() ==> #[trigger] seen[i] < n,
                    forall|x: int| 0 <= x < n ==> (#[trigger] visited@[x] <==> seen@.contains(x as usize)),
                    forall|i: int|
                        0 <= i < seen.len() ==> #[trigger] depth[i] <= d + 1 && shortest(
                            gg,
                            s as int,
                            seen[i] as int,
                            depth[i] as int,
                        ),
                    forall|x: int| 0 <= x < n && #[trigger] reach_within(gg, s as int, x, d as int) ==> visited@[x],
                    forall|x: int| 0 <= x < n && #[trigger] visited@[x] ==> reach_within(gg, s as int, x, d + 1),
                    forall|x: int|
                        0 <= x < n && #[trigger] visited@[x] && !reach_within(gg, s as int, x, d as int)
                            ==> next@.contains(x as usize),
                    forall|q: int|
                        0 <= q < next.len() ==> #[trigger] next[q] < n && walk_len(gg, s as int, next[q] as int, d + 1),
                    fi < frontier.len(),
                    u == frontier[fi as int],
                    u < n,
                    walk_len(gg, s as int, u as int, d as int),
                    succs@ == gg[u as int],
                    k <= succs.len(),
                    forall|kk: int| 0 <= kk < k ==> visited@[#[trigger] gg[u as int][kk] as int],
                    vstart.len() == n,
                    forall|z: int| 0 <= z < n && #[trigger] vstart[z] ==> visited@[z],
                    forall|f: int, k2: int|
                        0 <= f < fi && 0 <= k2 < gg[frontier[f] as int].len()
                            ==> vstart[#[trigger] gg[frontier[f] as int][k2] as int],
                    forall|q: int| 0 <= q < frontier.len() ==> #[trigger] frontier[q] < n,
                    direct == count_eq(depth@.skip(1), 1),
                    direct < seen.len(),
                decreases succs.len() - k,
            {
                let y = succs[k];
                proof {
                    assert(gg[u as int][k as int] == y);
                    assert(y < n);
                }
                if !visited[y] {
                    proof {
                        assert(crate::digraph::has_edge(gg, u as int, y as int));
                        lemma_walk_extend(gg, s as int, u as int, d as int, y as int);
                        assert(!reach_within(gg, s as int, y as int, d as int));
                        assert forall|k3: int| 0 <= k3 < d + 1 implies !#[trigger] walk_len(gg, s as int, y as int, k3) by {
                            if walk_len(gg, s as int, y as int, k3) {
                                assert(reach_within(gg, s as int, y as int, d as int));
                            }
                        }
                        assert(shortest(gg, s as int, y as int, d + 1));
                    }
                    let ghost pv = visited@;
                    let ghost ps = seen@;
                    let ghost pd = depth@;
                    let ghost pn = next@;
                    visited.set(y, true);
                    seen.push(y);
                    depth.push(d + 1);
                    next.push(y);
                    if d == 0 {
                        direct = direct + 1;
                    }
                    proof {
                        assert(!ps.contains(y));
                        assert(seen@ == ps.push(y));
                        assert(depth@ == pd.push((d + 1) as u64));
                        assert forall|x: int| 0 <= x < n implies (#[trigger] visited@[x] <==> seen@.contains(x as usize)) by {
                            if x != y as int {
                                if ps.contains(x as usize) {
                                    let t = choose|t: int| 0 <= t < ps.len() && ps[t] == x as usize;
                                    assert(seen[t] == x as usize);
                                }
                                if seen@.contains(x as usize) {
                                    let t = choose|t: int| 0 <= t < seen.len() && seen[t] == x as usize;
                                    assert(t < ps.len());
                                    assert(ps[t] == x as usize);
                                }
                            } else {
                                assert(seen[seen.len() - 1] == y);
                            }
                        }
                        assert forall|i: int, k4: int| 0 <= i < k4 < seen.len() implies seen[i] != seen[k4] by {
                            if k4 == seen.len() - 1 {
                                assert(seen[i] == ps[i]);
                                assert(ps.contains(seen[i]));
                            }
                        }
                        assert forall|i: int|
                            0 <= i < seen.len() implies #[trigger] depth[i] <= d + 1 && shortest(
                            gg,
                            s as int,
                            seen[i] as int,
                            depth[i] as int,
                        ) by {
                            if i < ps.len() {
                                assert(seen[i] == ps[i] && depth[i] == pd[i]);
                            }
                        }
                        assert forall|x: int|
                            0 <= x < n && #[trigger] visited@[x] && !reach_within(gg, s as int, x, d as int)
                                implies next@.contains(x as usize) by {
                            if x == y as int {
                                assert(next[next.len() - 1] == y);
                            } else {
                                assert(pv[x]);
                                let t = choose|t: int| 0 <= t < pn.len() && pn[t] == x as usize;
                                assert(next[t] == x as usize);
                            }
                        }
                        assert forall|q: int| 0 <= q < next.len() implies #[trigger] next[q] < n && walk_len(
                            gg,
                            s as int,
                            next[q] as int,
                            d + 1,
                        ) by {
                            if q < pn.len() {
                                assert(next[q] == pn[q]);
                            }
                        }
                        assert(depth@.skip(1) =~= pd.skip(1).push((d + 1) as u64));
                        assert(depth@.skip(1).drop_last() =~= pd.skip(1));
                        assert forall|z: int| 0 <= z < n && #[trigger] vstart[z] implies visited@[z] by {
                            assert(pv[z]);
                        }
                        assert forall|kk: int| 0 <= kk < k implies visited@[#[trigger] gg[u as int][kk] as int] by {
                            assert(pv[gg[u as int][kk] as int]);
                        }
                    }
                }
                k = k + 1;
            }
            proof {
                assert forall|f: int, k2: int|
                    0 <= f < fi + 1 && 0 <= k2 < gg[frontier[f] as int].len() implies visited@[#[trigger] gg[frontier[f] as int][k2] as int] by {
                    if f < fi {
                        assert(vstart[gg[frontier[f] as int][k2] as int]);
                    } else {
                        assert(visited@[gg[u as int][k2] as int]);
                    }
                }
            }
            fi = fi + 1;
        }
        proof {
            assert forall|x: int| 0 <= x < n implies (#[trigger] visited@[x] <==> reach_within(
                gg,
                s as int,
                x,
                d + 1,
            )) by {
                if reach_within(gg, s as int, x, d + 1) && !reach_within(gg, s as int, x, d as int) {
                    let k = choose|k: int| 0 <= k <= d + 1 && #[trigger] walk_len(gg, s as int, x, k);
                    if k <= d {
                        assert(reach_within(gg, s as int, x, d as int));
                    }
                    assert(k == d + 1);
                    let w = lemma_walk_pred(gg, s as int, x, d as int);
                    assert(reach_within(gg, s as int, w, d as int));
                    assert(visited@[w]);
                    assert(seen@.contains(w as usize));
                    let t = choose|t: int| 0 <= t < seen.len() && seen[t] == w as usize;
                    assert(shortest(gg, s as int, w, depth[t] as int));
                    if depth[t] > d {
                        assert(!walk_len(gg, s as int, w, d as int));
                    }
                    if depth[t] == d {
                        assert(shortest(gg, s as int, w, d as int));
                        assert(frontier@.contains(w as usize));
                        let f = choose|f: int| 0 <= f < frontier.len() && frontier[f] == w as usize;
                        let kk = choose|kk: int| 0 <= kk < gg[w].len() && #[trigger] gg[w][kk] == x;
                        assert(visited@[gg[frontier[f] as int][kk] as int]);
                    } else {
                        lemma_walk_extend(gg, s as int, w, depth[t] as int, x);
                        assert(reach_within(gg, s as int, x, d as int));
                    }
                }
            }
            assert forall|x: int| 0 <= x < n && #[trigger] shortest(gg, s as int, x, d + 1) implies next@.contains(
                x as usize,
            ) by {
                assert(reach_within(gg, s as int, x, d + 1));
                assert(visited@[x]);
                if reach_within(gg, s as int, x, d as int) {
                    let k = choose|k: int| 0 <= k <= d && #[trigger] walk_len(gg, s as int, x, k);
                    assert(false);
                }
            }
        }
        frontier = next;
        d = d + 1;
    }
    proof {
        assert forall|x: int|
            0 <= x < gg.len() && #[trigger] reach_within(gg, s as int, x, MAX_IMPACT_DEPTH as int) implies seen@.contains(
            x as usize,
        ) by {
            assert(visited@[x]);
        }
    }
    (seen, depth, direct)
}

/// Finds the symbols that depend on `symbol_id` through the resolved
/// references `refs` (caller symbol id, callee symbol id): a breadth-first
/// search over callers, up to `MAX_IMPACT_DEPTH` steps.
pub fn transitive_dependents(refs: &Vec<(i64, i64)>, symbol_id: i64) -> (r: Dependents)
    ensures
        dependents_ok(refs@, symbol_id, r),
{
    let rev = reverse_refs(refs);
    let mut extra: Vec<i64> = Vec::new();
    extra.push(symbol_id);
    let g = build_id_graph(&extra, &rev);
    proof {
        assert(extra@[0] == symbol_id);
        assert(g.index@.contains_key(symbol_id));
    }
    let s = *g.index.get(&symbol_id).unwrap();
    let ghost gg = g.g();
    let (seen, depth, direct) = dependents_search(&g, s, Ghost(extra@), Ghost(rev@));
    let mut ids: Vec<i64> = Vec::new();
    let mut depths: Vec<u64> = Vec::new();
    let mut i: usize = 1;
    while i < seen.len()
        invariant
            1 <= i <= seen.len(),
            seen.len() == depth.len(),
            g.represents(extra@, rev@),
            forall|x: int| 0 <= x < seen.len() ==> #[trigger] seen[x] < g.ids.len(),
            ids.len() == i - 1,
            depths.len() == i - 1,
            forall|x: int| 0 <= x < i - 1 ==> #[trigger] ids[x] == g.ids[seen[x + 1] as int],
            depths@ == depth@.subrange(1, i as int),
        decreases seen.len() - i,
    {
        ids.push(g.ids[seen[i]]);
        depths.push(depth[i]);
        i = i + 1;
    }
    let r = Dependents { ids, depths, direct };
    proof {
        let e = rev@;
        assert(e == dependents_edges(refs@));
        assert(depths@ =~= depth@.skip(1));
        assert(g.ids[s as int] == symbol_id);
        assert forall|x: int| 0 <= x < g.ids.len() implies g.index@[g.ids[x]] == x by {
            assert(g.index@.contains_key(g.ids[x]));
            let xx = g.index@[g.ids[x]];
            if xx != x {
                assert(g.ids[xx as int] == g.ids[x]);
            }
        }
        assert forall|a: int, b: int| 0 <= a < b < r.ids.len() implies r.ids[a] != r.ids[b] by {
            assert(seen[a + 1] != seen[b + 1]);
            assert(g.index@[g.ids[seen[a + 1] as int]] == seen[a + 1]);
            assert(g.index@[g.ids[seen[b + 1] as int]] == seen[b + 1]);
        }
        assert forall|a: int| 0 <= a < r.ids.len() implies #[trigger] r.ids[a] != symbol_id by {
            assert(seen[a + 1] != s);
            assert(g.index@[g.ids[seen[a + 1] as int]] == seen[a + 1]);
        }
        assert forall|a: int|
            0 <= a < r.ids.len() implies 1 <= #[trigger] r.depths[a] <= MAX_IMPACT_DEPTH && id_walk_len(
            e,
            symbol_id,
            r.ids[a],
            r.depths[a] as int,
        ) by {
            assert(r.depths[a] == depth[a + 1]);
            assert(shortest(gg, s as int, seen[a + 1] as int, depth[a + 1] as int));
            if depth[a + 1] == 0 {
                lemma_walk_zero(gg, s as int, seen[a + 1] as int);
                assert(seen[a + 1] != seen[0]);
            }
            let p = choose|p: Seq<int>|
                #[trigger] is_path(gg, p) && p.len() == depth[a + 1] + 1 && p[0] == s as int && p.last()
                    == seen[a + 1] as int;
            lemma_path_to_ids(&g, extra@, e, p);
            let pid = p.map_values(|x: int| g.ids[x]);
            assert(pid[0] == symbol_id);
            assert(pid.last() == r.ids[a]);
        }
        assert forall|a: int, k: int|
            0 <= a < r.ids.len() && 0 <= k < r.depths[a] implies !#[trigger] id_walk_len(e, symbol_id, r.ids[a], k) by {
            if id_walk_len(e, symbol_id, r.ids[a], k) {
                let pid = choose|pid: Seq<i64>|
                    #[trigger] is_id_path(e, pid) && pid.len() == k + 1 && pid[0] == symbol_id && pid.last() == r.ids[a];
                let c = lemma_id_path_to_index(&g, extra@, e, pid);
                assert(c[0] == s as int);
                assert(c.last() == g.index@[r.ids[a]] as int);
                assert(g.index@[g.ids[seen[a + 1] as int]] == seen[a + 1]);
                assert(walk_len(gg, s as int, seen[a + 1] as int, k));
                assert(r.depths[a] == depth[a + 1]);
                assert(shortest(gg, s as int, seen[a + 1] as int, depth[a + 1] as int));
            }
        }
        assert forall|y: i64|
            y != symbol_id && #[trigger] id_within(e, symbol_id, y, MAX_IMPACT_DEPTH as int) implies r.ids@.contains(y) by {
            let k = choose|k: int| 0 <= k <= MAX_IMPACT_DEPTH && #[trigger] id_walk_len(e, symbol_id, y, k);
            let pid = choose|pid: Seq<i64>|
                #[trigger] is_id_path(e, pid) && pid.len() == k + 1 && pid[0] == symbol_id && pid.last() == y;
            let c = lemma_id_path_to_index(&g, extra@, e, pid);
            let yi = c.last();
            assert(c[0] == s as int);
            assert(walk_len(gg, s as int, yi, k));
            assert(reach_within(gg, s as int, yi, MAX_IMPACT_DEPTH as int));
            assert(0 <= yi < gg.len());
            assert(seen@.contains(yi as usize));
            let t = choose|t: int| 0 <= t < seen.len() && seen[t] == yi as usize;
            assert(g.ids[yi] == y);
            if t == 0 {
                assert(g.ids[s as int] == symbol_id);
            }
            assert(r.ids[t - 1] == y);
        }
    }
    r
}

} // verus!
