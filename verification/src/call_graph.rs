//! Call graph around a symbol: every symbol within a number of call steps
//! (in either direction) of the focus, the references touching them, and
//! the call cycles among those references.
use std::collections::HashMap;
use vstd::prelude::*;

use crate::digraph::{
    closed_black, closes, find_cycles_from, ints, is_black, is_simple_cycle, lemma_all_black_acyclic,
    uses_closing_edge,
};
use crate::id_graph::{
    build_id_graph, is_id_cycle, is_id_walk_cycle, lemma_cycle_to_ids, lemma_id_cycle_to_index,
};

verus! {

broadcast use vstd::std_specs::hash::group_hash_axioms;

/// A node in the call graph.
#[derive(Debug)]
pub struct CallGraphNode {
    pub symbol_id: i64,
    pub name: String,
    pub kind: String,
    pub file_path: String,
    pub callers_count: i64,
    pub callees_count: i64,
    pub is_exported: bool,
}

/// A reference from a calling symbol to the symbol it uses.
#[derive(Debug)]
pub struct CallGraphEdge {
    pub caller_id: i64,
    pub callee_id: i64,
    pub reference_type: String,
    pub source_line: i64,
}

/// The call graph around a focus symbol.
#[derive(Debug)]
pub struct CallGraph {
    pub nodes: Vec<CallGraphNode>,
    pub edges: Vec<CallGraphEdge>,
    pub cycles: Vec<Vec<i64>>,
    pub depth_limit_reached: bool,
}

/// At most this many call cycles are reported.
pub const MAX_CALL_CYCLES: usize = 10;

/// A resolved reference as the index holds it: caller symbol id, callee
/// symbol id, reference type, source line.
pub type RefRow = (i64, i64, String, i64);

/// A symbol as the index holds it: id, name, kind, relative path of its
/// file, exported flag.
pub type SymbolRow = (i64, String, String, String, bool);

/// Some reported cycle ends at `a` and starts at `b`: the call from `a`
/// back to `b` closed it.
pub open spec fn closes_call_cycle(cycles: Seq<Vec<i64>>, a: i64, b: i64) -> bool {
    exists|q: int| 0 <= q < cycles.len() && (#[trigger] cycles[q])@.last() == a && cycles[q]@[0] == b
}

/// Some call along the closed walk `w` (the one back to its start
/// included) closed a reported cycle.
pub open spec fn walk_uses_closing_call(cycles: Seq<Vec<i64>>, w: Seq<i64>) -> bool {
    ||| closes_call_cycle(cycles, w.last(), w[0])
    ||| exists|t: int| 0 <= t < w.len() - 1 && #[trigger] closes_call_cycle(cycles, w[t], w[t + 1])
}

/// Some reference links `a` and `b`, in either direction.
pub open spec fn linked(pairs: Seq<(i64, i64)>, a: i64, b: i64) -> bool {
    exists|j: int| 0 <= j < pairs.len() && (#[trigger] pairs[j] == (a, b) || pairs[j] == (b, a))
}

/// A walk over references, each step following a call in either direction.
pub open spec fn is_call_walk(pairs: Seq<(i64, i64)>, p: Seq<i64>) -> bool {
    &&& p.len() > 0
    &&& forall|i: int| 0 <= i < p.len() - 1 ==> linked(pairs, #[trigger] p[i], p[i + 1])
}

/// `x` is at most `d` call steps away from `r`.
pub open spec fn within(pairs: Seq<(i64, i64)>, r: i64, x: i64, d: int) -> bool {
    exists|p: Seq<i64>| #[trigger] is_call_walk(pairs, p) && p[0] == r && p.last() == x && p.len() <= d + 1
}

/// `x` can be reached from `r` by call steps.
pub open spec fn connected(pairs: Seq<(i64, i64)>, r: i64, x: i64) -> bool {
    exists|p: Seq<i64>| #[trigger] is_call_walk(pairs, p) && p[0] == r && p.last() == x
}

/// Something reachable from `r` lies more than `d` steps away.
pub open spec fn beyond_depth(pairs: Seq<(i64, i64)>, r: i64, d: int) -> bool {
    exists|x: i64| #[trigger] connected(pairs, r, x) && !within(pairs, r, x, d)
}

/// One more step reaches the neighbours of what `d` steps reach.
proof fn lemma_within_step(pairs: Seq<(i64, i64)>, r: i64, d: int, x: i64)
    requires
        d >= 0,
    ensures
        within(pairs, r, x, d + 1) <==> (within(pairs, r, x, d) || exists|y: i64|
            #[trigger] within(pairs, r, y, d) && linked(pairs, y, x)),
{
    if within(pairs, r, x, d + 1) && !within(pairs, r, x, d) {
        let p = choose|p: Seq<i64>| #[trigger] is_call_walk(pairs, p) && p[0] == r && p.last() == x && p.len() <= d + 2;
        if p.len() <= d + 1 {
            assert(within(pairs, r, x, d));
        } else {
            let q = p.drop_last();
            let y = q.last();
            assert(is_call_walk(pairs, q)) by {
                assert forall|i: int| 0 <= i < q.len() - 1 implies linked(pairs, #[trigger] q[i], q[i + 1]) by {
                    assert(linked(pairs, p[i], p[i + 1]));
                }
            }
            assert(within(pairs, r, y, d));
            assert(linked(pairs, p[p.len() - 2], p[p.len() - 1]));
            assert(linked(pairs, y, x));
        }
    }
    if within(pairs, r, x, d) {
        let p = choose|p: Seq<i64>| #[trigger] is_call_walk(pairs, p) && p[0] == r && p.last() == x && p.len() <= d + 1;
        assert(is_call_walk(pairs, p) && p.len() <= d + 2);
    }
    if exists|y: i64| #[trigger] within(pairs, r, y, d) && linked(pairs, y, x) {
        let y = choose|y: i64| #[trigger] within(pairs, r, y, d) && linked(pairs, y, x);
        lemma_walk_extend(pairs, r, y, x, d);
    }
}

/// A walk to `y` followed by one step to `x`.
proof fn lemma_walk_extend(pairs: Seq<(i64, i64)>, r: i64, y: i64, x: i64, d: int)
    requires
        within(pairs, r, y, d),
        linked(pairs, y, x),
    ensures
        within(pairs, r, x, d + 1),
        connected(pairs, r, x),
{
    let p = choose|p: Seq<i64>| #[trigger] is_call_walk(pairs, p) && p[0] == r && p.last() == y && p.len() <= d + 1;
    let q = p.push(x);
    assert forall|i: int| 0 <= i < q.len() - 1 implies linked(pairs, #[trigger] q[i], q[i + 1]) by {
        if i < p.len() - 1 {
            assert(linked(pairs, p[i], p[i + 1]));
        } else {
            assert(q[i] == y);
        }
    }
    assert(is_call_walk(pairs, q));
    assert(q.last() == x);
}

/// Once a step reaches nothing new, further steps reach nothing new.
proof fn lemma_saturated(pairs: Seq<(i64, i64)>, r: i64, d: int, m: int)
    requires
        0 <= d <= m,
        forall|x: i64| #[trigger] within(pairs, r, x, d + 1) ==> within(pairs, r, x, d),
    ensures
        forall|x: i64| #[trigger] within(pairs, r, x, m) ==> within(pairs, r, x, d),
    decreases m - d,
{
    if m > d {
        lemma_saturated(pairs, r, d, m - 1);
        assert forall|x: i64| #[trigger] within(pairs, r, x, m) implies within(pairs, r, x, d) by {
            lemma_within_step(pairs, r, m - 1, x);
            if !within(pairs, r, x, m - 1) {
                let y = choose|y: i64| #[trigger] within(pairs, r, y, m - 1) && linked(pairs, y, x);
                assert(within(pairs, r, y, d));
                lemma_walk_extend(pairs, r, y, x, d);
            }
        }
    }
}

/// A walk that starts inside the `d`-step ball and ends outside it steps
/// across its boundary somewhere.
proof fn lemma_crossing(pairs: Seq<(i64, i64)>, r: i64, d: int, p: Seq<i64>) -> (i: int)
    requires
        is_call_walk(pairs, p),
        within(pairs, r, p[0], d),
        !within(pairs, r, p.last(), d),
    ensures
        0 <= i < p.len() - 1,
        within(pairs, r, p[i], d),
        !within(pairs, r, p[i + 1], d),
    decreases p.len(),
{
    let q = p.drop_last();
    if p.len() == 1 {
        assert(p.last() == p[0]);
        0
    } else if within(pairs, r, q.last(), d) {
        p.len() - 2
    } else {
        assert(is_call_walk(pairs, q)) by {
            assert forall|i: int| 0 <= i < q.len() - 1 implies linked(pairs, #[trigger] q[i], q[i + 1]) by {
                assert(linked(pairs, p[i], p[i + 1]));
            }
        }
        lemma_crossing(pairs, r, d, q)
    }
}

/// Something reachable lies beyond `d` steps exactly when some reference
/// crosses the boundary of the `d`-step ball.
proof fn lemma_beyond_iff_crossing(pairs: Seq<(i64, i64)>, r: i64, d: int)
    requires
        d >= 0,
    ensures
        beyond_depth(pairs, r, d) <==> exists|j: int|
            0 <= j < pairs.len() && within(pairs, r, (#[trigger] pairs[j]).0, d) != within(
                pairs,
                r,
                pairs[j].1,
                d,
            ),
{
    let one = seq![r];
    assert(is_call_walk(pairs, one));
    assert(within(pairs, r, r, d));
    if beyond_depth(pairs, r, d) {
        let x = choose|x: i64| #[trigger] connected(pairs, r, x) && !within(pairs, r, x, d);
        let p = choose|p: Seq<i64>| #[trigger] is_call_walk(pairs, p) && p[0] == r && p.last() == x;
        let i = lemma_crossing(pairs, r, d, p);
        assert(linked(pairs, p[i], p[i + 1]));
        let j = choose|j: int| 0 <= j < pairs.len() && (#[trigger] pairs[j] == (p[i], p[i + 1]) || pairs[j] == (p[i + 1], p[i]));
        assert(within(pairs, r, pairs[j].0, d) != within(pairs, r, pairs[j].1, d));
    }
    if exists|j: int|
        0 <= j < pairs.len() && within(pairs, r, (#[trigger] pairs[j]).0, d) != within(pairs, r, pairs[j].1, d) {
        let j = choose|j: int|
            0 <= j < pairs.len() && within(pairs, r, (#[trigger] pairs[j]).0, d) != within(
                pairs,
                r,
                pairs[j].1,
                d,
            );
        let (a, b) = pairs[j];
        if within(pairs, r, a, d) {
            assert(linked(pairs, a, b));
            lemma_walk_extend(pairs, r, a, b, d);
            assert(connected(pairs, r, b) && !within(pairs, r, b, d));
        } else {
            assert(linked(pairs, b, a));
            lemma_walk_extend(pairs, r, b, a, d);
            assert(connected(pairs, r, a) && !within(pairs, r, a, d));
        }
    }
}

/// The symbols at most `max_depth` call steps from `root` (each once), and
/// whether anything reachable from `root` lies further away.
fn ball(pairs: &Vec<(i64, i64)>, root: i64, max_depth: i64) -> (r: (Vec<i64>, bool))
    ensures
        forall|i: int, j: int| 0 <= i < j < r.0.len() ==> r.0[i] != r.0[j],
        forall|x: i64| #[trigger] r.0@.contains(x) <==> within(pairs@, root, x, max_depth as int),
        r.1 == beyond_depth(pairs@, root, max_depth as int),
{
    let ghost ps = pairs@;
    if max_depth < 0 {
        proof {
            let one = seq![root];
            assert(is_call_walk(ps, one));
            assert(connected(ps, root, root));
            assert forall|x: i64| !#[trigger] within(ps, root, x, max_depth as int) by {}
        }
        return (Vec::new(), true);
    }
    let mut members: Vec<i64> = Vec::new();
    members.push(root);
    let mut level: HashMap<i64, i64> = HashMap::new();
    level.insert(root, 0);
    let mut d: i64 = 0;
    let mut saturated = false;
    proof {
        let one = seq![root];
        assert(is_call_walk(ps, one));
        assert forall|x: i64| #[trigger] within(ps, root, x, 0) <==> x == root by {
            if within(ps, root, x, 0) {
                let p = choose|p: Seq<i64>| #[trigger] is_call_walk(ps, p) && p[0] == root && p.last() == x && p.len() <= 1;
            }
        }
        assert forall|x: i64| #[trigger] members@.contains(x) <==> x == root by {
            if x == root {
                assert(members@[0] == root);
            }
        }
    }
    while d < max_depth && !saturated
        invariant
            ps == pairs@,
            0 <= d <= max_depth,
            forall|i: int, j: int| 0 <= i < j < members.len() ==> members[i] != members[j],
            forall|x: i64| #[trigger] members@.contains(x) <==> level@.contains_key(x),
            forall|x: i64| #[trigger] level@.contains_key(x) <==> within(ps, root, x, d as int),
            forall|x: i64| #[trigger] level@.contains_key(x) ==> level@[x] <= d,
            saturated ==> forall|x: i64| #[trigger] within(ps, root, x, d + 1) ==> within(ps, root, x, d as int),
        decreases max_depth - d + if saturated {
            0int
        } else {
            1int
        },
    {
        let mut added = false;
        let mut j: usize = 0;
        while j < pairs.len()
            invariant
                ps == pairs@,
                0 <= d < max_depth,
                j <= pairs.len(),
                forall|a: int, b: int| 0 <= a < b < members.len() ==> members[a] != members[b],
                forall|x: i64| #[trigger] members@.contains(x) <==> level@.contains_key(x),
                forall|x: i64|
                    #[trigger] level@.contains_key(x) ==> level@[x] <= d + 1,
                forall|x: i64|
                    #[trigger] level@.contains_key(x) ==> (level@[x] <= d <==> within(ps, root, x, d as int)),
                forall|x: i64|
                    within(ps, root, x, d as int) ==> #[trigger] level@.contains_key(x),
                forall|x: i64|
                    #[trigger] level@.contains_key(x) && !within(ps, root, x, d as int) ==> exists|q: int|
                        0 <= q < j && within(ps, root, (#[trigger] ps[q]).0, d as int) != within(
                            ps,
                            root,
                            ps[q].1,
                            d as int,
                        ) && (ps[q].0 == x || ps[q].1 == x),
                forall|q: int|
                    0 <= q < j ==> (within(ps, root, (#[trigger] ps[q]).0, d as int) ==> level@.contains_key(ps[q].1))
                        && (within(ps, root, ps[q].1, d as int) ==> level@.contains_key(ps[q].0)),
                added <==> exists|x: i64| #[trigger] level@.contains_key(x) && !within(ps, root, x, d as int),
            decreases pairs.len() - j,
        {
            let (a, b) = pairs[j];
            let a_in = match level.get(&a) {
                Some(l) => *l <= d,
                None => false,
            };
            let b_in = match level.get(&b) {
                Some(l) => *l <= d,
                None => false,
            };
            proof {
                assert(a_in == within(ps, root, a, d as int));
                assert(b_in == within(ps, root, b, d as int));
            }
            if a_in && !level.contains_key(&b) {
                let ghost pre = members@;
                level.insert(b, d + 1);
                members.push(b);
                added = true;
                proof {
                    assert forall|x: i64| #[trigger] members@.contains(x) <==> (pre.contains(x) || x == b) by {
                        if members@.contains(x) && x != b {
                            let q = choose|q: int| 0 <= q < members@.len() && members@[q] == x;
                            assert(pre[q] == x);
                        }
                        if pre.contains(x) {
                            let q = choose|q: int| 0 <= q < pre.len() && pre[q] == x;
                            assert(members@[q] == x);
                        }
                        if x == b {
                            assert(members@[members@.len() - 1] == b);
                        }
                    }
                    assert forall|u: int, v: int| 0 <= u < v < members.len() implies members[u] != members[v] by {
                        if v == members.len() - 1 {
                            assert(pre.contains(members[u]));
                        }
                    }
                    assert(ps[j as int] == (a, b));
                    assert(level@.contains_key(b) && !within(ps, root, b, d as int));
                }
            }
            if b_in && !level.contains_key(&a) {
                let ghost pre = members@;
                level.insert(a, d + 1);
                members.push(a);
                added = true;
                proof {
                    assert forall|x: i64| #[trigger] members@.contains(x) <==> (pre.contains(x) || x == a) by {
                        if members@.contains(x) && x != a {
                            let q = choose|q: int| 0 <= q < members@.len() && members@[q] == x;
                            assert(pre[q] == x);
                        }
                        if pre.contains(x) {
                            let q = choose|q: int| 0 <= q < pre.len() && pre[q] == x;
                            assert(members@[q] == x);
                        }
                        if x == a {
                            assert(members@[members@.len() - 1] == a);
                        }
                    }
                    assert forall|u: int, v: int| 0 <= u < v < members.len() implies members[u] != members[v] by {
                        if v == members.len() - 1 {
                            assert(pre.contains(members[u]));
                        }
                    }
                    assert(ps[j as int] == (a, b));
                    assert(level@.contains_key(a) && !within(ps, root, a, d as int));
                }
            }
            j = j + 1;
        }
        proof {
            assert forall|x: i64| #[trigger] level@.contains_key(x) <==> within(ps, root, x, d + 1) by {
                lemma_within_step(ps, root, d as int, x);
                if level@.contains_key(x) && !within(ps, root, x, d as int) {
                    let q = choose|q: int|
                        0 <= q < pairs.len() && within(ps, root, (#[trigger] ps[q]).0, d as int) != within(
                            ps,
                            root,
                            ps[q].1,
                            d as int,
                        ) && (ps[q].0 == x || ps[q].1 == x);
                    if within(ps, root, ps[q].0, d as int) {
                        assert(linked(ps, ps[q].0, x));
                    } else {
                        assert(linked(ps, ps[q].1, x));
                    }
                }
                if within(ps, root, x, d + 1) && !within(ps, root, x, d as int) {
                    let y = choose|y: i64| #[trigger] within(ps, root, y, d as int) && linked(ps, y, x);
                    let q = choose|q: int| 0 <= q < ps.len() && (#[trigger] ps[q] == (y, x) || ps[q] == (x, y));
                }
            }
        }
        proof {
            if !added {
                assert forall|x: i64| #[trigger] within(ps, root, x, d + 1) implies within(ps, root, x, d as int) by {
                    assert(level@.contains_key(x));
                }
            }
        }
        if added {
            d = d + 1;
        } else {
            saturated = true;
        }
    }
    proof {
        if saturated {
            lemma_saturated(ps, root, d as int, max_depth as int);
        }
        assert forall|x: i64| #[trigger] level@.contains_key(x) <==> within(ps, root, x, max_depth as int) by {
            if within(ps, root, x, d as int) {
                let p = choose|p: Seq<i64>| #[trigger] is_call_walk(ps, p) && p[0] == root && p.last() == x && p.len() <= d + 1;
                assert(p.len() <= max_depth + 1);
            }
        }
        lemma_beyond_iff_crossing(ps, root, max_depth as int);
    }
    let mut hit = false;
    let mut j: usize = 0;
    while j < pairs.len()
        invariant
            ps == pairs@,
            j <= pairs.len(),
            forall|x: i64| #[trigger] level@.contains_key(x) <==> within(ps, root, x, max_depth as int),
            hit <==> exists|q: int|
                0 <= q < j && within(ps, root, (#[trigger] ps[q]).0, max_depth as int) != within(
                    ps,
                    root,
                    ps[q].1,
                    max_depth as int,
                ),
        decreases pairs.len() - j,
    {
        let (a, b) = pairs[j];
        if level.contains_key(&a) != level.contains_key(&b) {
            hit = true;
        }
        j = j + 1;
    }
    (members, hit)
}


/// The (caller, callee) pairs of the references.
pub open spec fn ref_pairs(refs: Seq<RefRow>) -> Seq<(i64, i64)> {
    Seq::new(refs.len(), |i: int| (refs[i].0, refs[i].1))
}

/// The traversal starts from the focus symbol, or from every symbol
/// without one.
pub open spec fn is_root(symbols: Seq<SymbolRow>, focus: Option<i64>, r: i64) -> bool {
    match focus {
        Some(f) => r == f,
        None => exists|j: int| 0 <= j < symbols.len() && #[trigger] symbols[j].0 == r,
    }
}

/// `x` is at most `max_depth` call steps from a root.
pub open spec fn included(
    refs: Seq<RefRow>,
    symbols: Seq<SymbolRow>,
    focus: Option<i64>,
    max_depth: i64,
    x: i64,
) -> bool {
    exists|r: i64| is_root(symbols, focus, r) && #[trigger] within(ref_pairs(refs), r, x, max_depth as int)
}

/// The included symbols as a set.
pub open spec fn included_set(
    refs: Seq<RefRow>,
    symbols: Seq<SymbolRow>,
    focus: Option<i64>,
    max_depth: i64,
) -> Set<i64> {
    Set::new(|x: i64| included(refs, symbols, focus, max_depth, x))
}

/// From some root, something reachable lies beyond `max_depth` steps.
pub open spec fn limit_reached(
    refs: Seq<RefRow>,
    symbols: Seq<SymbolRow>,
    focus: Option<i64>,
    max_depth: i64,
) -> bool {
    exists|r: i64| is_root(symbols, focus, r) && #[trigger] beyond_depth(ref_pairs(refs), r, max_depth as int)
}

/// The plain content of a reference.
pub open spec fn ref_view(r: RefRow) -> (i64, i64, Seq<char>, i64) {
    (r.0, r.1, r.2@, r.3)
}

/// The plain content of an edge.
pub open spec fn call_edge_view(e: CallGraphEdge) -> (i64, i64, Seq<char>, i64) {
    (e.caller_id, e.callee_id, e.reference_type@, e.source_line)
}

/// The references with an included end, in their original order.
pub open spec fn touching(refs: Seq<RefRow>, inc: Set<i64>) -> Seq<(i64, i64, Seq<char>, i64)>
    decreases refs.len(),
{
    if refs.len() == 0 {
        Seq::empty()
    } else {
        let rest = touching(refs.drop_last(), inc);
        let r = refs.last();
        if inc.contains(r.0) || inc.contains(r.1) {
            rest.push(ref_view(r))
        } else {
            rest
        }
    }
}

/// The (caller, callee) pairs of the returned edges.
pub open spec fn edge_pairs(edges: Seq<CallGraphEdge>) -> Seq<(i64, i64)> {
    Seq::new(edges.len(), |i: int| (edges[i].caller_id, edges[i].callee_id))
}

/// Number of pairs whose caller (or, with `by_caller` false, callee) is `id`.
pub open spec fn end_count(pairs: Seq<(i64, i64)>, id: i64, by_caller: bool) -> nat
    decreases pairs.len(),
{
    if pairs.len() == 0 {
        0
    } else {
        let e = pairs.last();
        end_count(pairs.drop_last(), id, by_caller) + if (if by_caller {
            e.0
        } else {
            e.1
        }) == id {
            1nat
        } else {
            0nat
        }
    }
}

/// Index of the last symbol row for `id` among the first `k`.
pub open spec fn last_symbol(symbols: Seq<SymbolRow>, id: i64, k: int) -> Option<int>
    decreases k,
{
    if k <= 0 {
        None
    } else if symbols[k - 1].0 == id {
        Some(k - 1)
    } else {
        last_symbol(symbols, id, k - 1)
    }
}

/// The node describes its symbol as the rows and references give it.
pub open spec fn node_matches(n: CallGraphNode, symbols: Seq<SymbolRow>, pairs: Seq<(i64, i64)>) -> bool {
    &&& last_symbol(symbols, n.symbol_id, symbols.len() as int) is Some
    &&& {
        let j = last_symbol(symbols, n.symbol_id, symbols.len() as int)->0;
        &&& n.name@ == symbols[j].1@
        &&& n.kind@ == symbols[j].2@
        &&& n.file_path@ == symbols[j].3@
        &&& n.is_exported == symbols[j].4
    }
    &&& n.callers_count == end_count(pairs, n.symbol_id, false)
    &&& n.callees_count == end_count(pairs, n.symbol_id, true)
}

proof fn lemma_last_symbol_bound(symbols: Seq<SymbolRow>, id: i64, k: int)
    requires
        k <= symbols.len(),
    ensures
        last_symbol(symbols, id, k) matches Some(j) ==> 0 <= j < k && symbols[j].0 == id,
    decreases k,
{
    if k > 0 {
        lemma_last_symbol_bound(symbols, id, k - 1);
    }
}

proof fn lemma_end_count_bound(pairs: Seq<(i64, i64)>, id: i64, by_caller: bool)
    ensures
        end_count(pairs, id, by_caller) <= pairs.len(),
    decreases pairs.len(),
{
    if pairs.len() > 0 {
        lemma_end_count_bound(pairs.drop_last(), id, by_caller);
    }
}

/// How many pairs have each caller (or callee).
fn end_counts(pairs: &Vec<(i64, i64)>, by_caller: bool) -> (m: HashMap<i64, usize>)
    ensures
        forall|id: i64| #[trigger] m@.contains_key(id) ==> m@[id] == end_count(pairs@, id, by_caller),
        forall|id: i64| !#[trigger] m@.contains_key(id) ==> end_count(pairs@, id, by_caller) == 0,
{
    let mut m: HashMap<i64, usize> = HashMap::new();
    let mut i: usize = 0;
    while i < pairs.len()
        invariant
            i <= pairs.len(),
            forall|id: i64|
                #[trigger] m@.contains_key(id) ==> m@[id] == end_count(pairs@.take(i as int), id, by_caller),
            forall|id: i64| !#[trigger] m@.contains_key(id) ==> end_count(pairs@.take(i as int), id, by_caller) == 0,
            forall|id: i64| #[trigger] m@.contains_key(id) ==> m@[id] <= i,
        decreases pairs.len() - i,
    {
        let key = if by_caller {
            pairs[i].0
        } else {
            pairs[i].1
        };
        let cur: usize = match m.get(&key) {
            Some(c) => *c,
            None => 0,
        };
        proof {
            assert(pairs@.take(i + 1).drop_last() =~= pairs@.take(i as int));
        }
        m.insert(key, cur + 1);
        i = i + 1;
    }
    proof {
        assert(pairs@.take(i as int) =~= pairs@);
    }
    m
}

/// Position of the last row of every symbol id.
fn symbol_index(symbols: &Vec<SymbolRow>) -> (m: HashMap<i64, usize>)
    ensures
        forall|id: i64|
            #[trigger] m@.contains_key(id) <==> last_symbol(symbols@, id, symbols.len() as int) is Some,
        forall|id: i64|
            #[trigger] m@.contains_key(id) ==> last_symbol(symbols@, id, symbols.len() as int) == Some(
                m@[id] as int,
            ),
{
    let mut m: HashMap<i64, usize> = HashMap::new();
    let mut i: usize = 0;
    while i < symbols.len()
        invariant
            i <= symbols.len(),
            forall|id: i64| #[trigger] m@.contains_key(id) <==> last_symbol(symbols@, id, i as int) is Some,
            forall|id: i64|
                #[trigger] m@.contains_key(id) ==> last_symbol(symbols@, id, i as int) == Some(m@[id] as int),
        decreases symbols.len() - i,
    {
        m.insert(symbols[i].0, i);
        i = i + 1;
    }
    m
}


/// Builds the call graph around `focus_symbol_id` (or around every symbol
/// when there is none): the symbols at most `max_depth` call steps away in
/// either direction, breadth-first from each root; the references that touch
/// them; and up to `MAX_CALL_CYCLES` call cycles among those references.
///
/// `refs` are the resolved references of the workspace (caller, callee,
/// reference type, source line); `symbols` its symbols.
#[verifier::spinoff_prover]
#[verifier::rlimit(40)]
pub fn build_call_graph(
    refs: &Vec<RefRow>,
    symbols: &Vec<SymbolRow>,
    focus_symbol_id: Option<i64>,
    max_depth: i64,
) -> (g: CallGraph)
    requires
        refs.len() < i64::MAX,
    ensures
        g.depth_limit_reached == limit_reached(refs@, symbols@, focus_symbol_id, max_depth),
        g.edges@.map_values(|e: CallGraphEdge| call_edge_view(e)) == touching(
            refs@,
            included_set(refs@, symbols@, focus_symbol_id, max_depth),
        ),
        forall|i: int, j: int| 0 <= i < j < g.nodes.len() ==> g.nodes[i].symbol_id != g.nodes[j].symbol_id,
        forall|i: int|
            0 <= i < g.nodes.len() ==> included(refs@, symbols@, focus_symbol_id, max_depth, #[trigger] g.nodes[i].symbol_id)
                && node_matches(g.nodes[i], symbols@, ref_pairs(refs@)),
        forall|x: i64|
            #[trigger] included(refs@, symbols@, focus_symbol_id, max_depth, x) && last_symbol(
                symbols@,
                x,
                symbols.len() as int,
            ) is Some ==> exists|i: int| 0 <= i < g.nodes.len() && g.nodes[i].symbol_id == x,
        g.cycles.len() <= MAX_CALL_CYCLES,
        forall|i: int| 0 <= i < g.cycles.len() ==> is_id_cycle(edge_pairs(g.edges@), #[trigger] g.cycles[i]@),
        g.cycles.len() == 0 <==> forall|c: Seq<i64>| !#[trigger] is_id_walk_cycle(edge_pairs(g.edges@), c),
        g.cycles.len() < MAX_CALL_CYCLES ==> forall|c: Seq<i64>|
            #[trigger] is_id_walk_cycle(edge_pairs(g.edges@), c) ==> walk_uses_closing_call(g.cycles@, c),
{
    let ghost rv = refs@;
    let ghost sv = symbols@;
    let ghost inc = included_set(rv, sv, focus_symbol_id, max_depth);
    let mut pairs: Vec<(i64, i64)> = Vec::new();
    let mut i: usize = 0;
    while i < refs.len()
        invariant
            rv == refs@,
            i <= refs.len(),
            pairs.len() == i,
            forall|q: int| 0 <= q < i ==> #[trigger] pairs@[q] == (rv[q].0, rv[q].1),
        decreases refs.len() - i,
    {
        pairs.push((refs[i].0, refs[i].1));
        i = i + 1;
    }
    let ghost ps = pairs@;
    assert(ps =~= ref_pairs(rv));
    let mut roots: Vec<i64> = Vec::new();
    match focus_symbol_id {
        Some(f) => {
            roots.push(f);
            proof {
                assert forall|r: i64| #[trigger] roots@.contains(r) <==> is_root(sv, focus_symbol_id, r) by {
                    if r == f {
                        assert(roots@[0] == f);
                    }
                }
            }
        },
        None => {
            let mut k: usize = 0;
            while k < symbols.len()
                invariant
                    sv == symbols@,
                    k <= symbols.len(),
                    roots.len() == k,
                    forall|q: int| 0 <= q < k ==> #[trigger] roots@[q] == sv[q].0,
                decreases symbols.len() - k,
            {
                roots.push(symbols[k].0);
                k = k + 1;
            }
            proof {
                assert forall|r: i64| #[trigger] roots@.contains(r) <==> is_root(sv, focus_symbol_id, r) by {
                    if roots@.contains(r) {
                        let q = choose|q: int| 0 <= q < roots.len() && roots@[q] == r;
                        assert(sv[q].0 == r);
                    }
                    if is_root(sv, focus_symbol_id, r) {
                        let q = choose|q: int| 0 <= q < sv.len() && #[trigger] sv[q].0 == r;
                        assert(roots@[q] == r);
                    }
                }
            }
        },
    }
    // The symbols within reach of some root.
    let mut inc_set: HashMap<i64, bool> = HashMap::new();
    let mut inc_list: Vec<i64> = Vec::new();
    let mut limit = false;
    let mut ri: usize = 0;
    while ri < roots.len()
        invariant
            ps == pairs@,
            ri <= roots.len(),
            forall|a: int, b: int| 0 <= a < b < inc_list.len() ==> inc_list[a] != inc_list[b],
            forall|x: i64| #[trigger] inc_set@.contains_key(x) <==> inc_list@.contains(x),
            forall|x: i64|
                #[trigger] inc_set@.contains_key(x) <==> exists|q: int|
                    0 <= q < ri && #[trigger] within(ps, roots@[q], x, max_depth as int),
            limit <==> exists|q: int| 0 <= q < ri && #[trigger] beyond_depth(ps, roots@[q], max_depth as int),
        decreases roots.len() - ri,
    {
        let (b, hit) = ball(&pairs, roots[ri], max_depth);
        let mut t: usize = 0;
        while t < b.len()
            invariant
                ps == pairs@,
                ri < roots.len(),
                t <= b.len(),
                forall|x: i64| #[trigger] b@.contains(x) <==> within(ps, roots@[ri as int], x, max_depth as int),
                forall|a: int, c: int| 0 <= a < c < inc_list.len() ==> inc_list[a] != inc_list[c],
                forall|x: i64| #[trigger] inc_set@.contains_key(x) <==> inc_list@.contains(x),
                forall|x: i64|
                    #[trigger] inc_set@.contains_key(x) <==> (exists|q: int|
                        0 <= q < ri && #[trigger] within(ps, roots@[q], x, max_depth as int)) || b@.take(
                        t as int,
                    ).contains(x),
            decreases b.len() - t,
        {
            let x = b[t];
            proof {
                assert(b@.take(t + 1) =~= b@.take(t as int).push(x));
                assert forall|y: i64| b@.take(t + 1).contains(y) <==> (b@.take(t as int).contains(y) || y == x) by {
                    if b@.take(t + 1).contains(y) && y != x {
                        let q = choose|q: int| 0 <= q < t + 1 && #[trigger] b@.take(t + 1)[q] == y;
                        assert(b@.take(t as int)[q] == y);
                    }
                    if b@.take(t as int).contains(y) {
                        let q = choose|q: int| 0 <= q < t && #[trigger] b@.take(t as int)[q] == y;
                        assert(b@.take(t + 1)[q] == y);
                    }
                    if y == x {
                        assert(b@.take(t + 1)[t as int] == y);
                    }
                }
            }
            if !inc_set.contains_key(&x) {
                let ghost pre = inc_list@;
                inc_set.insert(x, true);
                inc_list.push(x);
                proof {
                    assert forall|y: i64| #[trigger] inc_list@.contains(y) <==> (pre.contains(y) || y == x) by {
                        if inc_list@.contains(y) && y != x {
                            let q = choose|q: int| 0 <= q < inc_list@.len() && inc_list@[q] == y;
                            assert(pre[q] == y);
                        }
                        if pre.contains(y) {
                            let q = choose|q: int| 0 <= q < pre.len() && pre[q] == y;
                            assert(inc_list@[q] == y);
                        }
                        if y == x {
                            assert(inc_list@[inc_list@.len() - 1] == x);
                        }
                    }
                    assert forall|a: int, c: int| 0 <= a < c < inc_list.len() implies inc_list[a] != inc_list[c] by {
                        if c == inc_list.len() - 1 {
                            assert(pre.contains(inc_list[a]));
                        }
                    }
                }
            }
            t = t + 1;
        }
        proof {
            assert(b@.take(t as int) =~= b@);
            assert forall|x: i64|
                #[trigger] inc_set@.contains_key(x) <==> exists|q: int|
                    0 <= q < ri + 1 && #[trigger] within(ps, roots@[q], x, max_depth as int) by {
                if b@.contains(x) {
                    assert(within(ps, roots@[ri as int], x, max_depth as int));
                }
                if exists|q: int| 0 <= q < ri + 1 && #[trigger] within(ps, roots@[q], x, max_depth as int) {
                    let q = choose|q: int| 0 <= q < ri + 1 && #[trigger] within(ps, roots@[q], x, max_depth as int);
                    if q == ri {
                        assert(b@.contains(x));
                    }
                }
            }
            if hit {
                assert(beyond_depth(ps, roots@[ri as int], max_depth as int));
            }
            if exists|q: int| 0 <= q < ri + 1 && #[trigger] beyond_depth(ps, roots@[q], max_depth as int) {
                let q = choose|q: int| 0 <= q < ri + 1 && #[trigger] beyond_depth(ps, roots@[q], max_depth as int);
                if q < ri {
                    assert(limit);
                }
            }
        }
        limit = limit || hit;
        ri = ri + 1;
    }
    proof {
        assert forall|x: i64| #[trigger] inc_set@.contains_key(x) <==> inc.contains(x) by {
            if inc_set@.contains_key(x) {
                let q = choose|q: int| 0 <= q < ri && #[trigger] within(ps, roots@[q], x, max_depth as int);
                assert(roots@.contains(roots@[q]));
            }
            if inc.contains(x) {
                let r = choose|r: i64| is_root(sv, focus_symbol_id, r) && #[trigger] within(ps, r, x, max_depth as int);
                assert(roots@.contains(r));
                let q = choose|q: int| 0 <= q < roots.len() && roots@[q] == r;
                assert(within(ps, roots@[q], x, max_depth as int));
            }
        }
        if limit {
            let q = choose|q: int| 0 <= q < ri && #[trigger] beyond_depth(ps, roots@[q], max_depth as int);
            assert(roots@.contains(roots@[q]));
        }
        if limit_reached(rv, sv, focus_symbol_id, max_depth) {
            let r = choose|r: i64| is_root(sv, focus_symbol_id, r) && #[trigger] beyond_depth(ps, r, max_depth as int);
            assert(roots@.contains(r));
            let q = choose|q: int| 0 <= q < roots.len() && roots@[q] == r;
            assert(beyond_depth(ps, roots@[q], max_depth as int));
        }
    }
    // The references touching an included symbol.
    let mut edges: Vec<CallGraphEdge> = Vec::new();
    let mut j: usize = 0;
    while j < refs.len()
        invariant
            rv == refs@,
            j <= refs.len(),
            forall|x: i64| #[trigger] inc_set@.contains_key(x) <==> inc.contains(x),
            edges@.map_values(|e: CallGraphEdge| call_edge_view(e)) == touching(rv.take(j as int), inc),
        decreases refs.len() - j,
    {
        let r = &refs[j];
        proof {
            assert(rv.take(j + 1).drop_last() =~= rv.take(j as int));
        }
        if inc_set.contains_key(&r.0) || inc_set.contains_key(&r.1) {
            let ghost pre = edges@;
            edges.push(
                CallGraphEdge { caller_id: r.0, callee_id: r.1, reference_type: r.2.clone(), source_line: r.3 },
            );
            proof {
                assert(edges@.map_values(|e: CallGraphEdge| call_edge_view(e)) =~= pre.map_values(
                    |e: CallGraphEdge| call_edge_view(e),
                ).push(ref_view(rv[j as int])));
            }
        }
        j = j + 1;
    }
    proof {
        assert(rv.take(j as int) =~= rv);
    }
    // The included symbols the index knows, with their reference counts.
    let to_counts = end_counts(&pairs, false);
    let from_counts = end_counts(&pairs, true);
    let sidx = symbol_index(symbols);
    let mut nodes: Vec<CallGraphNode> = Vec::new();
    let mut t: usize = 0;
    while t < inc_list.len()
        invariant
            rv == refs@,
            sv == symbols@,
            ps == pairs@,
            ps == ref_pairs(rv),
            refs.len() < i64::MAX,
            t <= inc_list.len(),
            forall|a: int, b: int| 0 <= a < b < inc_list.len() ==> inc_list[a] != inc_list[b],
            forall|x: i64| #[trigger] inc_set@.contains_key(x) <==> inc_list@.contains(x),
            forall|x: i64| #[trigger] inc_set@.contains_key(x) <==> inc.contains(x),
            forall|id: i64| #[trigger] to_counts@.contains_key(id) ==> to_counts@[id] == end_count(ps, id, false),
            forall|id: i64| !#[trigger] to_counts@.contains_key(id) ==> end_count(ps, id, false) == 0,
            forall|id: i64| #[trigger] from_counts@.contains_key(id) ==> from_counts@[id] == end_count(ps, id, true),
            forall|id: i64| !#[trigger] from_counts@.contains_key(id) ==> end_count(ps, id, true) == 0,
            forall|id: i64|
                #[trigger] sidx@.contains_key(id) <==> last_symbol(sv, id, sv.len() as int) is Some,
            forall|id: i64|
                #[trigger] sidx@.contains_key(id) ==> last_symbol(sv, id, sv.len() as int) == Some(sidx@[id] as int),
            forall|a: int, b: int| 0 <= a < b < nodes.len() ==> nodes[a].symbol_id != nodes[b].symbol_id,
            forall|a: int|
                0 <= a < nodes.len() ==> inc.contains(#[trigger] nodes[a].symbol_id) && node_matches(nodes[a], sv, ps),
            forall|a: int| 0 <= a < nodes.len() ==> inc_list@.take(t as int).contains(#[trigger] nodes[a].symbol_id),
            forall|x: i64|
                #[trigger] inc_list@.take(t as int).contains(x) && last_symbol(sv, x, sv.len() as int) is Some
                    ==> exists|a: int| 0 <= a < nodes.len() && nodes[a].symbol_id == x,
        decreases inc_list.len() - t,
    {
        let x = inc_list[t];
        proof {
            assert(inc_list@.take(t + 1) =~= inc_list@.take(t as int).push(x));
            assert forall|y: i64| inc_list@.take(t + 1).contains(y) <==> (inc_list@.take(t as int).contains(y) || y == x) by {
                if inc_list@.take(t + 1).contains(y) && y != x {
                    let q = choose|q: int| 0 <= q < t + 1 && #[trigger] inc_list@.take(t + 1)[q] == y;
                    assert(inc_list@.take(t as int)[q] == y);
                }
                if inc_list@.take(t as int).contains(y) {
                    let q = choose|q: int| 0 <= q < t && #[trigger] inc_list@.take(t as int)[q] == y;
                    assert(inc_list@.take(t + 1)[q] == y);
                }
                if y == x {
                    assert(inc_list@.take(t + 1)[t as int] == y);
                }
            }
            assert(!inc_list@.take(t as int).contains(x)) by {
                if inc_list@.take(t as int).contains(x) {
                    let q = choose|q: int| 0 <= q < t && inc_list@.take(t as int)[q] == x;
                    assert(inc_list[q] == inc_list[t as int]);
                }
            }
            assert(inc_list@.contains(x));
        }
        match sidx.get(&x) {
            Some(jj) => {
                let jj = *jj;
                proof {
                    lemma_last_symbol_bound(sv, x, sv.len() as int);
                    lemma_end_count_bound(ps, x, false);
                    lemma_end_count_bound(ps, x, true);
                }
                let callers: i64 = match to_counts.get(&x) {
                    Some(c) => *c as i64,
                    None => 0,
                };
                let callees: i64 = match from_counts.get(&x) {
                    Some(c) => *c as i64,
                    None => 0,
                };
                let row = &symbols[jj];
                let node = CallGraphNode {
                    symbol_id: x,
                    name: row.1.clone(),
                    kind: row.2.clone(),
                    file_path: row.3.clone(),
                    callers_count: callers,
                    callees_count: callees,
                    is_exported: row.4,
                };
                proof {
                    assert(inc_set@.contains_key(x));
                    assert(inc.contains(x));
                    assert(last_symbol(sv, x, sv.len() as int) == Some(jj as int));
                    assert(node.callers_count == end_count(ps, x, false));
                    assert(node.callees_count == end_count(ps, x, true));
                    assert(node_matches(node, sv, ps));
                }
                let ghost pre = nodes@;
                nodes.push(node);
                proof {
                    assert(nodes@[nodes@.len() - 1] == node);
                    assert forall|a: int, b: int| 0 <= a < b < nodes.len() implies nodes[a].symbol_id != nodes[b].symbol_id by {
                        if b == nodes.len() - 1 {
                            assert(nodes[a] == pre[a]);
                            assert(inc_list@.take(t as int).contains(pre[a].symbol_id));
                        }
                    }
                    assert forall|a: int| 0 <= a < nodes.len() implies inc.contains(#[trigger] nodes[a].symbol_id)
                        && node_matches(nodes[a], sv, ps) by {
                        if a < nodes.len() - 1 {
                            assert(nodes[a] == pre[a]);
                        }
                    }
                    assert forall|a: int| 0 <= a < nodes.len() implies inc_list@.take(t + 1).contains(
                        #[trigger] nodes[a].symbol_id,
                    ) by {
                        if a < nodes.len() - 1 {
                            assert(nodes[a] == pre[a]);
                        }
                    }
                    assert forall|y: i64|
                        #[trigger] inc_list@.take(t + 1).contains(y) && last_symbol(sv, y, sv.len() as int) is Some
                            implies exists|a: int| 0 <= a < nodes.len() && nodes[a].symbol_id == y by {
                        if y == x {
                            assert(nodes[nodes.len() - 1].symbol_id == y);
                        } else {
                            assert(inc_list@.take(t as int).contains(y));
                            let a = choose|a: int| 0 <= a < pre.len() && pre[a].symbol_id == y;
                            assert(nodes[a] == pre[a]);
                        }
                    }
                }
            },
            None => {
                proof {
                    assert forall|a: int| 0 <= a < nodes.len() implies inc_list@.take(t + 1).contains(
                        #[trigger] nodes[a].symbol_id,
                    ) by {
                        assert(inc_list@.take(t as int).contains(nodes[a].symbol_id));
                    }
                    assert forall|y: i64|
                        #[trigger] inc_list@.take(t + 1).contains(y) && last_symbol(sv, y, sv.len() as int) is Some
                            implies exists|a: int| 0 <= a < nodes.len() && nodes[a].symbol_id == y by {
                        if y != x {
                            assert(inc_list@.take(t as int).contains(y));
                        }
                    }
                }
            },
        }
        t = t + 1;
    }
    proof {
        assert(inc_list@.take(t as int) =~= inc_list@);
        assert forall|x: i64|
            #[trigger] included(rv, sv, focus_symbol_id, max_depth, x) && last_symbol(sv, x, sv.len() as int) is Some
                implies exists|a: int| 0 <= a < nodes.len() && nodes[a].symbol_id == x by {
            assert(inc.contains(x));
            assert(inc_set@.contains_key(x));
            assert(inc_list@.take(t as int).contains(x));
        }
    }
    // Call cycles among the returned references.
    let mut gp: Vec<(i64, i64)> = Vec::new();
    let mut e: usize = 0;
    while e < edges.len()
        invariant
            e <= edges.len(),
            gp.len() == e,
            forall|q: int| 0 <= q < e ==> #[trigger] gp@[q] == (edges@[q].caller_id, edges@[q].callee_id),
        decreases edges.len() - e,
    {
        gp.push((edges[e].caller_id, edges[e].callee_id));
        e = e + 1;
    }
    let ghost gpv = gp@;
    assert(gpv =~= edge_pairs(edges@));
    let ig = build_id_graph(&inc_list, &gp);
    let mut order: Vec<usize> = Vec::new();
    let mut o: usize = 0;
    while o < ig.ids.len()
        invariant
            o <= ig.ids.len(),
            order.len() == o,
            forall|q: int| 0 <= q < o ==> #[trigger] order@[q] == q,
        decreases ig.ids.len() - o,
    {
        order.push(o);
        o = o + 1;
    }
    let raw = find_cycles_from(&ig.adj, &order, MAX_CALL_CYCLES);
    let mut cycles: Vec<Vec<i64>> = Vec::new();
    let mut c: usize = 0;
    while c < raw.len()
        invariant
            c <= raw.len(),
            raw.len() <= MAX_CALL_CYCLES,
            ig.represents(inc_list@, gpv),
            crate::digraph::cycles_ok(ig.g(), raw@),
            cycles.len() == c,
            forall|q: int| 0 <= q < c ==> is_id_cycle(gpv, #[trigger] cycles@[q]@),
            forall|q: int|
                0 <= q < c ==> (#[trigger] cycles@[q])@.len() == raw@[q]@.len() && forall|j: int|
                    0 <= j < raw@[q]@.len() ==> cycles@[q]@[j] == ig.ids[raw@[q]@[j] as int],
        decreases raw.len() - c,
    {
        let cyc = &raw[c];
        let ghost ci = ints(cyc@);
        assert(is_simple_cycle(ig.g(), ci));
        let mut ids: Vec<i64> = Vec::new();
        let mut k: usize = 0;
        while k < cyc.len()
            invariant
                k <= cyc.len(),
                ci == ints(cyc@),
                is_simple_cycle(ig.g(), ci),
                ig.g().len() == ig.ids.len(),
                ids.len() == k,
                forall|q: int| 0 <= q < k ==> #[trigger] ids@[q] == ig.ids[cyc@[q] as int],
            decreases cyc.len() - k,
        {
            assert(0 <= ci[k as int] < ig.g().len());
            ids.push(ig.ids[cyc[k]]);
            k = k + 1;
        }
        proof {
            lemma_cycle_to_ids(&ig, inc_list@, gpv, ci);
            let w = ci.map_values(|x: int| ig.ids[x]);
            assert(w =~= ids@);
            assert forall|a: int, b: int| 0 <= a < b < ids.len() implies ids@[a] != ids@[b] by {
                assert(ci[a] != ci[b]);
            }
        }
        cycles.push(ids);
        c = c + 1;
    }
    proof {
        if cycles.len() < MAX_CALL_CYCLES {
            assert forall|cc: Seq<i64>| #[trigger] is_id_walk_cycle(gpv, cc) implies walk_uses_closing_call(
                cycles@,
                cc,
            ) by {
                let ci = lemma_id_cycle_to_index(&ig, inc_list@, gpv, cc);
                assert(0 <= ci[0] < ig.g().len());
                assert(order@[ci[0]] == ci[0] as usize);
                assert(order@.contains(ci[0] as usize));
                assert(uses_closing_edge(raw@, ci));
                let l = cc.len() - 1;
                assert(ig.ids[ci[l]] == cc[l]);
                assert(ig.ids[ci[0]] == cc[0]);
                if closes(raw@, ci.last(), ci[0]) {
                    let q = choose|q: int|
                        0 <= q < raw@.len() && (#[trigger] raw@[q])@.last() as int == ci.last()
                            && raw@[q]@[0] as int == ci[0];
                    let m = raw@[q]@.len() - 1;
                    assert(cycles@[q]@[m] == ig.ids[raw@[q]@[m] as int]);
                    assert(cycles@[q]@[0] == ig.ids[raw@[q]@[0] as int]);
                    assert(closes_call_cycle(cycles@, cc.last(), cc[0]));
                } else {
                    let t = choose|t: int| 0 <= t < ci.len() - 1 && #[trigger] closes(raw@, ci[t], ci[t + 1]);
                    let q = choose|q: int|
                        0 <= q < raw@.len() && (#[trigger] raw@[q])@.last() as int == ci[t]
                            && raw@[q]@[0] as int == ci[t + 1];
                    let m = raw@[q]@.len() - 1;
                    assert(cycles@[q]@[m] == ig.ids[raw@[q]@[m] as int]);
                    assert(cycles@[q]@[0] == ig.ids[raw@[q]@[0] as int]);
                    assert(ig.ids[ci[t]] == cc[t]);
                    assert(ig.ids[ci[t + 1]] == cc[t + 1]);
                    assert(closes_call_cycle(cycles@, cc[t], cc[t + 1]));
                }
            }
        }
    }
    proof {
        if cycles.len() == 0 {
            let (visited, on_stack) = choose|visited: Seq<bool>, on_stack: Seq<bool>|
                {
                    &&& #[trigger] closed_black(ig.g(), visited, on_stack)
                    &&& visited.len() == ig.adj.len()
                    &&& on_stack.len() == ig.adj.len()
                    &&& forall|q: int|
                        0 <= q < order.len() ==> is_black(visited, on_stack, #[trigger] order@[q] as int)
                };
            assert forall|x: int| 0 <= x < ig.g().len() implies is_black(visited, on_stack, x) by {
                assert(order@[x] == x);
            }
            lemma_all_black_acyclic(ig.g(), visited, on_stack);
            assert forall|cc: Seq<i64>| !#[trigger] is_id_walk_cycle(edge_pairs(edges@), cc) by {
                if is_id_walk_cycle(gpv, cc) {
                    let ci = lemma_id_cycle_to_index(&ig, inc_list@, gpv, cc);
                }
            }
        } else {
            assert(is_id_cycle(gpv, cycles@[0]@));
            assert(is_id_walk_cycle(edge_pairs(edges@), cycles@[0]@));
        }
    }
    let g = CallGraph { nodes, edges, cycles, depth_limit_reached: limit };
    proof {
        if g.cycles.len() > 0 {
            assert(is_id_walk_cycle(edge_pairs(g.edges@), g.cycles@[0]@));
        }
    }
    g
}


/// A larger depth limit keeps every symbol a smaller one includes.
pub proof fn lemma_included_monotone(
    refs: Seq<RefRow>,
    symbols: Seq<SymbolRow>,
    focus: Option<i64>,
    d1: i64,
    d2: i64,
    x: i64,
)
    requires
        d1 <= d2,
        included(refs, symbols, focus, d1, x),
    ensures
        included(refs, symbols, focus, d2, x),
{
    let ps = ref_pairs(refs);
    let r = choose|r: i64| is_root(symbols, focus, r) && #[trigger] within(ps, r, x, d1 as int);
    let p = choose|p: Seq<i64>| #[trigger] is_call_walk(ps, p) && p[0] == r && p.last() == x && p.len() <= d1 + 1;
    assert(within(ps, r, x, d2 as int));
}

} // verus!
