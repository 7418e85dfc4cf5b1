//! Directed graphs over node indices `0..n`, given as adjacency lists, and
//! the depth-first search that the analyses use to find cycles.
use vstd::prelude::*;

verus! {

/// The mathematical adjacency lists of an executable graph.
pub open spec fn adj_view(adj: Seq<Vec<usize>>) -> Seq<Seq<usize>> {
    Seq::new(adj.len(), |i: int| adj[i]@)
}

/// Every successor names a node of the graph.
pub open spec fn well_formed(adj: Seq<Seq<usize>>) -> bool {
    forall|u: int, k: int|
        0 <= u < adj.len() && 0 <= k < adj[u].len() ==> #[trigger] adj[u][k] < adj.len()
}

/// There is an edge from `u` to `v`.
pub open spec fn has_edge(adj: Seq<Seq<usize>>, u: int, v: int) -> bool {
    &&& 0 <= u < adj.len()
    &&& exists|k: int| 0 <= k < adj[u].len() && #[trigger] adj[u][k] == v
}

/// `p` is a non-empty walk that follows edges of the graph.
pub open spec fn is_path(adj: Seq<Seq<usize>>, p: Seq<int>) -> bool {
    &&& p.len() > 0
    &&& forall|i: int| 0 <= i < p.len() ==> 0 <= #[trigger] p[i] < adj.len()
    &&& forall|i: int| 0 <= i < p.len() - 1 ==> has_edge(adj, #[trigger] p[i], p[i + 1])
}

/// `c` is a closed walk: a path whose last node has an edge back to its first.
pub open spec fn is_cycle(adj: Seq<Seq<usize>>, c: Seq<int>) -> bool {
    &&& is_path(adj, c)
    &&& has_edge(adj, c.last(), c[0])
}

/// A cycle that visits no node twice.
pub open spec fn is_simple_cycle(adj: Seq<Seq<usize>>, c: Seq<int>) -> bool {
    &&& is_cycle(adj, c)
    &&& forall|i: int, j: int| 0 <= i < j < c.len() ==> c[i] != c[j]
}

/// The graph has no cycle at all.
pub open spec fn is_acyclic(adj: Seq<Seq<usize>>) -> bool {
    forall|c: Seq<int>| !#[trigger] is_cycle(adj, c)
}

/// There is a path from `s` to `t`.
pub open spec fn reaches(adj: Seq<Seq<usize>>, s: int, t: int) -> bool {
    exists|p: Seq<int>| #[trigger] is_path(adj, p) && p[0] == s && p.last() == t
}

/// Some cycle has a node that `s` reaches.
pub open spec fn reaches_cycle(adj: Seq<Seq<usize>>, s: int) -> bool {
    exists|c: Seq<int>| #[trigger] is_cycle(adj, c) && reaches(adj, s, c[0])
}

/// Index sequences as integer sequences.
pub open spec fn ints(s: Seq<usize>) -> Seq<int> {
    s.map_values(|x: usize| x as int)
}

/// A node is finished by the search: visited and no longer on the stack.
pub open spec fn is_black(visited: Seq<bool>, on_stack: Seq<bool>, u: int) -> bool {
    visited[u] && !on_stack[u]
}

/// Finished nodes only lead to finished nodes, and `rank` strictly
/// decreases along every such edge.
pub open spec fn ranked_black(
    adj: Seq<Seq<usize>>,
    visited: Seq<bool>,
    on_stack: Seq<bool>,
    rank: Seq<int>,
) -> bool {
    &&& rank.len() == adj.len()
    &&& forall|u: int, k: int|
        0 <= u < adj.len() && is_black(visited, on_stack, u) && 0 <= k < adj[u].len()
            ==> is_black(visited, on_stack, #[trigger] adj[u][k] as int) && rank[adj[u][k] as int]
            < rank[u]
}

pub open spec fn closed_black(adj: Seq<Seq<usize>>, visited: Seq<bool>, on_stack: Seq<bool>) -> bool {
    exists|rank: Seq<int>| ranked_black(adj, visited, on_stack, rank)
}

/// Some recorded cycle ends at `x` and starts at `y`: the edge from `x` to
/// `y` closed it.
pub open spec fn closes(cycles: Seq<Vec<usize>>, x: int, y: int) -> bool {
    exists|q: int|
        0 <= q < cycles.len() && (#[trigger] cycles[q])@.last() as int == x && cycles[q]@[0] as int
            == y
}

/// Some edge of the closed walk `c` (the one back to its start included)
/// closed a recorded cycle.
pub open spec fn uses_closing_edge(cycles: Seq<Vec<usize>>, c: Seq<int>) -> bool {
    ||| closes(cycles, c.last(), c[0])
    ||| exists|t: int| 0 <= t < c.len() - 1 && #[trigger] closes(cycles, c[t], c[t + 1])
}

/// Like `ranked_black`, except along edges that closed a recorded cycle:
/// from a finished node, every other edge leads to a finished node of
/// smaller rank.
pub open spec fn ranked_except(
    adj: Seq<Seq<usize>>,
    visited: Seq<bool>,
    on_stack: Seq<bool>,
    rank: Seq<int>,
    cycles: Seq<Vec<usize>>,
) -> bool {
    &&& rank.len() == adj.len()
    &&& forall|u: int, k: int|
        0 <= u < adj.len() && is_black(visited, on_stack, u) && 0 <= k < adj[u].len() ==> (
        is_black(visited, on_stack, #[trigger] adj[u][k] as int) && rank[adj[u][k] as int] < rank[u])
            || closes(cycles, u, adj[u][k] as int)
}

pub open spec fn closed_except(
    adj: Seq<Seq<usize>>,
    visited: Seq<bool>,
    on_stack: Seq<bool>,
    cycles: Seq<Vec<usize>>,
) -> bool {
    exists|rank: Seq<int>| ranked_except(adj, visited, on_stack, rank, cycles)
}

/// Recording more cycles keeps every closing edge closing.
proof fn lemma_closes_grow(a: Seq<Vec<usize>>, b: Seq<Vec<usize>>)
    requires
        a.len() <= b.len(),
        forall|q: int| 0 <= q < a.len() ==> #[trigger] b[q] == a[q],
    ensures
        forall|x: int, y: int| #[trigger] closes(a, x, y) ==> closes(b, x, y),
{
    assert forall|x: int, y: int| #[trigger] closes(a, x, y) implies closes(b, x, y) by {
        let q = choose|q: int|
            0 <= q < a.len() && (#[trigger] a[q])@.last() as int == x && a[q]@[0] as int == y;
        assert(b[q] == a[q]);
    }
}

/// Recording more cycles keeps a ranking valid.
proof fn lemma_ranked_grow(
    adj: Seq<Seq<usize>>,
    visited: Seq<bool>,
    on_stack: Seq<bool>,
    rank: Seq<int>,
    a: Seq<Vec<usize>>,
    b: Seq<Vec<usize>>,
)
    requires
        ranked_except(adj, visited, on_stack, rank, a),
        a.len() <= b.len(),
        forall|q: int| 0 <= q < a.len() ==> #[trigger] b[q] == a[q],
    ensures
        ranked_except(adj, visited, on_stack, rank, b),
{
    lemma_closes_grow(a, b);
}

/// With no recorded cycle, a ranking with exceptions is a plain ranking.
proof fn lemma_except_none(
    adj: Seq<Seq<usize>>,
    visited: Seq<bool>,
    on_stack: Seq<bool>,
    rank: Seq<int>,
    cycles: Seq<Vec<usize>>,
)
    requires
        ranked_except(adj, visited, on_stack, rank, cycles),
        cycles.len() == 0,
    ensures
        ranked_black(adj, visited, on_stack, rank),
{
    assert forall|u: int, k: int|
        0 <= u < adj.len() && is_black(visited, on_stack, u) && 0 <= k < adj[u].len() implies
        is_black(visited, on_stack, #[trigger] adj[u][k] as int) && rank[adj[u][k] as int] < rank[u] by {
        assert(!closes(cycles, u, adj[u][k] as int));
    }
}

proof fn lemma_except_path_prefix(
    adj: Seq<Seq<usize>>,
    visited: Seq<bool>,
    on_stack: Seq<bool>,
    rank: Seq<int>,
    cycles: Seq<Vec<usize>>,
    p: Seq<int>,
    i: int,
)
    requires
        ranked_except(adj, visited, on_stack, rank, cycles),
        is_path(adj, p),
        is_black(visited, on_stack, p[0]),
        0 <= i < p.len(),
        forall|t: int| 0 <= t < i ==> !#[trigger] closes(cycles, p[t], p[t + 1]),
    ensures
        is_black(visited, on_stack, p[i]),
        rank[p[i]] <= rank[p[0]] - i,
    decreases i,
{
    if i > 0 {
        lemma_except_path_prefix(adj, visited, on_stack, rank, cycles, p, i - 1);
        assert(has_edge(adj, p[i - 1], p[i]));
        let k = choose|k: int| 0 <= k < adj[p[i - 1]].len() && #[trigger] adj[p[i - 1]][k] == p[i];
        assert(adj[p[i - 1]][k] == p[i]);
        assert(!closes(cycles, p[i - 1], p[(i - 1) + 1]));
    }
}

/// A closed walk through a finished node uses an edge that closed a
/// recorded cycle.
proof fn lemma_cycle_uses_closing_edge(
    adj: Seq<Seq<usize>>,
    visited: Seq<bool>,
    on_stack: Seq<bool>,
    rank: Seq<int>,
    cycles: Seq<Vec<usize>>,
    c: Seq<int>,
)
    requires
        ranked_except(adj, visited, on_stack, rank, cycles),
        is_cycle(adj, c),
        is_black(visited, on_stack, c[0]),
    ensures
        uses_closing_edge(cycles, c),
{
    if !uses_closing_edge(cycles, c) {
        let l = c.len() - 1;
        lemma_except_path_prefix(adj, visited, on_stack, rank, cycles, c, l);
        assert(c.last() == c[l]);
        assert(has_edge(adj, c[l], c[0]));
        let k = choose|k: int| 0 <= k < adj[c[l]].len() && #[trigger] adj[c[l]][k] == c[0];
        assert(adj[c[l]][k] == c[0]);
        assert(!closes(cycles, c.last(), c[0]));
        assert(rank[c[0]] < rank[c[l]]);
    }
}

/// The search stack: a path of distinct visited nodes, exactly the nodes
/// marked `on_stack`.
pub open spec fn stack_ok(
    adj: Seq<Seq<usize>>,
    stack: Seq<usize>,
    visited: Seq<bool>,
    on_stack: Seq<bool>,
) -> bool {
    &&& visited.len() == adj.len()
    &&& on_stack.len() == adj.len()
    &&& stack.len() > 0 ==> is_path(adj, ints(stack))
    &&& forall|i: int, j: int| 0 <= i < j < stack.len() ==> stack[i] != stack[j]
    &&& forall|i: int| 0 <= i < stack.len() ==> #[trigger] stack[i] < adj.len()
    &&& forall|x: int| 0 <= x < adj.len() ==> (#[trigger] on_stack[x] <==> stack.contains(x as usize))
    &&& forall|x: int| 0 <= x < adj.len() && #[trigger] on_stack[x] ==> visited[x]
}

/// Every recorded cycle is a simple cycle of the graph.
pub open spec fn cycles_ok(adj: Seq<Seq<usize>>, cycles: Seq<Vec<usize>>) -> bool {
    forall|i: int| 0 <= i < cycles.len() ==> is_simple_cycle(adj, ints(#[trigger] cycles[i]@))
}

/// Every recorded cycle starts at a node reachable from one of `roots`.
pub open spec fn cycles_reach(adj: Seq<Seq<usize>>, cycles: Seq<Vec<usize>>, roots: Seq<usize>) -> bool {
    forall|i: int|
        0 <= i < cycles.len() ==> exists|k: int|
            0 <= k < roots.len() && reaches(adj, roots[k] as int, (#[trigger] cycles[i])@[0] as int)
}

/// Number of `false` entries.
pub open spec fn count_false(s: Seq<bool>) -> nat
    decreases s.len(),
{
    if s.len() == 0 {
        0
    } else {
        count_false(s.drop_last()) + if s.last() {
            0nat
        } else {
            1nat
        }
    }
}

pub proof fn lemma_count_false_grow(a: Seq<bool>, b: Seq<bool>)
    requires
        a.len() == b.len(),
        forall|i: int| 0 <= i < a.len() && #[trigger] a[i] ==> b[i],
    ensures
        count_false(b) <= count_false(a),
        (exists|i: int| 0 <= i < a.len() && !a[i] && #[trigger] b[i]) ==> count_false(b)
            < count_false(a),
    decreases a.len(),
{
    if a.len() > 0 {
        lemma_count_false_grow(a.drop_last(), b.drop_last());
        if exists|i: int| 0 <= i < a.len() && !a[i] && #[trigger] b[i] {
            let i = choose|i: int| 0 <= i < a.len() && !a[i] && #[trigger] b[i];
            if i < a.len() - 1 {
                assert(a.drop_last()[i] == a[i]);
                assert(b.drop_last()[i] == b[i]);
            }
        }
    }
}

/// The largest rank among the listed nodes (0 for none).
pub open spec fn max_rank(rank: Seq<int>, nodes: Seq<usize>) -> int
    decreases nodes.len(),
{
    if nodes.len() == 0 {
        0
    } else {
        let m = max_rank(rank, nodes.drop_last());
        let r = rank[nodes.last() as int];
        if r > m {
            r
        } else {
            m
        }
    }
}

proof fn lemma_max_rank(rank: Seq<int>, nodes: Seq<usize>)
    ensures
        forall|k: int| 0 <= k < nodes.len() ==> rank[#[trigger] nodes[k] as int] <= max_rank(
            rank,
            nodes,
        ),
    decreases nodes.len(),
{
    if nodes.len() > 0 {
        lemma_max_rank(rank, nodes.drop_last());
        assert forall|k: int| 0 <= k < nodes.len() implies rank[#[trigger] nodes[k] as int]
            <= max_rank(rank, nodes) by {
            if k < nodes.len() - 1 {
                assert(nodes.drop_last()[k] == nodes[k]);
            }
        }
    }
}

/// Along a path that starts at a finished node, every node is finished and
/// the rank drops by at least one per step.
proof fn lemma_black_path(
    adj: Seq<Seq<usize>>,
    visited: Seq<bool>,
    on_stack: Seq<bool>,
    rank: Seq<int>,
    p: Seq<int>,
)
    requires
        ranked_black(adj, visited, on_stack, rank),
        is_path(adj, p),
        is_black(visited, on_stack, p[0]),
    ensures
        forall|i: int|
            0 <= i < p.len() ==> is_black(visited, on_stack, #[trigger] p[i]) && rank[p[i]]
                <= rank[p[0]] - i,
{
    assert forall|i: int| 0 <= i < p.len() implies is_black(visited, on_stack, #[trigger] p[i])
        && rank[p[i]] <= rank[p[0]] - i by {
        lemma_black_path_prefix(adj, visited, on_stack, rank, p, i);
    }
}

proof fn lemma_black_path_prefix(
    adj: Seq<Seq<usize>>,
    visited: Seq<bool>,
    on_stack: Seq<bool>,
    rank: Seq<int>,
    p: Seq<int>,
    i: int,
)
    requires
        ranked_black(adj, visited, on_stack, rank),
        is_path(adj, p),
        is_black(visited, on_stack, p[0]),
        0 <= i < p.len(),
    ensures
        is_black(visited, on_stack, p[i]),
        rank[p[i]] <= rank[p[0]] - i,
    decreases i,
{
    if i > 0 {
        lemma_black_path_prefix(adj, visited, on_stack, rank, p, i - 1);
        assert(has_edge(adj, p[i - 1], p[i]));
        let k = choose|k: int| 0 <= k < adj[p[i - 1]].len() && #[trigger] adj[p[i - 1]][k] == p[i];
        assert(adj[p[i - 1]][k] == p[i]);
    }
}

/// No cycle passes through a finished node when the finished nodes are
/// ranked.
pub proof fn lemma_no_black_cycle(
    adj: Seq<Seq<usize>>,
    visited: Seq<bool>,
    on_stack: Seq<bool>,
    rank: Seq<int>,
    c: Seq<int>,
)
    requires
        ranked_black(adj, visited, on_stack, rank),
        is_cycle(adj, c),
    ensures
        !is_black(visited, on_stack, c[0]),
{
    if !is_black(visited, on_stack, c[0]) {
        return;
    }
    lemma_black_path(adj, visited, on_stack, rank, c);
    let last = c.last();
    assert(is_black(visited, on_stack, c[c.len() - 1]));
    assert(has_edge(adj, last, c[0]));
    let k = choose|k: int| 0 <= k < adj[last].len() && #[trigger] adj[last][k] == c[0];
    assert(adj[last][k] == c[0]);
    assert(rank[c[0]] < rank[last]);
    assert(rank[c[c.len() - 1]] <= rank[c[0]] - (c.len() - 1));
}

/// A path from a finished node ends at a finished node.
pub proof fn lemma_black_reach(
    adj: Seq<Seq<usize>>,
    visited: Seq<bool>,
    on_stack: Seq<bool>,
    rank: Seq<int>,
    p: Seq<int>,
)
    requires
        ranked_black(adj, visited, on_stack, rank),
        is_path(adj, p),
        is_black(visited, on_stack, p[0]),
    ensures
        is_black(visited, on_stack, p.last()),
{
    lemma_black_path(adj, visited, on_stack, rank, p);
    assert(is_black(visited, on_stack, p[p.len() - 1]));
}

/// When every node is finished and the finished nodes are ranked, the
/// graph has no cycle.
pub proof fn lemma_all_black_acyclic(
    adj: Seq<Seq<usize>>,
    visited: Seq<bool>,
    on_stack: Seq<bool>,
)
    requires
        closed_black(adj, visited, on_stack),
        visited.len() == adj.len(),
        on_stack.len() == adj.len(),
        forall|x: int| 0 <= x < adj.len() ==> is_black(visited, on_stack, x),
    ensures
        is_acyclic(adj),
{
    let rank = choose|rank: Seq<int>| ranked_black(adj, visited, on_stack, rank);
    assert forall|c: Seq<int>| !#[trigger] is_cycle(adj, c) by {
        if is_cycle(adj, c) {
            assert(0 <= c[0] < adj.len());
            lemma_no_black_cycle(adj, visited, on_stack, rank, c);
        }
    }
}

/// When `s` is finished and the finished nodes are ranked, no cycle is
/// reachable from `s`.
pub proof fn lemma_black_no_reachable_cycle(
    adj: Seq<Seq<usize>>,
    visited: Seq<bool>,
    on_stack: Seq<bool>,
    s: int,
)
    requires
        closed_black(adj, visited, on_stack),
        0 <= s < adj.len(),
        is_black(visited, on_stack, s),
    ensures
        !reaches_cycle(adj, s),
{
    let rank = choose|rank: Seq<int>| ranked_black(adj, visited, on_stack, rank);
    if reaches_cycle(adj, s) {
        let c = choose|c: Seq<int>| #[trigger] is_cycle(adj, c) && reaches(adj, s, c[0]);
        let p = choose|p: Seq<int>| #[trigger] is_path(adj, p) && p[0] == s && p.last() == c[0];
        lemma_black_reach(adj, visited, on_stack, rank, p);
        lemma_no_black_cycle(adj, visited, on_stack, rank, c);
    }
}


/// Depth-first search from the unvisited node `u`. Each edge into a node on
/// the current stack closes a cycle: the stack from that node to the top is
/// recorded. The search stops as soon as `cap` cycles are recorded.
fn dfs_cycles(
    u: usize,
    adj: &Vec<Vec<usize>>,
    visited: &mut Vec<bool>,
    stack: &mut Vec<usize>,
    on_stack: &mut Vec<bool>,
    cycles: &mut Vec<Vec<usize>>,
    cap: usize,
    Ghost(roots): Ghost<Seq<usize>>,
)
    requires
        well_formed(adj_view(adj@)),
        roots.contains(if old(stack).len() > 0 { old(stack)@[0] } else { u }),
        cycles_reach(adj_view(adj@), old(cycles)@, roots),
        u < adj.len(),
        !old(visited)[u as int],
        stack_ok(adj_view(adj@), old(stack)@, old(visited)@, old(on_stack)@),
        old(stack).len() > 0 ==> has_edge(adj_view(adj@), old(stack)@.last() as int, u as int),
        cycles_ok(adj_view(adj@), old(cycles)@),
        old(cycles).len() < cap,
        closed_except(adj_view(adj@), old(visited)@, old(on_stack)@, old(cycles)@),
    ensures
        final(visited).len() == adj.len(),
        final(on_stack).len() == adj.len(),
        forall|i: int| 0 <= i < adj.len() && #[trigger] old(visited)[i] ==> final(visited)[i],
        final(visited)[u as int],
        cycles_ok(adj_view(adj@), final(cycles)@),
        cycles_reach(adj_view(adj@), final(cycles)@, roots),
        final(cycles).len() <= cap,
        old(cycles).len() <= final(cycles).len(),
        forall|i: int| 0 <= i < old(cycles).len() ==> #[trigger] final(cycles)@[i] == old(cycles)@[i],
        final(cycles).len() < cap ==> {
            &&& final(stack)@ == old(stack)@
            &&& final(on_stack)@ == old(on_stack)@
            &&& stack_ok(adj_view(adj@), final(stack)@, final(visited)@, final(on_stack)@)
        },
        final(cycles).len() < cap ==> closed_except(
            adj_view(adj@),
            final(visited)@,
            final(on_stack)@,
            final(cycles)@,
        ),
    decreases count_false(old(visited)@),
{
    let ghost g = adj_view(adj@);
    let ghost old_stack = stack@;
    let ghost old_on = on_stack@;
    let ghost old_visited = visited@;
    visited.set(u, true);
    stack.push(u);
    on_stack.set(u, true);
    proof {
        assert(!old_on[u as int]);
        assert(!old_stack.contains(u));
        assert(ints(stack@) =~= ints(old_stack).push(u as int));
        if old_stack.len() > 0 {
            assert(ints(old_stack).last() == old_stack.last() as int);
        }
        assert forall|x: int| 0 <= x < adj.len() implies (#[trigger] on_stack@[x] <==> stack@.contains(
            x as usize,
        )) by {
            if x != u {
                if old_stack.contains(x as usize) {
                    let j = choose|j: int| 0 <= j < old_stack.len() && old_stack[j] == x as usize;
                    assert(stack@[j] == x as usize);
                }
                if stack@.contains(x as usize) {
                    let j = choose|j: int| 0 <= j < stack@.len() && stack@[j] == x as usize;
                    assert(j < old_stack.len());
                    assert(old_stack[j] == x as usize);
                }
            } else {
                assert(stack@[stack@.len() - 1] == u);
            }
        }
        let rank = choose|rank: Seq<int>| ranked_except(g, old_visited, old_on, rank, cycles@);
        assert(ranked_except(g, visited@, on_stack@, rank, cycles@));
    }
    let succs = &adj[u];
    let mut i: usize = 0;
    while i < succs.len()
        invariant
            g == adj_view(adj@),
            well_formed(g),
            u < adj.len(),
            succs@ == g[u as int],
            i <= succs.len(),
            visited.len() == adj.len(),
            on_stack.len() == adj.len(),
            forall|x: int| 0 <= x < adj.len() && #[trigger] old_visited[x] ==> visited[x],
            visited[u as int],
            stack@ == old_stack.push(u),
            on_stack@ == old_on.update(u as int, true),
            stack_ok(g, stack@, visited@, on_stack@),
            old_visited == old(visited)@,
            old_visited.len() == adj.len(),
            !old_visited[u as int],
            old_stack == old(stack)@,
            old_on == old(on_stack)@,
            cycles_ok(g, cycles@),
            cycles_reach(g, cycles@, roots),
            roots.contains(stack@[0]),
            cycles.len() < cap,
            old(cycles).len() <= cycles.len(),
            forall|j: int| 0 <= j < old(cycles).len() ==> #[trigger] cycles@[j] == old(cycles)@[j],
            closed_except(g, visited@, on_stack@, cycles@),
            forall|j: int|
                0 <= j < i ==> is_black(visited@, on_stack@, #[trigger] succs@[j] as int) || closes(
                    cycles@,
                    u as int,
                    succs@[j] as int,
                ),
        decreases succs.len() - i,
    {
        let v = succs[i];
        assert(g[u as int][i as int] == v);
        assert(v < adj.len());
        if !visited[v] {
            proof {
                assert(has_edge(g, u as int, v as int));
                assert(stack@.last() == u);
                lemma_count_false_grow(old_visited, visited@);
                assert(!old_visited[u as int] && visited@[u as int]);
            }
            let ghost pre_visited = visited@;
            let ghost pre_on = on_stack@;
            let ghost pre_cycles = cycles@;
            dfs_cycles(v, adj, visited, stack, on_stack, cycles, cap, Ghost(roots));
            if cycles.len() >= cap {
                return;
            }
            proof {
                assert(on_stack@ == pre_on);
                lemma_closes_grow(pre_cycles, cycles@);
                assert forall|j: int| 0 <= j <= i implies is_black(
                    visited@,
                    on_stack@,
                    #[trigger] succs@[j] as int,
                ) || closes(cycles@, u as int, succs@[j] as int) by {
                    if j < i {
                        if is_black(pre_visited, pre_on, succs@[j] as int) {
                            assert(visited@[succs@[j] as int]);
                        } else {
                            assert(closes(pre_cycles, u as int, succs@[j] as int));
                        }
                    } else {
                        assert(!pre_visited[v as int]);
                        assert(!pre_on[v as int]);
                    }
                }
            }
        } else if on_stack[v] {
            let mut idx: usize = 0;
            while idx < stack.len() && stack[idx] != v
                invariant
                    idx <= stack.len(),
                    stack@.contains(v),
                    forall|j: int| 0 <= j < idx ==> stack@[j] != v,
                decreases stack.len() - idx,
            {
                idx = idx + 1;
            }
            if idx == stack.len() {
                proof {
                    let j = choose|j: int| 0 <= j < stack@.len() && stack@[j] == v;
                    assert(false);
                }
            }
            let mut cycle: Vec<usize> = Vec::new();
            let mut k: usize = idx;
            while k < stack.len()
                invariant
                    idx <= k <= stack.len(),
                    cycle@ == stack@.subrange(idx as int, k as int),
                decreases stack.len() - k,
            {
                cycle.push(stack[k]);
                k = k + 1;
            }
            proof {
                let c = ints(cycle@);
                let st = ints(stack@);
                assert(cycle@ == stack@.subrange(idx as int, stack@.len() as int));
                assert(c.len() > 0);
                assert forall|j: int| 0 <= j < c.len() implies 0 <= #[trigger] c[j] < g.len() by {
                    assert(c[j] == stack@[idx + j] as int);
                }
                assert forall|j: int| 0 <= j < c.len() - 1 implies has_edge(g, #[trigger] c[j], c[j + 1]) by {
                    assert(c[j] == st[idx + j]);
                    assert(c[j + 1] == st[idx + j + 1]);
                    assert(has_edge(g, st[idx + j], st[idx + j + 1]));
                }
                assert(c.last() == u as int);
                assert(c[0] == v as int);
                assert(has_edge(g, u as int, v as int));
                assert forall|a: int, b: int| 0 <= a < b < c.len() implies c[a] != c[b] by {
                    assert(stack@[idx + a] != stack@[idx + b]);
                }
                assert(is_simple_cycle(g, c));
                let p = ints(stack@.subrange(0, idx as int + 1));
                assert forall|j: int| 0 <= j < p.len() implies 0 <= #[trigger] p[j] < g.len() by {
                    assert(p[j] == stack@[j] as int);
                }
                assert forall|j: int| 0 <= j < p.len() - 1 implies has_edge(g, #[trigger] p[j], p[j + 1]) by {
                    assert(p[j] == st[j]);
                    assert(p[j + 1] == st[j + 1]);
                }
                assert(is_path(g, p));
                assert(p[0] == stack@[0] as int);
                assert(p.last() == v as int);
                assert(reaches(g, stack@[0] as int, v as int));
            }
            let ghost pre_cycles = cycles@;
            let ghost cyc_view = cycle@;
            proof {
                assert(cyc_view.last() == stack@[stack@.len() - 1]);
            }
            cycles.push(cycle);
            proof {
                assert(cycles@[cycles.len() - 1]@[0] == v);
                let r = choose|r: int| 0 <= r < roots.len() && roots[r] == stack@[0];
                assert forall|q: int| 0 <= q < cycles.len() implies exists|k: int|
                    0 <= k < roots.len() && reaches(g, roots[k] as int, (#[trigger] cycles@[q])@[0] as int) by {
                    if q < cycles.len() - 1 {
                        assert(cycles@[q] == pre_cycles[q]);
                    } else {
                        assert(reaches(g, roots[r] as int, cycles@[q]@[0] as int));
                    }
                }
            }
            proof {
                assert forall|j: int| 0 <= j < cycles.len() implies is_simple_cycle(
                    g,
                    ints(#[trigger] cycles@[j]@),
                ) by {
                    if j < cycles.len() - 1 {
                        assert(cycles@[j] == old(cycles)@[j] || j < cycles.len() - 1);
                    }
                }
                let rank = choose|rank: Seq<int>| ranked_except(g, visited@, on_stack@, rank, pre_cycles);
                lemma_ranked_grow(g, visited@, on_stack@, rank, pre_cycles, cycles@);
                lemma_closes_grow(pre_cycles, cycles@);
                let q = cycles.len() - 1;
                assert(cycles@[q]@ == cyc_view);
                assert(closes(cycles@, u as int, v as int));
                assert forall|j: int| 0 <= j <= i implies is_black(
                    visited@,
                    on_stack@,
                    #[trigger] succs@[j] as int,
                ) || closes(cycles@, u as int, succs@[j] as int) by {
                    if j < i && !is_black(visited@, on_stack@, succs@[j] as int) {
                        assert(closes(pre_cycles, u as int, succs@[j] as int));
                    }
                }
            }
            if cycles.len() >= cap {
                return;
            }
        } else {
        }
        i = i + 1;
    }
    stack.pop();
    on_stack.set(u, false);
    proof {
        assert(stack@ =~= old_stack);
        assert(on_stack@ =~= old_on);
        let rank = choose|rank: Seq<int>|
            ranked_except(g, visited@, old_on.update(u as int, true), rank, cycles@);
        lemma_max_rank(rank, succs@);
        let nrank = rank.update(u as int, max_rank(rank, succs@) + 1);
        let pv = visited@;
        let pon = old_on.update(u as int, true);
        assert forall|x: int, k: int|
            0 <= x < adj.len() && is_black(visited@, on_stack@, x) && 0 <= k < g[x].len() implies (
            is_black(visited@, on_stack@, #[trigger] g[x][k] as int) && nrank[g[x][k] as int]
                < nrank[x]) || closes(cycles@, x, g[x][k] as int) by {
            let y = g[x][k] as int;
            if x == u as int {
                assert(succs@[k] == g[x][k]);
                if !closes(cycles@, x, y) {
                    assert(is_black(pv, pon, succs@[k] as int));
                    assert(y != u as int);
                }
            } else {
                assert(is_black(pv, pon, x));
                if !closes(cycles@, x, y) {
                    assert(is_black(pv, pon, y));
                    assert(y != u as int);
                }
            }
        }
        assert(ranked_except(g, visited@, on_stack@, nrank, cycles@));
    }
}

/// Runs the search from every node of `order` that is still unvisited, in
/// that order, until `cap` cycles are recorded.
///
/// Unless it stopped at `cap`, every closed walk that starts at a node of
/// `order` goes along the edge that closed one of the recorded cycles.
pub fn find_cycles_from(adj: &Vec<Vec<usize>>, order: &Vec<usize>, cap: usize) -> (cycles: Vec<
    Vec<usize>,
>)
    requires
        well_formed(adj_view(adj@)),
        forall|i: int| 0 <= i < order.len() ==> #[trigger] order[i] < adj.len(),
        cap > 0,
    ensures
        cycles_ok(adj_view(adj@), cycles@),
        cycles_reach(adj_view(adj@), cycles@, order@),
        cycles.len() <= cap,
        cycles.len() < cap ==> forall|c: Seq<int>|
            #[trigger] is_cycle(adj_view(adj@), c) && order@.contains(c[0] as usize)
                ==> uses_closing_edge(cycles@, c),
        cycles.len() == 0 ==> exists|visited: Seq<bool>, on_stack: Seq<bool>|
            {
                &&& #[trigger] closed_black(adj_view(adj@), visited, on_stack)
                &&& visited.len() == adj.len()
                &&& on_stack.len() == adj.len()
                &&& forall|i: int| 0 <= i < order.len() ==> is_black(visited, on_stack, #[trigger] order[i] as int)
            },
{
    let ghost g = adj_view(adj@);
    let n = adj.len();
    let mut visited: Vec<bool> = Vec::new();
    let mut on_stack: Vec<bool> = Vec::new();
    let mut j: usize = 0;
    while j < n
        invariant
            j <= n,
            n == adj.len(),
            visited.len() == j,
            on_stack.len() == j,
            forall|x: int| 0 <= x < j ==> !#[trigger] visited@[x],
            forall|x: int| 0 <= x < j ==> !#[trigger] on_stack@[x],
        decreases n - j,
    {
        visited.push(false);
        on_stack.push(false);
        j = j + 1;
    }
    let mut stack: Vec<usize> = Vec::new();
    let mut cycles: Vec<Vec<usize>> = Vec::new();
    proof {
        let rank = Seq::new(n as nat, |x: int| 0int);
        assert(ranked_except(g, visited@, on_stack@, rank, cycles@));
        assert forall|x: int| 0 <= x < adj.len() implies (#[trigger] on_stack@[x] <==> stack@.contains(
            x as usize,
        )) by {
            assert(!visited@[x] && !on_stack@[x]);
        }
    }
    let mut i: usize = 0;
    while i < order.len()
        invariant
            g == adj_view(adj@),
            well_formed(g),
            forall|k: int| 0 <= k < order.len() ==> #[trigger] order[k] < adj.len(),
            i <= order.len(),
            cap > 0,
            visited.len() == adj.len(),
            on_stack.len() == adj.len(),
            stack@ == Seq::<usize>::empty(),
            stack_ok(g, stack@, visited@, on_stack@),
            cycles_ok(g, cycles@),
            cycles_reach(g, cycles@, order@),
            cycles.len() < cap,
            closed_except(g, visited@, on_stack@, cycles@),
            forall|k: int| 0 <= k < i ==> #[trigger] visited@[order[k] as int],
        decreases order.len() - i,
    {
        let u = order[i];
        if !visited[u] {
            let ghost pre = visited@;
            proof {
                assert(order@[i as int] == u);
            }
            dfs_cycles(u, adj, &mut visited, &mut stack, &mut on_stack, &mut cycles, cap, Ghost(order@));
            if cycles.len() >= cap {
                return cycles;
            }
            assert forall|k: int| 0 <= k <= i implies #[trigger] visited@[order[k] as int] by {
                if k < i {
                    assert(pre[order[k] as int]);
                }
            }
        }
        i = i + 1;
    }
    proof {
        let rank = choose|rank: Seq<int>| ranked_except(g, visited@, on_stack@, rank, cycles@);
        assert forall|k: int| 0 <= k < order.len() implies is_black(visited@, on_stack@, #[trigger] order[k] as int) by {
            assert(visited@[order[k] as int]);
            assert(!stack@.contains(order[k]));
        }
        if cycles.len() == 0 {
            lemma_except_none(g, visited@, on_stack@, rank, cycles@);
            assert(closed_black(g, visited@, on_stack@));
        }
        assert forall|c: Seq<int>|
            #[trigger] is_cycle(g, c) && order@.contains(c[0] as usize) implies uses_closing_edge(
            cycles@,
            c,
        ) by {
            let k = choose|k: int| 0 <= k < order@.len() && order@[k] == c[0] as usize;
            assert(is_black(visited@, on_stack@, order@[k] as int));
            assert(0 <= c[0]);
            lemma_cycle_uses_closing_edge(g, visited@, on_stack@, rank, cycles@, c);
        }
    }
    cycles
}


/// `x` lies on some simple cycle.
pub open spec fn on_some_cycle(adj: Seq<Seq<usize>>, x: int) -> bool {
    exists|c: Seq<int>| #[trigger] is_simple_cycle(adj, c) && c.contains(x)
}

/// Collected nodes are distinct, marked, and each lies on a cycle.
pub open spec fn collected_ok(adj: Seq<Seq<usize>>, collected: Seq<usize>, marked: Seq<bool>) -> bool {
    &&& marked.len() == adj.len()
    &&& forall|i: int, j: int| 0 <= i < j < collected.len() ==> collected[i] != collected[j]
    &&& forall|i: int| 0 <= i < collected.len() ==> #[trigger] collected[i] < adj.len()
    &&& forall|x: int| 0 <= x < adj.len() ==> (#[trigger] marked[x] <==> collected.contains(x as usize))
    &&& forall|i: int| 0 <= i < collected.len() ==> on_some_cycle(adj, #[trigger] collected[i] as int)
}

/// Depth-first search from the unvisited node `u` that gathers, without
/// repetition, every node on the stack between the target of an edge into
/// the stack and the top.
fn dfs_collect(
    u: usize,
    adj: &Vec<Vec<usize>>,
    visited: &mut Vec<bool>,
    stack: &mut Vec<usize>,
    on_stack: &mut Vec<bool>,
    collected: &mut Vec<usize>,
    marked: &mut Vec<bool>,
)
    requires
        well_formed(adj_view(adj@)),
        u < adj.len(),
        !old(visited)[u as int],
        stack_ok(adj_view(adj@), old(stack)@, old(visited)@, old(on_stack)@),
        old(stack).len() > 0 ==> has_edge(adj_view(adj@), old(stack)@.last() as int, u as int),
        collected_ok(adj_view(adj@), old(collected)@, old(marked)@),
        old(collected).len() == 0 ==> closed_black(adj_view(adj@), old(visited)@, old(on_stack)@),
    ensures
        final(visited).len() == adj.len(),
        forall|i: int| 0 <= i < adj.len() && #[trigger] old(visited)[i] ==> final(visited)[i],
        final(visited)[u as int],
        final(stack)@ == old(stack)@,
        final(on_stack)@ == old(on_stack)@,
        collected_ok(adj_view(adj@), final(collected)@, final(marked)@),
        old(collected).len() <= final(collected).len(),
        final(collected).len() == 0 ==> closed_black(adj_view(adj@), final(visited)@, final(on_stack)@),
    decreases count_false(old(visited)@),
{
    let ghost g = adj_view(adj@);
    let ghost old_stack = stack@;
    let ghost old_on = on_stack@;
    let ghost old_visited = visited@;
    visited.set(u, true);
    stack.push(u);
    on_stack.set(u, true);
    proof {
        assert(!old_on[u as int]);
        assert(!old_stack.contains(u));
        assert(ints(stack@) =~= ints(old_stack).push(u as int));
        if old_stack.len() > 0 {
            assert(ints(old_stack).last() == old_stack.last() as int);
        }
        assert forall|x: int| 0 <= x < adj.len() implies (#[trigger] on_stack@[x] <==> stack@.contains(
            x as usize,
        )) by {
            if x != u {
                if old_stack.contains(x as usize) {
                    let j = choose|j: int| 0 <= j < old_stack.len() && old_stack[j] == x as usize;
                    assert(stack@[j] == x as usize);
                }
                if stack@.contains(x as usize) {
                    let j = choose|j: int| 0 <= j < stack@.len() && stack@[j] == x as usize;
                    assert(j < old_stack.len());
                    assert(old_stack[j] == x as usize);
                }
            } else {
                assert(stack@[stack@.len() - 1] == u);
            }
        }
        if old(collected).len() == 0 {
            let rank = choose|rank: Seq<int>| ranked_black(g, old_visited, old_on, rank);
            assert(ranked_black(g, visited@, on_stack@, rank));
        }
    }
    let succs = &adj[u];
    let mut i: usize = 0;
    while i < succs.len()
        invariant
            g == adj_view(adj@),
            well_formed(g),
            u < adj.len(),
            succs@ == g[u as int],
            i <= succs.len(),
            visited.len() == adj.len(),
            on_stack.len() == adj.len(),
            forall|x: int| 0 <= x < adj.len() && #[trigger] old_visited[x] ==> visited[x],
            visited[u as int],
            stack@ == old_stack.push(u),
            on_stack@ == old_on.update(u as int, true),
            stack_ok(g, stack@, visited@, on_stack@),
            old_visited == old(visited)@,
            old_visited.len() == adj.len(),
            !old_visited[u as int],
            old_stack == old(stack)@,
            old_on == old(on_stack)@,
            collected_ok(g, collected@, marked@),
            old(collected).len() <= collected.len(),
            collected.len() == 0 ==> closed_black(g, visited@, on_stack@),
            collected.len() == 0 ==> forall|j: int|
                0 <= j < i ==> is_black(visited@, on_stack@, #[trigger] succs@[j] as int),
        decreases succs.len() - i,
    {
        let v = succs[i];
        assert(g[u as int][i as int] == v);
        assert(v < adj.len());
        if !visited[v] {
            proof {
                assert(has_edge(g, u as int, v as int));
                assert(stack@.last() == u);
                lemma_count_false_grow(old_visited, visited@);
                assert(!old_visited[u as int] && visited@[u as int]);
            }
            let ghost pre_visited = visited@;
            let ghost pre_on = on_stack@;
            dfs_collect(v, adj, visited, stack, on_stack, collected, marked);
            proof {
                assert(on_stack@ == pre_on);
                if collected.len() == 0 {
                    assert forall|j: int| 0 <= j <= i implies is_black(
                        visited@,
                        on_stack@,
                        #[trigger] succs@[j] as int,
                    ) by {
                        if j < i {
                            assert(is_black(pre_visited, pre_on, succs@[j] as int));
                        } else {
                            assert(!pre_visited[v as int]);
                            assert(!pre_on[v as int]);
                        }
                    }
                }
            }
        } else if on_stack[v] {
            let mut idx: usize = 0;
            while idx < stack.len() && stack[idx] != v
                invariant
                    idx <= stack.len(),
                    stack@.contains(v),
                    forall|j: int| 0 <= j < idx ==> stack@[j] != v,
                decreases stack.len() - idx,
            {
                idx = idx + 1;
            }
            if idx == stack.len() {
                proof {
                    let j = choose|j: int| 0 <= j < stack@.len() && stack@[j] == v;
                    assert(false);
                }
            }
            let ghost cyc = ints(stack@.subrange(idx as int, stack@.len() as int));
            proof {
                let c = cyc;
                let st = ints(stack@);
                assert(c.len() > 0);
                assert forall|j: int| 0 <= j < c.len() implies 0 <= #[trigger] c[j] < g.len() by {
                    assert(c[j] == stack@[idx + j] as int);
                }
                assert forall|j: int| 0 <= j < c.len() - 1 implies has_edge(g, #[trigger] c[j], c[j + 1]) by {
                    assert(c[j] == st[idx + j]);
                    assert(c[j + 1] == st[idx + j + 1]);
                    assert(has_edge(g, st[idx + j], st[idx + j + 1]));
                }
                assert(c.last() == u as int);
                assert(c[0] == v as int);
                assert(has_edge(g, u as int, v as int));
                assert forall|a: int, b: int| 0 <= a < b < c.len() implies c[a] != c[b] by {
                    assert(stack@[idx + a] != stack@[idx + b]);
                }
                assert(is_simple_cycle(g, c));
            }
            let mut k: usize = idx;
            while k < stack.len()
                invariant
                    idx <= k <= stack.len(),
                    g == adj_view(adj@),
                    stack_ok(g, stack@, visited@, on_stack@),
                    is_simple_cycle(g, cyc),
                    cyc == ints(stack@.subrange(idx as int, stack@.len() as int)),
                    collected_ok(g, collected@, marked@),
                    old(collected).len() <= collected.len(),
                    k > idx ==> collected.len() > 0,
                decreases stack.len() - k,
            {
                let x = stack[k];
                if !marked[x] {
                    let ghost pre = collected@;
                    let ghost pre_m = marked@;
                    proof {
                        assert(cyc[k - idx] == x as int);
                        assert(cyc.contains(x as int));
                        assert(on_some_cycle(g, x as int));
                        assert(!pre.contains(x));
                    }
                    collected.push(x);
                    marked.set(x, true);
                    proof {
                        assert(marked@ == pre_m.update(x as int, true));
                        assert forall|y: int| 0 <= y < adj.len() implies (#[trigger] marked@[y] <==> collected@.contains(y as usize)) by {
                            if y != x as int {
                                assert(marked@[y] == pre_m[y]);
                                assert(pre_m[y] <==> pre.contains(y as usize));
                                if pre.contains(y as usize) {
                                    let j = choose|j: int| 0 <= j < pre.len() && pre[j] == y as usize;
                                    assert(collected@[j] == y as usize);
                                }
                                if collected@.contains(y as usize) {
                                    let j = choose|j: int| 0 <= j < collected@.len() && collected@[j] == y as usize;
                                    assert(j < pre.len());
                                    assert(pre[j] == y as usize);
                                }
                            } else {
                                assert(collected@[collected@.len() - 1] == x);
                            }
                        }
                        assert forall|a: int| 0 <= a < collected@.len() implies on_some_cycle(g, #[trigger] collected@[a] as int) by {
                            if a < pre.len() {
                                assert(collected@[a] == pre[a]);
                            }
                        }
                    }
                } else {
                    proof {
                        assert(collected@.contains(x));
                    }
                }
                k = k + 1;
            }
        } else {
        }
        i = i + 1;
    }
    stack.pop();
    on_stack.set(u, false);
    proof {
        assert(stack@ =~= old_stack);
        assert(on_stack@ =~= old_on);
        if collected.len() == 0 {
            let rank = choose|rank: Seq<int>| ranked_black(g, visited@, old_on.update(u as int, true), rank);
            lemma_max_rank(rank, succs@);
            let nrank = rank.update(u as int, max_rank(rank, succs@) + 1);
            let pv = visited@;
            let pon = old_on.update(u as int, true);
            assert forall|x: int, k: int|
                0 <= x < adj.len() && is_black(visited@, on_stack@, x) && 0 <= k < g[x].len()
                    implies is_black(visited@, on_stack@, #[trigger] g[x][k] as int) && nrank[g[x][k] as int]
                    < nrank[x] by {
                let y = g[x][k] as int;
                if x == u as int {
                    assert(succs@[k] == g[x][k]);
                    assert(is_black(pv, pon, succs@[k] as int));
                    assert(y != u as int);
                } else {
                    assert(is_black(pv, pon, x));
                    assert(is_black(pv, pon, y));
                    assert(y != u as int);
                }
            }
            assert(ranked_black(g, visited@, on_stack@, nrank));
        }
    }
}

/// Gathers the nodes found on cycles by searching from every node of
/// `order` that is still unvisited, in that order.
pub fn collect_cycle_nodes(adj: &Vec<Vec<usize>>, order: &Vec<usize>) -> (collected: Vec<usize>)
    requires
        well_formed(adj_view(adj@)),
        forall|i: int| 0 <= i < order.len() ==> #[trigger] order[i] < adj.len(),
    ensures
        forall|i: int, j: int| 0 <= i < j < collected.len() ==> collected[i] != collected[j],
        forall|i: int| 0 <= i < collected.len() ==> #[trigger] collected[i] < adj.len(),
        forall|i: int| 0 <= i < collected.len() ==> on_some_cycle(adj_view(adj@), #[trigger] collected[i] as int),
        collected.len() == 0 ==> exists|visited: Seq<bool>, on_stack: Seq<bool>|
            {
                &&& #[trigger] closed_black(adj_view(adj@), visited, on_stack)
                &&& visited.len() == adj.len()
                &&& on_stack.len() == adj.len()
                &&& forall|i: int| 0 <= i < order.len() ==> is_black(visited, on_stack, #[trigger] order[i] as int)
            },
{
    let ghost g = adj_view(adj@);
    let n = adj.len();
    let mut visited: Vec<bool> = Vec::new();
    let mut on_stack: Vec<bool> = Vec::new();
    let mut marked: Vec<bool> = Vec::new();
    let mut j: usize = 0;
    while j < n
        invariant
            j <= n,
            n == adj.len(),
            visited.len() == j,
            on_stack.len() == j,
            marked.len() == j,
            forall|x: int| 0 <= x < j ==> !#[trigger] visited@[x],
            forall|x: int| 0 <= x < j ==> !#[trigger] on_stack@[x],
            forall|x: int| 0 <= x < j ==> !#[trigger] marked@[x],
        decreases n - j,
    {
        visited.push(false);
        on_stack.push(false);
        marked.push(false);
        j = j + 1;
    }
    let mut stack: Vec<usize> = Vec::new();
    let mut collected: Vec<usize> = Vec::new();
    proof {
        let rank = Seq::new(n as nat, |x: int| 0int);
        assert(ranked_black(g, visited@, on_stack@, rank));
        assert forall|x: int| 0 <= x < adj.len() implies (#[trigger] on_stack@[x] <==> stack@.contains(
            x as usize,
        )) by {
            assert(!visited@[x] && !on_stack@[x]);
        }
        assert forall|x: int| 0 <= x < adj.len() implies (#[trigger] marked@[x] <==> collected@.contains(
            x as usize,
        )) by {
            assert(!marked@[x]);
        }
    }
    let mut i: usize = 0;
    while i < order.len()
        invariant
            g == adj_view(adj@),
            well_formed(g),
            forall|k: int| 0 <= k < order.len() ==> #[trigger] order[k] < adj.len(),
            i <= order.len(),
            visited.len() == adj.len(),
            on_stack.len() == adj.len(),
            stack@ == Seq::<usize>::empty(),
            stack_ok(g, stack@, visited@, on_stack@),
            collected_ok(g, collected@, marked@),
            collected.len() == 0 ==> closed_black(g, visited@, on_stack@),
            forall|k: int| 0 <= k < i ==> #[trigger] visited@[order[k] as int],
        decreases order.len() - i,
    {
        let u = order[i];
        if !visited[u] {
            let ghost pre = visited@;
            dfs_collect(u, adj, &mut visited, &mut stack, &mut on_stack, &mut collected, &mut marked);
            assert forall|k: int| 0 <= k <= i implies #[trigger] visited@[order[k] as int] by {
                if k < i {
                    assert(pre[order[k] as int]);
                }
            }
        }
        i = i + 1;
    }
    proof {
        if collected.len() == 0 {
            assert forall|k: int| 0 <= k < order.len() implies is_black(visited@, on_stack@, #[trigger] order[k] as int) by {
                assert(visited@[order[k] as int]);
                assert(!stack@.contains(order[k]));
            }
        }
    }
    collected
}

} // verus!
