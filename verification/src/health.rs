//! The structural part of the repository health report: which files take
//! part in import cycles.
use vstd::prelude::*;

use crate::digraph::{
    closed_black, collect_cycle_nodes, is_black, is_simple_cycle, lemma_all_black_acyclic,
    on_some_cycle,
};
use crate::id_graph::{
    build_id_graph, is_id_cycle, is_id_walk_cycle, lemma_cycle_to_ids, lemma_id_cycle_to_index,
};

verus! {

/// `id` lies on a cycle of the import edges.
pub open spec fn on_import_cycle(edges: Seq<(i64, i64)>, id: i64) -> bool {
    exists|c: Seq<i64>| #[trigger] is_id_cycle(edges, c) && c.contains(id)
}

/// The import edges form no cycle.
pub open spec fn imports_acyclic(edges: Seq<(i64, i64)>) -> bool {
    forall|c: Seq<i64>| !#[trigger] is_id_walk_cycle(edges, c)
}

/// Collects the files that participate in import cycles found by a
/// depth-first search over the resolved internal imports `edges`
/// (source file id, target file id).
///
/// Every returned id lies on a cycle, no id is returned twice, and the
/// result is empty exactly when the imports form no cycle.
pub fn collect_cycle_file_ids(edges: &Vec<(i64, i64)>) -> (ids: Vec<i64>)
    ensures
        forall|i: int, j: int| 0 <= i < j < ids.len() ==> ids[i] != ids[j],
        forall|i: int| 0 <= i < ids.len() ==> on_import_cycle(edges@, #[trigger] ids[i]),
        ids.len() == 0 <==> imports_acyclic(edges@),
{
    let extra: Vec<i64> = Vec::new();
    let g = build_id_graph(&extra, edges);
    let mut order: Vec<usize> = Vec::new();
    let mut i: usize = 0;
    while i < g.ids.len()
        invariant
            i <= g.ids.len(),
            order.len() == i,
            forall|j: int| 0 <= j < i ==> #[trigger] order@[j] == j,
        decreases g.ids.len() - i,
    {
        order.push(i);
        i = i + 1;
    }
    let nodes = collect_cycle_nodes(&g.adj, &order);
    let mut ids: Vec<i64> = Vec::new();
    let mut k: usize = 0;
    while k < nodes.len()
        invariant
            k <= nodes.len(),
            g.represents(extra@, edges@),
            forall|a: int, b: int| 0 <= a < b < nodes.len() ==> nodes[a] != nodes[b],
            forall|a: int| 0 <= a < nodes.len() ==> #[trigger] nodes[a] < g.adj.len(),
            forall|a: int| 0 <= a < nodes.len() ==> on_some_cycle(g.g(), #[trigger] nodes[a] as int),
            ids.len() == k,
            forall|a: int| 0 <= a < k ==> #[trigger] ids[a] == g.ids[nodes[a] as int],
        decreases nodes.len() - k,
    {
        ids.push(g.ids[nodes[k]]);
        k = k + 1;
    }
    proof {
        assert forall|a: int, b: int| 0 <= a < b < ids.len() implies ids[a] != ids[b] by {
            assert(nodes[a] != nodes[b]);
        }
        assert forall|a: int| 0 <= a < ids.len() implies on_import_cycle(edges@, #[trigger] ids[a]) by {
            let x = nodes[a] as int;
            assert(on_some_cycle(g.g(), x));
            let c = choose|c: Seq<int>| #[trigger] is_simple_cycle(g.g(), c) && c.contains(x);
            lemma_cycle_to_ids(&g, extra@, edges@, c);
            let w = c.map_values(|y: int| g.ids[y]);
            assert forall|p: int, q: int| 0 <= p < q < w.len() implies w[p] != w[q] by {
                assert(c[p] != c[q]);
            }
            let t = choose|t: int| 0 <= t < c.len() && c[t] == x;
            assert(w[t] == ids[a]);
            assert(is_id_cycle(edges@, w) && w.contains(ids[a]));
        }
        if ids.len() == 0 {
            let (visited, on_stack) = choose|visited: Seq<bool>, on_stack: Seq<bool>|
                {
                    &&& #[trigger] closed_black(g.g(), visited, on_stack)
                    &&& visited.len() == g.adj.len()
                    &&& on_stack.len() == g.adj.len()
                    &&& forall|i: int|
                        0 <= i < order.len() ==> is_black(visited, on_stack, #[trigger] order@[i] as int)
                };
            assert forall|x: int| 0 <= x < g.g().len() implies is_black(visited, on_stack, x) by {
                assert(order@[x] == x);
            }
            lemma_all_black_acyclic(g.g(), visited, on_stack);
            assert forall|c: Seq<i64>| !#[trigger] is_id_walk_cycle(edges@, c) by {
                if is_id_walk_cycle(edges@, c) {
                    let ci = lemma_id_cycle_to_index(&g, extra@, edges@, c);
                }
            }
        } else {
            assert(on_import_cycle(edges@, ids[0]));
            let c = choose|c: Seq<i64>| #[trigger] is_id_cycle(edges@, c) && c.contains(ids[0]);
            assert(is_id_walk_cycle(edges@, c));
        }
    }
    ids
}

} // verus!
