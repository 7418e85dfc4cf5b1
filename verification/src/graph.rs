//! File-level dependency graph of a workspace, built from the rows the index
//! holds for its files and resolved internal imports.
use std::collections::HashMap;
use vstd::prelude::*;

use crate::digraph::{
    adj_view, closed_black, closes, cycles_ok, find_cycles_from, has_edge, ints, is_black, is_cycle,
    is_simple_cycle, lemma_all_black_acyclic, uses_closing_edge,
};

verus! {

broadcast use vstd::std_specs::hash::group_hash_axioms;

/// A node in the dependency graph (one indexed file).
#[derive(Debug)]
pub struct GraphNode {
    pub file_id: i64,
    pub name: String,
    pub relative_path: String,
    pub extension: Option<String>,
    pub incoming_count: i64,
    pub outgoing_count: i64,
}

/// A directed edge representing an import relationship.
#[derive(Debug)]
pub struct GraphEdge {
    pub source_file_id: i64,
    pub target_file_id: i64,
    pub import_type: String,
    pub is_external: bool,
}

/// Summary of one cycle found in the graph.
#[derive(Debug)]
pub struct CycleInfo {
    pub file_ids: Vec<i64>,
    pub file_paths: Vec<String>,
}

/// The complete dependency graph for a workspace.
///
/// When the number of import-participating nodes exceeds `MAX_GRAPH_NODES`,
/// the graph is truncated rather than refused: `nodes`/`edges`/`cycles`
/// contain only the first `MAX_GRAPH_NODES` nodes (ordered by relative path),
/// `total_graph_nodes` holds the true count, and `truncated` is `true`.
#[derive(Debug)]
pub struct DependencyGraph {
    pub nodes: Vec<GraphNode>,
    pub edges: Vec<GraphEdge>,
    pub cycles: Vec<CycleInfo>,
    pub total_files: i64,
    pub total_imports: i64,
    /// True number of nodes that would participate in the graph before
    /// truncation. Equals `nodes.len()` when not truncated.
    pub total_graph_nodes: i64,
    /// `true` when the graph was truncated to `MAX_GRAPH_NODES` nodes.
    pub truncated: bool,
}

/// Maximum number of nodes returned in a single graph response.
pub const MAX_GRAPH_NODES: usize = 500;

/// Maximum number of cycles reported.
pub const MAX_CYCLES: usize = 20;

/// A participating file as the index lists it: id, name, relative path,
/// extension. The index lists them ordered by relative path.
pub type FileRow = (i64, String, String, Option<String>);

/// A resolved internal import: source file id, target file id, import
/// type, external flag.
pub type EdgeRow = (i64, i64, String, bool);

/// Number of imports whose source is `id`.
pub open spec fn count_source(edges: Seq<EdgeRow>, id: i64) -> nat
    decreases edges.len(),
{
    if edges.len() == 0 {
        0
    } else {
        count_source(edges.drop_last(), id) + if edges.last().0 == id {
            1nat
        } else {
            0nat
        }
    }
}

/// Number of imports whose target is `id`.
pub open spec fn count_target(edges: Seq<EdgeRow>, id: i64) -> nat
    decreases edges.len(),
{
    if edges.len() == 0 {
        0
    } else {
        count_target(edges.drop_last(), id) + if edges.last().1 == id {
            1nat
        } else {
            0nat
        }
    }
}

/// The ids of the first `k` rows.
pub open spec fn kept_ids(rows: Seq<FileRow>, k: int) -> Set<i64> {
    Set::new(|id: i64| exists|j: int| 0 <= j < k && #[trigger] rows[j].0 == id)
}

/// The plain content of an edge.
pub open spec fn edge_row_view(e: EdgeRow) -> (i64, i64, Seq<char>, bool) {
    (e.0, e.1, e.2@, e.3)
}

pub open spec fn graph_edge_view(e: GraphEdge) -> (i64, i64, Seq<char>, bool) {
    (e.source_file_id, e.target_file_id, e.import_type@, e.is_external)
}

/// The imports whose both ends are in `kept`, in their original order.
pub open spec fn filter_kept(edges: Seq<EdgeRow>, kept: Set<i64>) -> Seq<(i64, i64, Seq<char>, bool)>
    decreases edges.len(),
{
    if edges.len() == 0 {
        Seq::empty()
    } else {
        let rest = filter_kept(edges.drop_last(), kept);
        let e = edges.last();
        if kept.contains(e.0) && kept.contains(e.1) {
            rest.push(edge_row_view(e))
        } else {
            rest
        }
    }
}

/// Some returned edge goes from `a` to `b`.
pub open spec fn has_file_edge(edges: Seq<GraphEdge>, a: i64, b: i64) -> bool {
    exists|j: int|
        0 <= j < edges.len() && (#[trigger] edges[j]).source_file_id == a && edges[j].target_file_id
            == b
}

/// A closed walk over the returned edges.
pub open spec fn is_file_walk_cycle(edges: Seq<GraphEdge>, ids: Seq<i64>) -> bool {
    &&& ids.len() > 0
    &&& forall|i: int| 0 <= i < ids.len() - 1 ==> has_file_edge(edges, #[trigger] ids[i], ids[i + 1])
    &&& has_file_edge(edges, ids.last(), ids[0])
}

/// A closed walk that visits no file twice.
pub open spec fn is_file_cycle(edges: Seq<GraphEdge>, ids: Seq<i64>) -> bool {
    &&& is_file_walk_cycle(edges, ids)
    &&& forall|i: int, j: int| 0 <= i < j < ids.len() ==> ids[i] != ids[j]
}

/// Some reported cycle ends at file `a` and starts at file `b`: the import
/// from `a` back to `b` closed it.
pub open spec fn closes_file_cycle(cycles: Seq<CycleInfo>, a: i64, b: i64) -> bool {
    exists|q: int|
        0 <= q < cycles.len() && (#[trigger] cycles[q]).file_ids@.last() == a
            && cycles[q].file_ids@[0] == b
}

/// Some import along the closed walk `ids` (the one back to its first file
/// included) closed a reported cycle.
pub open spec fn walk_uses_closing_import(cycles: Seq<CycleInfo>, ids: Seq<i64>) -> bool {
    ||| closes_file_cycle(cycles, ids.last(), ids[0])
    ||| exists|t: int| 0 <= t < ids.len() - 1 && #[trigger] closes_file_cycle(cycles, ids[t], ids[t + 1])
}

/// The node indices of the files of `ids`.
pub open spec fn index_walk(index: Map<i64, usize>, ids: Seq<i64>) -> Seq<int> {
    Seq::new(ids.len(), |j: int| index[ids[j]] as int)
}

/// `ids` are pairwise distinct.
pub open spec fn distinct_ids(rows: Seq<FileRow>) -> bool {
    forall|i: int, j: int| 0 <= i < j < rows.len() ==> rows[i].0 != rows[j].0
}

pub open spec fn min_usize(a: usize, b: usize) -> usize {
    if a < b {
        a
    } else {
        b
    }
}

/// Everything that holds of a graph built from the given rows.
pub open spec fn graph_matches_rows(
    g: DependencyGraph,
    total_files: i64,
    total_imports: i64,
    rows: Seq<FileRow>,
    edges: Seq<EdgeRow>,
) -> bool {
    let kept = min_usize(rows.len() as usize, MAX_GRAPH_NODES);
    &&& g.total_files == total_files
    &&& g.total_imports == total_imports
    &&& g.total_graph_nodes == rows.len()
    &&& g.truncated == (rows.len() > MAX_GRAPH_NODES)
    &&& g.nodes.len() == kept
    &&& forall|i: int|
        0 <= i < kept ==> {
            &&& (#[trigger] g.nodes@[i]).file_id == rows[i].0
            &&& g.nodes@[i].name@ == rows[i].1@
            &&& g.nodes@[i].relative_path@ == rows[i].2@
            &&& g.nodes@[i].extension.is_some() == rows[i].3.is_some()
            &&& (rows[i].3.is_some() ==> g.nodes@[i].extension.unwrap()@ == rows[i].3.unwrap()@)
            &&& g.nodes@[i].incoming_count == count_target(edges, rows[i].0)
            &&& g.nodes@[i].outgoing_count == count_source(edges, rows[i].0)
        }
    &&& g.edges@.map_values(|e: GraphEdge| graph_edge_view(e)) == filter_kept(
        edges,
        kept_ids(rows, kept as int),
    )
    &&& g.cycles.len() <= MAX_CYCLES
    &&& forall|c: int|
        0 <= c < g.cycles.len() ==> {
            &&& is_file_cycle(g.edges@, (#[trigger] g.cycles@[c]).file_ids@)
            &&& g.cycles@[c].file_paths.len() == g.cycles@[c].file_ids.len()
            &&& forall|k: int|
                0 <= k < g.cycles@[c].file_ids.len() ==> exists|i: int|
                    0 <= i < kept && rows[i].0 == #[trigger] g.cycles@[c].file_ids@[k]
                        && g.cycles@[c].file_paths@[k]@ == rows[i].2@
        }
    &&& g.cycles.len() == 0 ==> forall|ids: Seq<i64>| !#[trigger] is_file_walk_cycle(g.edges@, ids)
    &&& g.cycles.len() < MAX_CYCLES ==> forall|ids: Seq<i64>|
        #[trigger] is_file_walk_cycle(g.edges@, ids) ==> walk_uses_closing_import(g.cycles@, ids)
}

fn clone_opt_string(s: &Option<String>) -> (r: Option<String>)
    ensures
        r.is_some() == s.is_some(),
        s.is_some() ==> r.unwrap()@ == s.unwrap()@,
{
    match s {
        Some(x) => Some(x.clone()),
        None => None,
    }
}

/// Counts, for every file id, how many imports have it as source
/// (`by_source`) or as target.
fn degree_counts(edges: &Vec<EdgeRow>, by_source: bool) -> (m: HashMap<i64, i64>)
    requires
        edges.len() < i64::MAX,
    ensures
        forall|id: i64|
            #[trigger] m@.contains_key(id) ==> m@[id] == if by_source {
                count_source(edges@, id)
            } else {
                count_target(edges@, id)
            },
        forall|id: i64|
            !#[trigger] m@.contains_key(id) ==> 0 == if by_source {
                count_source(edges@, id)
            } else {
                count_target(edges@, id)
            },
{
    let mut m: HashMap<i64, i64> = HashMap::new();
    let mut i: usize = 0;
    while i < edges.len()
        invariant
            i <= edges.len(),
            edges.len() < i64::MAX,
            forall|id: i64|
                #[trigger] m@.contains_key(id) ==> m@[id] == if by_source {
                    count_source(edges@.take(i as int), id)
                } else {
                    count_target(edges@.take(i as int), id)
                },
            forall|id: i64|
                !#[trigger] m@.contains_key(id) ==> 0 == if by_source {
                    count_source(edges@.take(i as int), id)
                } else {
                    count_target(edges@.take(i as int), id)
                },
            forall|id: i64| #[trigger] m@.contains_key(id) ==> 0 <= m@[id] <= i,
        decreases edges.len() - i,
    {
        let key = if by_source {
            edges[i].0
        } else {
            edges[i].1
        };
        let cur: i64 = match m.get(&key) {
            Some(c) => *c,
            None => 0,
        };
        proof {
            assert(edges@.take(i + 1).drop_last() =~= edges@.take(i as int));
            assert(edges@.take(i + 1).last() == edges@[i as int]);
            if !m@.contains_key(key) {
                assert(cur == 0);
            }
        }
        m.insert(key, cur + 1);
        i = i + 1;
    }
    proof {
        assert(edges@.take(i as int) =~= edges@);
    }
    m
}

/// Builds the file-level dependency graph from the files that participate
/// in internal imports (`file_rows`, ordered by relative path) and the
/// resolved internal imports (`edge_rows`).
///
/// Only the first `MAX_GRAPH_NODES` files are returned; `truncated` tells
/// whether any were left out. Degrees count every import, edges keep only
/// those between returned files, and up to `MAX_CYCLES` cycles among the
/// returned files are reported. Unless that many were found, every cycle
/// among the returned files goes along the import that closed one of the
/// reported cycles, so none is missed.
pub fn build_graph(
    total_files: i64,
    total_imports: i64,
    file_rows: Vec<FileRow>,
    edge_rows: Vec<EdgeRow>,
) -> (g: DependencyGraph)
    requires
        distinct_ids(file_rows@),
        file_rows.len() < i64::MAX,
        edge_rows.len() < i64::MAX,
    ensures
        graph_matches_rows(g, total_files, total_imports, file_rows@, edge_rows@),
{
    let total_graph_nodes = file_rows.len() as i64;
    let truncated = file_rows.len() > MAX_GRAPH_NODES;
    let kept: usize = if truncated {
        MAX_GRAPH_NODES
    } else {
        file_rows.len()
    };
    let ghost kset = kept_ids(file_rows@, kept as int);

    // Index of every returned file.
    let mut index: HashMap<i64, usize> = HashMap::new();
    let mut i: usize = 0;
    while i < kept
        invariant
            i <= kept <= file_rows.len(),
            distinct_ids(file_rows@),
            forall|id: i64|
                #[trigger] index@.contains_key(id) ==> index@[id] < i && file_rows@[index@[id] as int].0
                    == id,
            forall|j: int| 0 <= j < i ==> #[trigger] index@.contains_key(file_rows@[j].0),
        decreases kept - i,
    {
        index.insert(file_rows[i].0, i);
        i = i + 1;
    }
    assert forall|id: i64| #[trigger] index@.contains_key(id) <==> kset.contains(id) by {
        if kset.contains(id) {
            let j = choose|j: int| 0 <= j < kept && #[trigger] file_rows@[j].0 == id;
            assert(index@.contains_key(file_rows@[j].0));
        }
        if index@.contains_key(id) {
            assert(file_rows@[index@[id] as int].0 == id);
        }
    }

    let outgoing = degree_counts(&edge_rows, true);
    let incoming = degree_counts(&edge_rows, false);

    let mut nodes: Vec<GraphNode> = Vec::new();
    let mut i: usize = 0;
    while i < kept
        invariant
            i <= kept <= file_rows.len(),
            nodes.len() == i,
            forall|id: i64|
                #[trigger] outgoing@.contains_key(id) ==> outgoing@[id] == count_source(edge_rows@, id),
            forall|id: i64| !#[trigger] outgoing@.contains_key(id) ==> 0 == count_source(edge_rows@, id),
            forall|id: i64|
                #[trigger] incoming@.contains_key(id) ==> incoming@[id] == count_target(edge_rows@, id),
            forall|id: i64| !#[trigger] incoming@.contains_key(id) ==> 0 == count_target(edge_rows@, id),
            forall|j: int|
                0 <= j < i ==> {
                    &&& (#[trigger] nodes@[j]).file_id == file_rows@[j].0
                    &&& nodes@[j].name@ == file_rows@[j].1@
                    &&& nodes@[j].relative_path@ == file_rows@[j].2@
                    &&& nodes@[j].extension.is_some() == file_rows@[j].3.is_some()
                    &&& (file_rows@[j].3.is_some() ==> nodes@[j].extension.unwrap()@
                        == file_rows@[j].3.unwrap()@)
                    &&& nodes@[j].incoming_count == count_target(edge_rows@, file_rows@[j].0)
                    &&& nodes@[j].outgoing_count == count_source(edge_rows@, file_rows@[j].0)
                },
        decreases kept - i,
    {
        let row = &file_rows[i];
        let id = row.0;
        let inc: i64 = match incoming.get(&id) {
            Some(c) => *c,
            None => 0,
        };
        let out: i64 = match outgoing.get(&id) {
            Some(c) => *c,
            None => 0,
        };
        nodes.push(
            GraphNode {
                file_id: id,
                name: row.1.clone(),
                relative_path: row.2.clone(),
                extension: clone_opt_string(&row.3),
                incoming_count: inc,
                outgoing_count: out,
            },
        );
        i = i + 1;
    }

    // Edges between returned files, and the same edges over node indices.
    let mut edges: Vec<GraphEdge> = Vec::new();
    let mut adj: Vec<Vec<usize>> = Vec::new();
    let mut i: usize = 0;
    while i < kept
        invariant
            i <= kept,
            adj.len() == i,
            forall|j: int| 0 <= j < i ==> (#[trigger] adj@[j])@.len() == 0,
        decreases kept - i,
    {
        adj.push(Vec::new());
        i = i + 1;
    }
    let mut i: usize = 0;
    while i < edge_rows.len()
        invariant
            i <= edge_rows.len(),
            kept <= file_rows.len(),
            adj.len() == kept,
            forall|id: i64| #[trigger] index@.contains_key(id) <==> kset.contains(id),
            forall|id: i64|
                #[trigger] index@.contains_key(id) ==> index@[id] < kept && file_rows@[index@[id] as int].0
                    == id,
            kset == kept_ids(file_rows@, kept as int),
            edges@.map_values(|e: GraphEdge| graph_edge_view(e)) == filter_kept(
                edge_rows@.take(i as int),
                kset,
            ),
            forall|j: int| 0 <= j < edges.len() ==> kset.contains(#[trigger] edges@[j].source_file_id)
                && kset.contains(edges@[j].target_file_id),
            // every index edge comes from a returned edge
            forall|a: int, k: int|
                0 <= a < kept && 0 <= k < adj@[a]@.len() ==> #[trigger] adj@[a]@[k] < kept
                    && has_file_edge(edges@, file_rows@[a].0, file_rows@[adj@[a]@[k] as int].0),
            // every returned edge is an index edge
            forall|j: int|
                0 <= j < edges.len() ==> adj@[index@[(#[trigger] edges@[j]).source_file_id] as int]@.contains(
                    index@[edges@[j].target_file_id],
                ),
        decreases edge_rows.len() - i,
    {
        let e = &edge_rows[i];
        let ghost pre_edges = edges@;
        let ghost pre_adj = adj@;
        proof {
            assert(edge_rows@.take(i + 1).drop_last() =~= edge_rows@.take(i as int));
            assert(edge_rows@.take(i + 1).last() == edge_rows@[i as int]);
        }
        match (index.get(&e.0), index.get(&e.1)) {
            (Some(a), Some(b)) => {
                let a = *a;
                let b = *b;
                edges.push(
                    GraphEdge {
                        source_file_id: e.0,
                        target_file_id: e.1,
                        import_type: e.2.clone(),
                        is_external: e.3,
                    },
                );
                adj[a].push(b);
                proof {
                    assert(edges@.map_values(|e: GraphEdge| graph_edge_view(e)) =~= pre_edges.map_values(
                        |e: GraphEdge| graph_edge_view(e),
                    ).push(edge_row_view(edge_rows@[i as int])));
                    let last = edges.len() - 1;
                    assert(edges@[last as int].source_file_id == e.0);
                    assert(has_file_edge(edges@, e.0, e.1));
                    assert forall|x: int, k: int|
                        0 <= x < kept && 0 <= k < adj@[x]@.len() implies #[trigger] adj@[x]@[k] < kept
                            && has_file_edge(edges@, file_rows@[x].0, file_rows@[adj@[x]@[k] as int].0) by {
                        if x == a as int && k == adj@[x]@.len() - 1 {
                            assert(adj@[x]@[k] == b);
                        } else {
                            assert(adj@[x]@[k] == pre_adj[x]@[k]);
                            let j = choose|j: int|
                                0 <= j < pre_edges.len() && (#[trigger] pre_edges[j]).source_file_id
                                    == file_rows@[x].0 && pre_edges[j].target_file_id
                                    == file_rows@[pre_adj[x]@[k] as int].0;
                            assert(edges@[j] == pre_edges[j]);
                        }
                    }
                    assert forall|j: int|
                        0 <= j < edges.len() implies adj@[index@[(#[trigger] edges@[j]).source_file_id] as int]@.contains(
                        index@[edges@[j].target_file_id],
                    ) by {
                        if j < edges.len() - 1 {
                            assert(edges@[j] == pre_edges[j]);
                            assert(kset.contains(edges@[j].source_file_id));
                            assert(index@.contains_key(edges@[j].source_file_id));
                            let x = index@[edges@[j].source_file_id] as int;
                            assert(0 <= x < kept);
                            let y = index@[edges@[j].target_file_id];
                            assert(pre_adj[x]@.contains(y));
                            let k = choose|k: int| 0 <= k < pre_adj[x]@.len() && pre_adj[x]@[k] == y;
                            if x == a as int {
                                assert(adj@[x]@ == pre_adj[x]@.push(b));
                            } else {
                                assert(adj@[x] == pre_adj[x]);
                            }
                            assert(adj@[x]@[k] == y);
                        } else {
                            assert(adj@[a as int]@[adj@[a as int]@.len() - 1] == b);
                        }
                    }
                }
            },
            _ => {
                proof {
                    assert(!(kset.contains(e.0) && kset.contains(e.1)));
                }
            },
        }
        i = i + 1;
    }
    proof {
        assert(edge_rows@.take(edge_rows.len() as int) =~= edge_rows@);
    }

    // Cycles among the returned files.
    let mut order: Vec<usize> = Vec::new();
    let mut i: usize = 0;
    while i < kept
        invariant
            i <= kept,
            order.len() == i,
            forall|j: int| 0 <= j < i ==> #[trigger] order@[j] == j,
        decreases kept - i,
    {
        order.push(i);
        i = i + 1;
    }
    let ghost ga = adj_view(adj@);
    proof {
        assert forall|a: int, k: int| 0 <= a < ga.len() && 0 <= k < ga[a].len() implies #[trigger] ga[a][k]
            < ga.len() by {
            assert(ga[a][k] == adj@[a]@[k]);
        }
    }
    let raw = find_cycles_from(&adj, &order, MAX_CYCLES);
    let mut cycles: Vec<CycleInfo> = Vec::new();
    let mut c: usize = 0;
    while c < raw.len()
        invariant
            c <= raw.len(),
            raw.len() <= MAX_CYCLES,
            cycles.len() == c,
            ga == adj_view(adj@),
            cycles_ok(ga, raw@),
            adj.len() == kept,
            kept <= file_rows.len(),
            nodes.len() == kept,
            forall|j: int| 0 <= j < kept ==> (#[trigger] nodes@[j]).file_id == file_rows@[j].0
                && nodes@[j].relative_path@ == file_rows@[j].2@,
            forall|a: int, k: int|
                0 <= a < kept && 0 <= k < adj@[a]@.len() ==> #[trigger] adj@[a]@[k] < kept
                    && has_file_edge(edges@, file_rows@[a].0, file_rows@[adj@[a]@[k] as int].0),
            distinct_ids(file_rows@),
            forall|x: int|
                0 <= x < c ==> {
                    &&& (#[trigger] cycles@[x]).file_ids@.len() == raw@[x]@.len()
                    &&& forall|j: int|
                        0 <= j < raw@[x]@.len() ==> #[trigger] cycles@[x].file_ids@[j]
                            == file_rows@[raw@[x]@[j] as int].0
                    &&& is_file_cycle(edges@, cycles@[x].file_ids@)
                    &&& cycles@[x].file_paths.len() == cycles@[x].file_ids.len()
                    &&& forall|k: int|
                        0 <= k < cycles@[x].file_ids.len() ==> exists|i: int|
                            0 <= i < kept && file_rows@[i].0 == #[trigger] cycles@[x].file_ids@[k]
                                && cycles@[x].file_paths@[k]@ == file_rows@[i].2@
                },
        decreases raw.len() - c,
    {
        let cyc = &raw[c];
        let ghost ci = ints(cyc@);
        assert(is_simple_cycle(ga, ci));
        let mut file_ids: Vec<i64> = Vec::new();
        let mut file_paths: Vec<String> = Vec::new();
        let mut k: usize = 0;
        while k < cyc.len()
            invariant
                k <= cyc.len(),
                ci == ints(cyc@),
                is_simple_cycle(ga, ci),
                ga == adj_view(adj@),
                adj.len() == kept,
                nodes.len() == kept,
                forall|j: int| 0 <= j < kept ==> (#[trigger] nodes@[j]).file_id == file_rows@[j].0
                    && nodes@[j].relative_path@ == file_rows@[j].2@,
                file_ids.len() == k,
                file_paths.len() == k,
                forall|j: int| 0 <= j < k ==> #[trigger] file_ids@[j] == file_rows@[cyc@[j] as int].0,
                forall|j: int| 0 <= j < k ==> #[trigger] file_paths@[j]@ == file_rows@[cyc@[j] as int].2@,
            decreases cyc.len() - k,
        {
            let x = cyc[k];
            assert(0 <= ci[k as int] < ga.len());
            file_ids.push(nodes[x].file_id);
            file_paths.push(nodes[x].relative_path.clone());
            k = k + 1;
        }
        proof {
            let ids = file_ids@;
            assert forall|j: int| 0 <= j < ids.len() - 1 implies has_file_edge(edges@, #[trigger] ids[j], ids[j + 1]) by {
                assert(has_edge(ga, ci[j], ci[j + 1]));
                let kk = choose|kk: int| 0 <= kk < ga[ci[j]].len() && #[trigger] ga[ci[j]][kk] == ci[j + 1];
                assert(adj@[ci[j]]@[kk] == cyc@[j + 1]);
            }
            let l = ids.len() - 1;
            assert(has_edge(ga, ci[l], ci[0]));
            let kk = choose|kk: int| 0 <= kk < ga[ci[l]].len() && #[trigger] ga[ci[l]][kk] == ci[0];
            assert(adj@[ci[l]]@[kk] == cyc@[0]);
            assert(ids.last() == ids[l]);
            assert forall|a: int, b: int| 0 <= a < b < ids.len() implies ids[a] != ids[b] by {
                assert(ci[a] != ci[b]);
            }
            assert forall|kq: int| 0 <= kq < ids.len() implies exists|i: int|
                0 <= i < kept && file_rows@[i].0 == #[trigger] ids[kq] && file_paths@[kq]@
                    == file_rows@[i].2@ by {
                assert(0 <= ci[kq] < kept);
                assert(file_rows@[cyc@[kq] as int].0 == ids[kq]);
            }
        }
        cycles.push(CycleInfo { file_ids, file_paths });
        c = c + 1;
    }
    proof {
        assert forall|ids: Seq<i64>| #[trigger] is_file_walk_cycle(edges@, ids) implies is_cycle(
            ga,
            index_walk(index@, ids),
        ) && forall|j: int|
            0 <= j < ids.len() ==> file_rows@[#[trigger] index_walk(index@, ids)[j]].0 == ids[j] by {
            let c = index_walk(index@, ids);
            assert forall|j: int| 0 <= j < ids.len() implies index@.contains_key(#[trigger] ids[j]) by {
                if j < ids.len() - 1 {
                    assert(has_file_edge(edges@, ids[j], ids[j + 1]));
                } else {
                    assert(has_file_edge(edges@, ids.last(), ids[0]));
                }
            }
            assert forall|j: int| 0 <= j < c.len() implies 0 <= #[trigger] c[j] < ga.len() by {
                assert(index@.contains_key(ids[j]));
            }
            assert forall|j: int| 0 <= j < c.len() - 1 implies has_edge(ga, #[trigger] c[j], c[j + 1]) by {
                assert(has_file_edge(edges@, ids[j], ids[j + 1]));
                let q = choose|q: int|
                    0 <= q < edges.len() && (#[trigger] edges@[q]).source_file_id == ids[j]
                        && edges@[q].target_file_id == ids[j + 1];
                assert(adj@[index@[edges@[q].source_file_id] as int]@.contains(
                    index@[edges@[q].target_file_id],
                ));
                let kk = choose|kk: int| 0 <= kk < adj@[c[j]]@.len() && adj@[c[j]]@[kk] == index@[ids[j + 1]];
                assert(ga[c[j]][kk] == c[j + 1]);
            }
            assert(has_file_edge(edges@, ids.last(), ids[0]));
            let q = choose|q: int|
                0 <= q < edges.len() && (#[trigger] edges@[q]).source_file_id == ids.last()
                    && edges@[q].target_file_id == ids[0];
            assert(adj@[index@[edges@[q].source_file_id] as int]@.contains(
                index@[edges@[q].target_file_id],
            ));
            let l = c.len() - 1;
            let kk = choose|kk: int| 0 <= kk < adj@[c[l]]@.len() && adj@[c[l]]@[kk] == index@[ids[0]];
            assert(ga[c[l]][kk] == c[0]);
            assert(is_cycle(ga, c));
            assert forall|j: int| 0 <= j < ids.len() implies file_rows@[#[trigger] c[j]].0 == ids[j] by {
                assert(index@.contains_key(ids[j]));
            }
        }
        if cycles.len() == 0 {
            let (visited, on_stack) = choose|visited: Seq<bool>, on_stack: Seq<bool>|
                {
                    &&& #[trigger] closed_black(ga, visited, on_stack)
                    &&& visited.len() == adj.len()
                    &&& on_stack.len() == adj.len()
                    &&& forall|i: int| 0 <= i < order.len() ==> is_black(visited, on_stack, #[trigger] order@[i] as int)
                };
            assert forall|x: int| 0 <= x < ga.len() implies is_black(visited, on_stack, x) by {
                assert(order@[x] == x);
            }
            lemma_all_black_acyclic(ga, visited, on_stack);
            assert forall|ids: Seq<i64>| !#[trigger] is_file_walk_cycle(edges@, ids) by {
                if is_file_walk_cycle(edges@, ids) {
                    assert(is_cycle(ga, index_walk(index@, ids)));
                }
            }
        }
        if cycles.len() < MAX_CYCLES {
            assert forall|ids: Seq<i64>| #[trigger] is_file_walk_cycle(edges@, ids) implies walk_uses_closing_import(
                cycles@,
                ids,
            ) by {
                let c = index_walk(index@, ids);
                assert(is_cycle(ga, c));
                assert(order@[c[0]] == c[0] as usize);
                assert(order@.contains(c[0] as usize));
                assert(uses_closing_edge(raw@, c));
                let l = ids.len() - 1;
                assert(file_rows@[c[l]].0 == ids[l]);
                assert(file_rows@[c[0]].0 == ids[0]);
                if closes(raw@, c.last(), c[0]) {
                    let q = choose|q: int|
                        0 <= q < raw@.len() && (#[trigger] raw@[q])@.last() as int == c.last()
                            && raw@[q]@[0] as int == c[0];
                    let m = raw@[q]@.len() - 1;
                    assert(cycles@[q].file_ids@[m] == file_rows@[raw@[q]@[m] as int].0);
                    assert(cycles@[q].file_ids@[0] == file_rows@[raw@[q]@[0] as int].0);
                    assert(closes_file_cycle(cycles@, ids.last(), ids[0]));
                } else {
                    let t = choose|t: int| 0 <= t < c.len() - 1 && #[trigger] closes(raw@, c[t], c[t + 1]);
                    let q = choose|q: int|
                        0 <= q < raw@.len() && (#[trigger] raw@[q])@.last() as int == c[t]
                            && raw@[q]@[0] as int == c[t + 1];
                    let m = raw@[q]@.len() - 1;
                    assert(cycles@[q].file_ids@[m] == file_rows@[raw@[q]@[m] as int].0);
                    assert(cycles@[q].file_ids@[0] == file_rows@[raw@[q]@[0] as int].0);
                    assert(file_rows@[c[t]].0 == ids[t]);
                    assert(file_rows@[c[t + 1]].0 == ids[t + 1]);
                    assert(closes_file_cycle(cycles@, ids[t], ids[t + 1]));
                }
            }
        }
    }
    DependencyGraph {
        nodes,
        edges,
        cycles,
        total_files,
        total_imports,
        total_graph_nodes,
        truncated,
    }
}

} // verus!
