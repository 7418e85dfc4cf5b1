use codecompass::call_graph::build_call_graph;
use codecompass::graph::{build_graph, MAX_GRAPH_NODES};
use codecompass::health::collect_cycle_file_ids;
use codecompass::impact::{detect_cycle, transitive_dependents};
use codecompass::reading_path::generate_reading_path;

fn file(id: i64, name: &str) -> (i64, String, String, Option<String>) {
    (id, name.to_string(), format!("src/{name}"), Some("ts".to_string()))
}

fn edge(a: i64, b: i64) -> (i64, i64, String, bool) {
    (a, b, "static_import".to_string(), false)
}

#[test]
fn three_file_cycle_is_reported() {
    let g = build_graph(3, 3, vec![file(1, "a.ts"), file(2, "b.ts"), file(3, "c.ts")], vec![edge(1, 2), edge(2, 3), edge(3, 1)]);
    assert_eq!(g.nodes.len(), 3);
    assert_eq!(g.edges.len(), 3);
    assert!(!g.truncated);
    assert_eq!(g.total_graph_nodes, 3);
    assert_eq!(g.cycles.len(), 1);
    assert_eq!(g.cycles[0].file_ids.len(), 3);
    assert_eq!(g.cycles[0].file_paths.len(), 3);
    for n in &g.nodes {
        assert_eq!(n.incoming_count, 1);
        assert_eq!(n.outgoing_count, 1);
    }
}

#[test]
fn separate_cycles_are_each_reported() {
    let files = vec![file(1, "a.ts"), file(2, "b.ts"), file(3, "c.ts"), file(4, "d.ts"), file(5, "e.ts")];
    let edges = vec![edge(1, 2), edge(2, 1), edge(3, 4), edge(4, 5), edge(5, 3)];
    let g = build_graph(5, 5, files, edges);
    assert_eq!(g.cycles.len(), 2);
    assert_eq!(g.cycles[0].file_ids, vec![1, 2]);
    assert_eq!(g.cycles[1].file_ids, vec![3, 4, 5]);
    assert_eq!(g.cycles[1].file_paths, vec!["src/c.ts", "src/d.ts", "src/e.ts"]);
}

#[test]
fn at_most_twenty_cycles_are_reported() {
    let mut files = Vec::new();
    let mut edges = Vec::new();
    for k in 0..25i64 {
        let a = 2 * k + 1;
        let b = 2 * k + 2;
        files.push(file(a, &format!("p{a:03}.ts")));
        files.push(file(b, &format!("p{b:03}.ts")));
        edges.push(edge(a, b));
        edges.push(edge(b, a));
    }
    let g = build_graph(50, 50, files, edges);
    assert_eq!(g.cycles.len(), 20);
}

#[test]
fn two_node_graph_has_no_cycle() {
    let g = build_graph(2, 1, vec![file(1, "a.ts"), file(2, "b.ts")], vec![edge(1, 2)]);
    assert_eq!(g.nodes.len(), 2);
    assert_eq!(g.edges.len(), 1);
    assert!(g.cycles.is_empty());
    assert_eq!(g.nodes[0].outgoing_count, 1);
    assert_eq!(g.nodes[1].incoming_count, 1);
}

#[test]
fn large_graph_is_truncated_not_refused() {
    let files: Vec<_> = (1..=(MAX_GRAPH_NODES as i64 + 1)).map(|i| file(i, &format!("f{i}.ts"))).collect();
    let edges = vec![edge(1, MAX_GRAPH_NODES as i64 + 1), edge(1, 2)];
    let g = build_graph(600, 2, files, edges);
    assert_eq!(g.nodes.len(), MAX_GRAPH_NODES);
    assert!(g.truncated);
    assert_eq!(g.total_graph_nodes, MAX_GRAPH_NODES as i64 + 1);
    assert_eq!(g.edges.len(), 1);
    assert_eq!(g.nodes[0].outgoing_count, 2);
}

fn info(id: i64, path: &str) -> (i64, String, String) {
    (id, path.to_string(), path.rsplit('/').next().unwrap().to_string())
}

#[test]
fn reading_path_follows_imports_breadth_first() {
    let edges = vec![(1, 2), (1, 3), (2, 4)];
    let files = vec![info(1, "main.ts"), info(2, "a.ts"), info(3, "b.ts"), info(4, "c.ts")];
    let items = generate_reading_path(&edges, &files, &vec![1]);
    let ids: Vec<i64> = items.iter().map(|i| i.file_id).collect();
    assert_eq!(ids, vec![1, 2, 3, 4]);
    assert_eq!(items[0].reason, "entry point");
    assert_eq!(items[0].depth, 0);
    assert_eq!(items[1].reason, "imported by entry point");
    assert_eq!(items[1].depth, 1);
    assert_eq!(items[3].reason, "imported by a.ts");
    assert_eq!(items[3].depth, 2);
    assert_eq!(items[3].relative_path, "c.ts");
    for (k, it) in items.iter().enumerate() {
        assert_eq!(it.order, k as i64);
    }
}

#[test]
fn reading_path_without_entries_starts_from_most_imported() {
    let edges = vec![(1, 3), (2, 3), (1, 2)];
    let files = vec![info(1, "x.ts"), info(2, "y.ts"), info(3, "z.ts")];
    let items = generate_reading_path(&edges, &files, &vec![]);
    let ids: Vec<i64> = items.iter().map(|i| i.file_id).collect();
    assert_eq!(ids, vec![3, 2]);
    assert_eq!(items[0].reason, "highly imported module");
    assert_eq!(items[1].reason, "highly imported module");
}

#[test]
fn reading_path_is_cycle_safe_and_deduplicates_entries() {
    let edges = vec![(1, 2), (2, 1)];
    let files = vec![info(1, "a.ts"), info(2, "b.ts")];
    let items = generate_reading_path(&edges, &files, &vec![1, 1]);
    let ids: Vec<i64> = items.iter().map(|i| i.file_id).collect();
    assert_eq!(ids, vec![1, 2]);
}

#[test]
fn reading_path_stops_at_two_hundred() {
    let edges: Vec<(i64, i64)> = (2..=300).map(|i| (1, i)).collect();
    let files: Vec<_> = (1..=300).map(|i| info(i, &format!("f{i}.ts"))).collect();
    let items = generate_reading_path(&edges, &files, &vec![1]);
    assert_eq!(items.len(), 200);
}

fn sym(id: i64, name: &str) -> (i64, String, String, String, bool) {
    (id, name.to_string(), "function".to_string(), format!("{name}.ts"), true)
}

fn call(a: i64, b: i64, line: i64) -> (i64, i64, String, i64) {
    (a, b, "call".to_string(), line)
}

#[test]
fn call_graph_respects_depth_in_both_directions() {
    let refs = vec![call(1, 2, 3), call(2, 3, 4), call(3, 4, 5)];
    let symbols = vec![sym(1, "a"), sym(2, "b"), sym(3, "c"), sym(4, "d")];
    let g = build_call_graph(&refs, &symbols, Some(2), 1);
    let mut ids: Vec<i64> = g.nodes.iter().map(|n| n.symbol_id).collect();
    ids.sort();
    assert_eq!(ids, vec![1, 2, 3]);
    assert!(g.depth_limit_reached);
    assert_eq!(g.edges.len(), 3);
    let b = g.nodes.iter().find(|n| n.symbol_id == 2).unwrap();
    assert_eq!(b.callers_count, 1);
    assert_eq!(b.callees_count, 1);
    assert_eq!(b.file_path, "b.ts");
    assert!(g.cycles.is_empty());

    let all = build_call_graph(&refs, &symbols, Some(2), 5);
    assert_eq!(all.nodes.len(), 4);
    assert!(!all.depth_limit_reached);
}

#[test]
fn call_graph_reports_cycles_and_limits() {
    let refs = vec![call(1, 2, 1), call(2, 1, 2)];
    let symbols = vec![sym(1, "a"), sym(2, "b")];
    let g = build_call_graph(&refs, &symbols, Some(1), 3);
    assert!(!g.cycles.is_empty());
    assert_eq!(g.cycles[0].len(), 2);
    let none = build_call_graph(&refs, &symbols, None, 0);
    assert_eq!(none.nodes.len(), 2);
    assert!(none.depth_limit_reached);
    let negative = build_call_graph(&refs, &symbols, Some(1), -1);
    assert!(negative.nodes.is_empty());
    assert!(negative.depth_limit_reached);
    assert!(negative.edges.is_empty());
}

#[test]
fn dependents_are_found_with_depths() {
    let refs = vec![(2, 1), (3, 2), (4, 3)];
    let d = transitive_dependents(&refs, 1);
    assert_eq!(d.ids, vec![2, 3, 4]);
    assert_eq!(d.depths, vec![1, 2, 3]);
    assert_eq!(d.direct, 1);
    assert!(!detect_cycle(&refs, 1));
    let cyclic = vec![(2, 1), (3, 2), (4, 3), (1, 4)];
    assert!(detect_cycle(&cyclic, 1));
}

#[test]
fn dependents_stop_at_depth_five() {
    let refs: Vec<(i64, i64)> = (1..10).map(|i| (i + 1, i)).collect();
    let d = transitive_dependents(&refs, 1);
    assert_eq!(d.ids.len(), 5);
    assert!(d.depths.iter().all(|&x| x >= 1 && x <= 5));
}

#[test]
fn cycle_files_are_flagged() {
    let mut ids = collect_cycle_file_ids(&vec![(1, 2), (2, 1), (3, 1)]);
    ids.sort();
    assert_eq!(ids, vec![1, 2]);
    assert!(collect_cycle_file_ids(&vec![(1, 2), (2, 3)]).is_empty());
}

#[test]
fn dependents_take_their_shortest_chain() {
    // 3 calls 1 directly and also calls 2, which calls 1.
    let refs = vec![(2, 1), (3, 2), (3, 1), (4, 3)];
    let d = transitive_dependents(&refs, 1);
    let mut pairs: Vec<(i64, u64)> = d.ids.iter().copied().zip(d.depths.iter().copied()).collect();
    pairs.sort();
    assert_eq!(pairs, vec![(2, 1), (3, 1), (4, 2)]);
    assert_eq!(d.direct, 2);
}

#[test]
fn reading_path_follows_import_order_among_siblings() {
    let edges = vec![(1, 3), (1, 2), (3, 4)];
    let files = vec![
        (1, "main.ts".to_string(), "main.ts".to_string()),
        (2, "b.ts".to_string(), "b.ts".to_string()),
        (3, "c.ts".to_string(), "c.ts".to_string()),
        (4, "d.ts".to_string(), "d.ts".to_string()),
    ];
    let items = generate_reading_path(&edges, &files, &vec![1]);
    let ids: Vec<i64> = items.iter().map(|i| i.file_id).collect();
    assert_eq!(ids, vec![1, 3, 2, 4]);
    assert_eq!(items[3].depth, 2);
    assert_eq!(items[3].reason, "imported by c.ts");
}

#[test]
fn repeated_calls_count_each_dependent_once() {
    let refs = vec![(2, 1), (2, 1), (3, 2), (3, 2), (1, 1)];
    let d = transitive_dependents(&refs, 1);
    assert_eq!(d.ids, vec![2, 3]);
    assert_eq!(d.depths, vec![1, 2]);
    assert_eq!(d.direct, 1);
}
