//! Graphs whose nodes are database ids, given as edge lists, turned into
//! adjacency lists over dense node indices.
use std::collections::HashMap;
use vstd::prelude::*;

use crate::digraph::{adj_view, has_edge, is_cycle, is_path, well_formed};

verus! {

broadcast use vstd::std_specs::hash::group_hash_axioms;

/// Some edge goes from `a` to `b`.
pub open spec fn has_id_edge(edges: Seq<(i64, i64)>, a: i64, b: i64) -> bool {
    exists|j: int| 0 <= j < edges.len() && #[trigger] edges[j] == (a, b)
}

/// A closed walk along the edges.
pub open spec fn is_id_walk_cycle(edges: Seq<(i64, i64)>, ids: Seq<i64>) -> bool {
    &&& ids.len() > 0
    &&& forall|i: int| 0 <= i < ids.len() - 1 ==> has_id_edge(edges, #[trigger] ids[i], ids[i + 1])
    &&& has_id_edge(edges, ids.last(), ids[0])
}

/// A closed walk that visits no id twice.
pub open spec fn is_id_cycle(edges: Seq<(i64, i64)>, ids: Seq<i64>) -> bool {
    &&& is_id_walk_cycle(edges, ids)
    &&& forall|i: int, j: int| 0 <= i < j < ids.len() ==> ids[i] != ids[j]
}

/// A path along the edges from `ids[0]` to `ids.last()`.
pub open spec fn is_id_path(edges: Seq<(i64, i64)>, ids: Seq<i64>) -> bool {
    &&& ids.len() > 0
    &&& forall|i: int| 0 <= i < ids.len() - 1 ==> has_id_edge(edges, #[trigger] ids[i], ids[i + 1])
}

/// `t` is reachable from `s` along the edges.
pub open spec fn id_reaches(edges: Seq<(i64, i64)>, s: i64, t: i64) -> bool {
    exists|p: Seq<i64>| #[trigger] is_id_path(edges, p) && p[0] == s && p.last() == t
}

/// `x` is an endpoint of some edge or listed in `extra`.
pub open spec fn is_node(extra: Seq<i64>, edges: Seq<(i64, i64)>, x: i64) -> bool {
    extra.contains(x) || exists|j: int| 0 <= j < edges.len() && (#[trigger] edges[j].0 == x || edges[j].1 == x)
}

/// The targets of the edges leaving `a`, in edge order.
pub open spec fn succ_ids(edges: Seq<(i64, i64)>, a: i64) -> Seq<i64>
    decreases edges.len(),
{
    if edges.len() == 0 {
        Seq::empty()
    } else {
        let rest = succ_ids(edges.drop_last(), a);
        if edges.last().0 == a {
            rest.push(edges.last().1)
        } else {
            rest
        }
    }
}

/// Dense indices for the ids of a graph, and its adjacency lists over them.
pub struct IdGraph {
    /// The node ids, without repetition.
    pub ids: Vec<i64>,
    /// Position of every id in `ids`.
    pub index: HashMap<i64, usize>,
    /// Successor indices of every node, in edge order.
    pub adj: Vec<Vec<usize>>,
}

impl IdGraph {
    /// The graph represents exactly the given edges over the given nodes.
    pub open spec fn represents(&self, extra: Seq<i64>, edges: Seq<(i64, i64)>) -> bool {
        &&& self.adj.len() == self.ids.len()
        &&& well_formed(adj_view(self.adj@))
        &&& forall|i: int, j: int| 0 <= i < j < self.ids.len() ==> self.ids[i] != self.ids[j]
        &&& forall|x: i64| #[trigger] self.index@.contains_key(x) <==> is_node(extra, edges, x)
        &&& forall|x: i64|
            #[trigger] self.index@.contains_key(x) ==> self.index@[x] < self.ids.len()
                && self.ids[self.index@[x] as int] == x
        &&& forall|i: int| 0 <= i < self.ids.len() ==> self.index@.contains_key(#[trigger] self.ids[i])
        &&& forall|a: int|
            0 <= a < self.ids.len() ==> (#[trigger] self.adj@[a])@.map_values(
                |k: usize| self.ids[k as int],
            ) == succ_ids(edges, self.ids[a])
        &&& forall|a: int, k: int|
            0 <= a < self.ids.len() && 0 <= k < self.adj@[a]@.len() ==> has_id_edge(
                edges,
                self.ids[a],
                self.ids[#[trigger] self.adj@[a]@[k] as int],
            )
        &&& forall|j: int|
            0 <= j < edges.len() ==> self.adj@[self.index@[(#[trigger] edges[j]).0] as int]@.contains(
                self.index@[edges[j].1],
            )
        &&& forall|i: int| 0 <= i < extra.len() ==> #[trigger] self.index@.contains_key(extra[i])
    }

    /// The index adjacency as a mathematical graph.
    pub open spec fn g(&self) -> Seq<Seq<usize>> {
        adj_view(self.adj@)
    }
}

proof fn lemma_succ_ids_extend(edges: Seq<(i64, i64)>, i: int, a: i64)
    requires
        0 <= i < edges.len(),
    ensures
        succ_ids(edges.take(i + 1), a) == if edges[i].0 == a {
            succ_ids(edges.take(i), a).push(edges[i].1)
        } else {
            succ_ids(edges.take(i), a)
        },
{
    assert(edges.take(i + 1).drop_last() =~= edges.take(i));
}

fn add_node(ids: &mut Vec<i64>, index: &mut HashMap<i64, usize>, adj: &mut Vec<Vec<usize>>, x: i64)
    requires
        old(adj).len() == old(ids).len(),
        forall|i: int, j: int| 0 <= i < j < old(ids).len() ==> old(ids)[i] != old(ids)[j],
        forall|y: i64|
            #[trigger] old(index)@.contains_key(y) ==> old(index)@[y] < old(ids).len()
                && old(ids)[old(index)@[y] as int] == y,
        forall|i: int| 0 <= i < old(ids).len() ==> old(index)@.contains_key(#[trigger] old(ids)[i]),
    ensures
        final(index)@.contains_key(x),
        final(index)@ == if old(index)@.contains_key(x) {
            old(index)@
        } else {
            old(index)@.insert(x, old(ids).len())
        },
        final(ids)@ == if old(index)@.contains_key(x) {
            old(ids)@
        } else {
            old(ids)@.push(x)
        },
        old(index)@.contains_key(x) ==> final(adj)@ == old(adj)@,
        !old(index)@.contains_key(x) ==> final(adj)@.len() == old(adj)@.len() + 1,
        !old(index)@.contains_key(x) ==> final(adj)@.drop_last() == old(adj)@,
        !old(index)@.contains_key(x) ==> final(adj)@.last()@.len() == 0,
        final(adj).len() == final(ids).len(),
        forall|i: int, j: int| 0 <= i < j < final(ids).len() ==> final(ids)[i] != final(ids)[j],
        forall|y: i64|
            #[trigger] final(index)@.contains_key(y) ==> final(index)@[y] < final(ids).len()
                && final(ids)[final(index)@[y] as int] == y,
        forall|i: int| 0 <= i < final(ids).len() ==> final(index)@.contains_key(#[trigger] final(ids)[i]),
{
    if !index.contains_key(&x) {
        proof {
            assert forall|i: int| 0 <= i < ids.len() implies ids[i] != x by {
                assert(index@.contains_key(ids[i]));
            }
        }
        index.insert(x, ids.len());
        ids.push(x);
        adj.push(Vec::new());
        proof {
            assert forall|i: int| 0 <= i < ids.len() implies index@.contains_key(#[trigger] ids[i]) by {
                if i < ids.len() - 1 {
                    assert(old(index)@.contains_key(old(ids)[i]));
                }
            }
        }
    }
}

/// Builds the indexed graph: the nodes are the ids of `extra` (in order)
/// followed by the edge endpoints in order of first appearance.
pub fn build_id_graph(extra: &Vec<i64>, edges: &Vec<(i64, i64)>) -> (g: IdGraph)
    ensures
        g.represents(extra@, edges@),
{
    let mut ids: Vec<i64> = Vec::new();
    let mut index: HashMap<i64, usize> = HashMap::new();
    let mut adj: Vec<Vec<usize>> = Vec::new();
    let mut i: usize = 0;
    while i < extra.len()
        invariant
            i <= extra.len(),
            adj.len() == ids.len(),
            forall|a: int| 0 <= a < adj.len() ==> (#[trigger] adj@[a])@.len() == 0,
            forall|p: int, q: int| 0 <= p < q < ids.len() ==> ids[p] != ids[q],
            forall|y: i64|
                #[trigger] index@.contains_key(y) ==> index@[y] < ids.len() && ids[index@[y] as int] == y,
            forall|p: int| 0 <= p < ids.len() ==> index@.contains_key(#[trigger] ids[p]),
            forall|y: i64| #[trigger] index@.contains_key(y) <==> extra@.take(i as int).contains(y),
        decreases extra.len() - i,
    {
        let ghost pre = index@;
        let ghost pre_adj = adj@;
        let x = extra[i];
        add_node(&mut ids, &mut index, &mut adj, x);
        proof {
            let t1 = extra@.take(i + 1);
            let t0 = extra@.take(i as int);
            assert(t1 =~= t0.push(x));
            assert forall|y: i64| #[trigger] index@.contains_key(y) <==> t1.contains(y) by {
                if y == x {
                    assert(t1[i as int] == x);
                } else {
                    assert(index@.contains_key(y) == pre.contains_key(y));
                    if t1.contains(y) {
                        let q = choose|q: int| 0 <= q < t1.len() && #[trigger] t1[q] == y;
                        assert(q < i);
                        assert(t0[q] == y);
                    }
                    if t0.contains(y) {
                        let q = choose|q: int| 0 <= q < t0.len() && #[trigger] t0[q] == y;
                        assert(t1[q] == y);
                    }
                }
            }
            assert forall|a: int| 0 <= a < adj.len() implies (#[trigger] adj@[a])@.len() == 0 by {
                if a < pre_adj.len() {
                    assert(adj@.drop_last()[a] == adj@[a] || adj@ == pre_adj);
                }
            }
        }
        i = i + 1;
    }
    proof {
        assert(extra@.take(extra.len() as int) =~= extra@);
    }
    let mut i: usize = 0;
    while i < edges.len()
        invariant
            i <= edges.len(),
            adj.len() == ids.len(),
            forall|p: int, q: int| 0 <= p < q < ids.len() ==> ids[p] != ids[q],
            forall|y: i64|
                #[trigger] index@.contains_key(y) ==> index@[y] < ids.len() && ids[index@[y] as int] == y,
            forall|p: int| 0 <= p < ids.len() ==> index@.contains_key(#[trigger] ids[p]),
            forall|y: i64|
                #[trigger] index@.contains_key(y) <==> is_node(extra@, edges@.take(i as int), y),
            forall|a: int|
                0 <= a < ids.len() ==> (#[trigger] adj@[a])@.map_values(|k: usize| ids[k as int])
                    == succ_ids(edges@.take(i as int), ids[a]),
            forall|a: int, k: int|
                0 <= a < ids.len() && 0 <= k < adj@[a]@.len() ==> #[trigger] adj@[a]@[k] < ids.len(),
        decreases edges.len() - i,
    {
        let (s, t) = edges[i];
        let ghost pre_ids = ids@;
        let ghost pre_adj = adj@;
        let ghost pre_index = index@;
        add_node(&mut ids, &mut index, &mut adj, s);
        let ghost mid_ids = ids@;
        let ghost mid_adj = adj@;
        add_node(&mut ids, &mut index, &mut adj, t);
        let a = *index.get(&s).unwrap();
        let b = *index.get(&t).unwrap();
        let ghost pre2_adj = adj@;
        adj[a].push(b);
        proof {
            let e = edges@.take(i + 1);
            let ep = edges@.take(i as int);
            assert(e =~= ep.push((s, t)));
            assert forall|y: i64| #[trigger] index@.contains_key(y) <==> is_node(extra@, e, y) by {
                if is_node(extra@, e, y) && !extra@.contains(y) {
                    let q = choose|q: int| 0 <= q < e.len() && (#[trigger] e[q].0 == y || e[q].1 == y);
                    if q < i {
                        assert(ep[q] == e[q]);
                        assert(is_node(extra@, ep, y));
                    }
                }
                if is_node(extra@, ep, y) && !extra@.contains(y) {
                    let q = choose|q: int| 0 <= q < ep.len() && (#[trigger] ep[q].0 == y || ep[q].1 == y);
                    assert(e[q] == ep[q]);
                }
                if y == s {
                    assert(e[i as int].0 == y);
                }
                if y == t {
                    assert(e[i as int].1 == y);
                }
            }
            lemma_succ_ids_extend(edges@, i as int, 0);
            assert forall|x: int|
                0 <= x < ids.len() implies (#[trigger] adj@[x])@.map_values(|k: usize| ids[k as int])
                == succ_ids(e, ids[x]) by {
                lemma_succ_ids_extend(edges@, i as int, ids[x]);
                assert(edges@[i as int] == (s, t));
                if x < pre_ids.len() {
                    assert(ids[x] == pre_ids[x]);
                    assert(pre_adj[x]@.map_values(|k: usize| pre_ids[k as int]) == succ_ids(ep, ids[x]));
                    assert(pre_adj[x]@.map_values(|k: usize| pre_ids[k as int]) =~= pre_adj[x]@.map_values(
                        |k: usize| ids[k as int],
                    ));
                    if x == a as int {
                        assert(adj@[x]@ == pre2_adj[x]@.push(b));
                        assert(pre2_adj[x] == pre_adj[x]);
                        assert(adj@[x]@.map_values(|k: usize| ids[k as int]) =~= pre_adj[x]@.map_values(
                            |k: usize| ids[k as int],
                        ).push(t));
                    } else {
                        assert(adj@[x] == pre2_adj[x]);
                        assert(pre2_adj[x] == pre_adj[x]);
                        assert(ids[x] != s);
                    }
                } else {
                    assert(succ_ids(ep, ids[x]) =~= Seq::<i64>::empty()) by {
                        if succ_ids(ep, ids[x]).len() > 0 {
                            lemma_succ_ids_member(ep, ids[x]);
                        }
                    }
                    if x == a as int {
                        assert(pre2_adj[x]@.len() == 0);
                        assert(adj@[x]@.map_values(|k: usize| ids[k as int]) =~= seq![t]);
                    } else {
                        assert(adj@[x] == pre2_adj[x]);
                        assert(pre2_adj[x]@.len() == 0);
                        assert(ids[x] != s);
                        assert(adj@[x]@.map_values(|k: usize| ids[k as int]) =~= Seq::<i64>::empty());
                    }
                }
            }
            assert forall|x: int, k: int|
                0 <= x < ids.len() && 0 <= k < adj@[x]@.len() implies #[trigger] adj@[x]@[k] < ids.len() by {
                if x == a as int {
                    assert(adj@[x]@ == pre2_adj[x]@.push(b));
                    if k < pre2_adj[x]@.len() {
                        if x < pre_ids.len() {
                            assert(pre2_adj[x] == pre_adj[x]);
                        }
                    }
                } else {
                    assert(adj@[x] == pre2_adj[x]);
                    if x < pre_ids.len() {
                        assert(pre2_adj[x] == pre_adj[x]);
                    }
                }
            }
        }
        i = i + 1;
    }
    proof {
        assert(edges@.take(edges.len() as int) =~= edges@);
    }
    let g = IdGraph { ids, index, adj };
    proof {
        lemma_represents(&g, extra@, edges@);
    }
    g
}

proof fn lemma_succ_ids_member(edges: Seq<(i64, i64)>, a: i64)
    ensures
        forall|k: int|
            0 <= k < succ_ids(edges, a).len() ==> has_id_edge(edges, a, #[trigger] succ_ids(edges, a)[k]),
        succ_ids(edges, a).len() > 0 ==> exists|j: int| 0 <= j < edges.len() && #[trigger] edges[j].0 == a,
    decreases edges.len(),
{
    if edges.len() > 0 {
        let rest = edges.drop_last();
        lemma_succ_ids_member(rest, a);
        assert forall|k: int|
            0 <= k < succ_ids(edges, a).len() implies has_id_edge(edges, a, #[trigger] succ_ids(edges, a)[k]) by {
            if k < succ_ids(rest, a).len() {
                let j = choose|j: int| 0 <= j < rest.len() && #[trigger] rest[j] == (a, succ_ids(rest, a)[k]);
                assert(edges[j] == rest[j]);
            } else {
                assert(edges[edges.len() - 1] == (a, succ_ids(edges, a)[k]));
            }
        }
        if succ_ids(edges, a).len() > 0 && succ_ids(rest, a).len() > 0 {
            let j = choose|j: int| 0 <= j < rest.len() && #[trigger] rest[j].0 == a;
            assert(edges[j] == rest[j]);
        }
        if succ_ids(edges, a).len() > 0 && succ_ids(rest, a).len() == 0 {
            assert(edges[edges.len() - 1].0 == a);
        }
    }
}

proof fn lemma_succ_ids_complete(edges: Seq<(i64, i64)>, j: int)
    requires
        0 <= j < edges.len(),
    ensures
        succ_ids(edges, edges[j].0).contains(edges[j].1),
    decreases edges.len(),
{
    let rest = edges.drop_last();
    let a = edges[j].0;
    if j < edges.len() - 1 {
        lemma_succ_ids_complete(rest, j);
        assert(rest[j] == edges[j]);
        let k = choose|k: int| 0 <= k < succ_ids(rest, a).len() && #[trigger] succ_ids(rest, a)[k] == edges[j].1;
        assert(succ_ids(edges, a)[k] == edges[j].1);
    } else {
        assert(succ_ids(edges, a).last() == edges[j].1);
    }
}

proof fn lemma_represents(g: &IdGraph, extra: Seq<i64>, edges: Seq<(i64, i64)>)
    requires
        g.adj.len() == g.ids.len(),
        forall|p: int, q: int| 0 <= p < q < g.ids.len() ==> g.ids[p] != g.ids[q],
        forall|y: i64|
            #[trigger] g.index@.contains_key(y) ==> g.index@[y] < g.ids.len() && g.ids[g.index@[y] as int]
                == y,
        forall|p: int| 0 <= p < g.ids.len() ==> g.index@.contains_key(#[trigger] g.ids[p]),
        forall|y: i64| #[trigger] g.index@.contains_key(y) <==> is_node(extra, edges, y),
        forall|a: int|
            0 <= a < g.ids.len() ==> (#[trigger] g.adj@[a])@.map_values(|k: usize| g.ids[k as int])
                == succ_ids(edges, g.ids[a]),
        forall|a: int, k: int|
            0 <= a < g.ids.len() && 0 <= k < g.adj@[a]@.len() ==> #[trigger] g.adj@[a]@[k] < g.ids.len(),
    ensures
        g.represents(extra, edges),
{
    let gv = adj_view(g.adj@);
    assert forall|u: int, k: int| 0 <= u < gv.len() && 0 <= k < gv[u].len() implies #[trigger] gv[u][k]
        < gv.len() by {
        assert(gv[u][k] == g.adj@[u]@[k]);
    }
    assert forall|a: int, k: int|
        0 <= a < g.ids.len() && 0 <= k < g.adj@[a]@.len() implies has_id_edge(
        edges,
        g.ids[a],
        g.ids[#[trigger] g.adj@[a]@[k] as int],
    ) by {
        lemma_succ_ids_member(edges, g.ids[a]);
        let m = g.adj@[a]@.map_values(|k: usize| g.ids[k as int]);
        assert(m[k] == g.ids[g.adj@[a]@[k] as int]);
    }
    assert forall|j: int| 0 <= j < edges.len() implies g.adj@[g.index@[(#[trigger] edges[j]).0] as int]@.contains(
        g.index@[edges[j].1],
    ) by {
        let (s, t) = edges[j];
        assert(is_node(extra, edges, s));
        assert(is_node(extra, edges, t));
        assert(g.index@.contains_key(s));
        let a = g.index@[s] as int;
        assert(g.ids[a] == s);
        lemma_succ_ids_complete(edges, j);
        let m = g.adj@[a]@.map_values(|k: usize| g.ids[k as int]);
        assert(m == succ_ids(edges, g.ids[a]));
        assert(m.contains(t));
        let k = choose|k: int| 0 <= k < m.len() && #[trigger] m[k] == t;
        let b = g.adj@[a]@[k];
        assert(m[k] == g.ids[b as int]);
        assert(g.ids[b as int] == t);
        assert(g.index@.contains_key(g.ids[b as int]));
        assert(g.index@[t] == b) by {
            let bb = g.index@[t];
            if bb != b {
                assert(g.ids[bb as int] == t);
            }
        }
    }
    assert forall|i: int| 0 <= i < extra.len() implies #[trigger] g.index@.contains_key(extra[i]) by {
        assert(extra.contains(extra[i]));
    }
}

/// Index cycles are id cycles and back.
pub proof fn lemma_cycle_to_ids(g: &IdGraph, extra: Seq<i64>, edges: Seq<(i64, i64)>, c: Seq<int>)
    requires
        g.represents(extra, edges),
        is_cycle(g.g(), c),
    ensures
        is_id_walk_cycle(edges, c.map_values(|x: int| g.ids[x])),
{
    let ids = c.map_values(|x: int| g.ids[x]);
    assert forall|i: int| 0 <= i < ids.len() - 1 implies has_id_edge(edges, #[trigger] ids[i], ids[i + 1]) by {
        assert(has_edge(g.g(), c[i], c[i + 1]));
        let k = choose|k: int| 0 <= k < g.g()[c[i]].len() && #[trigger] g.g()[c[i]][k] == c[i + 1];
        assert(g.adj@[c[i]]@[k] == c[i + 1]);
    }
    let l = c.len() - 1;
    assert(has_edge(g.g(), c[l], c[0]));
    let k = choose|k: int| 0 <= k < g.g()[c[l]].len() && #[trigger] g.g()[c[l]][k] == c[0];
    assert(g.adj@[c[l]]@[k] == c[0]);
}

/// An id walk cycle gives an index cycle.
pub proof fn lemma_id_cycle_to_index(
    g: &IdGraph,
    extra: Seq<i64>,
    edges: Seq<(i64, i64)>,
    ids: Seq<i64>,
) -> (c: Seq<int>)
    requires
        g.represents(extra, edges),
        is_id_walk_cycle(edges, ids),
    ensures
        is_cycle(g.g(), c),
        c.len() == ids.len(),
        forall|i: int| 0 <= i < c.len() ==> g.ids[#[trigger] c[i]] == ids[i],
{
    let c = Seq::new(ids.len(), |j: int| g.index@[ids[j]] as int);
    assert forall|j: int| 0 <= j < ids.len() implies g.index@.contains_key(#[trigger] ids[j]) by {
        let e = if j < ids.len() - 1 {
            ids[j + 1]
        } else {
            ids[0]
        };
        if j < ids.len() - 1 {
            assert(has_id_edge(edges, ids[j], ids[j + 1]));
        } else {
            assert(has_id_edge(edges, ids.last(), ids[0]));
        }
        let q = choose|q: int| 0 <= q < edges.len() && #[trigger] edges[q] == (ids[j], e);
        assert(is_node(extra, edges, ids[j]));
    }
    assert forall|j: int| 0 <= j < c.len() implies 0 <= #[trigger] c[j] < g.g().len() by {
        assert(g.index@.contains_key(ids[j]));
    }
    assert forall|j: int| 0 <= j < c.len() - 1 implies has_edge(g.g(), #[trigger] c[j], c[j + 1]) by {
        assert(has_id_edge(edges, ids[j], ids[j + 1]));
        let q = choose|q: int| 0 <= q < edges.len() && #[trigger] edges[q] == (ids[j], ids[j + 1]);
        assert(g.adj@[g.index@[edges[q].0] as int]@.contains(g.index@[edges[q].1]));
        let kk = choose|kk: int|
            0 <= kk < g.adj@[c[j]]@.len() && #[trigger] g.adj@[c[j]]@[kk] == g.index@[ids[j + 1]];
        assert(g.g()[c[j]][kk] == c[j + 1]);
    }
    let l = c.len() - 1;
    assert(has_id_edge(edges, ids.last(), ids[0]));
    let q = choose|q: int| 0 <= q < edges.len() && #[trigger] edges[q] == (ids.last(), ids[0]);
    assert(g.adj@[g.index@[edges[q].0] as int]@.contains(g.index@[edges[q].1]));
    let kk = choose|kk: int| 0 <= kk < g.adj@[c[l]]@.len() && #[trigger] g.adj@[c[l]]@[kk] == g.index@[ids[0]];
    assert(g.g()[c[l]][kk] == c[0]);
    assert forall|i: int| 0 <= i < c.len() implies g.ids[#[trigger] c[i]] == ids[i] by {
        assert(g.index@.contains_key(ids[i]));
    }
    c
}


/// Index paths are id paths.
pub proof fn lemma_path_to_ids(g: &IdGraph, extra: Seq<i64>, edges: Seq<(i64, i64)>, c: Seq<int>)
    requires
        g.represents(extra, edges),
        is_path(g.g(), c),
    ensures
        is_id_path(edges, c.map_values(|x: int| g.ids[x])),
{
    let ids = c.map_values(|x: int| g.ids[x]);
    assert forall|i: int| 0 <= i < ids.len() - 1 implies has_id_edge(edges, #[trigger] ids[i], ids[i + 1]) by {
        assert(has_edge(g.g(), c[i], c[i + 1]));
        let k = choose|k: int| 0 <= k < g.g()[c[i]].len() && #[trigger] g.g()[c[i]][k] == c[i + 1];
        assert(g.adj@[c[i]]@[k] == c[i + 1]);
    }
}

/// An id path from a node gives an index path.
pub proof fn lemma_id_path_to_index(
    g: &IdGraph,
    extra: Seq<i64>,
    edges: Seq<(i64, i64)>,
    ids: Seq<i64>,
) -> (c: Seq<int>)
    requires
        g.represents(extra, edges),
        is_id_path(edges, ids),
        g.index@.contains_key(ids[0]),
    ensures
        is_path(g.g(), c),
        c.len() == ids.len(),
        forall|i: int| 0 <= i < c.len() ==> g.ids[#[trigger] c[i]] == ids[i],
        forall|i: int| 0 <= i < c.len() ==> #[trigger] c[i] == g.index@[ids[i]] as int,
{
    let c = Seq::new(ids.len(), |j: int| g.index@[ids[j]] as int);
    assert forall|j: int| 0 <= j < ids.len() implies g.index@.contains_key(#[trigger] ids[j]) by {
        if j > 0 {
            assert(has_id_edge(edges, ids[j - 1], ids[j]));
            let q = choose|q: int| 0 <= q < edges.len() && #[trigger] edges[q] == (ids[j - 1], ids[j]);
            assert(is_node(extra, edges, ids[j]));
        }
    }
    assert forall|j: int| 0 <= j < c.len() implies 0 <= #[trigger] c[j] < g.g().len() by {
        assert(g.index@.contains_key(ids[j]));
    }
    assert forall|j: int| 0 <= j < c.len() - 1 implies has_edge(g.g(), #[trigger] c[j], c[j + 1]) by {
        assert(has_id_edge(edges, ids[j], ids[j + 1]));
        let q = choose|q: int| 0 <= q < edges.len() && #[trigger] edges[q] == (ids[j], ids[j + 1]);
        assert(g.adj@[g.index@[edges[q].0] as int]@.contains(g.index@[edges[q].1]));
        let kk = choose|kk: int|
            0 <= kk < g.adj@[c[j]]@.len() && #[trigger] g.adj@[c[j]]@[kk] == g.index@[ids[j + 1]];
        assert(g.g()[c[j]][kk] == c[j + 1]);
    }
    assert forall|i: int| 0 <= i < c.len() implies g.ids[#[trigger] c[i]] == ids[i] by {
        assert(g.index@.contains_key(ids[i]));
    }
    c
}

} // verus!
