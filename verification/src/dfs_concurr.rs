//! Depth-first traversal of a directed graph given by adjacency lists.

use crate::randomness::random_in_range;
use vstd::prelude::*;

verus! {

/// A directed graph: `graph[a]` lists the nodes that `a` has an edge to.
pub type Graph = Vec<Vec<i32>>;

/// The adjacency lists of a graph as sequences.
pub open spec fn adjacency(graph: &Graph) -> Seq<Seq<i32>> {
    graph@.map_values(|row: Vec<i32>| row@)
}

/// Every listed edge leads to a node of the graph.
pub open spec fn valid_graph(adj: Seq<Seq<i32>>) -> bool {
    forall|a: int, j: int|
        0 <= a < adj.len() && 0 <= j < adj[a].len() ==> 0 <= #[trigger] adj[a][j] < adj.len()
}

/// There is an edge from `a` to `b`.
pub open spec fn has_edge(adj: Seq<Seq<i32>>, a: int, b: int) -> bool {
    &&& 0 <= a < adj.len()
    &&& exists|j: int| 0 <= j < adj[a].len() && adj[a][j] == b
}

/// `path` is a non-empty walk along edges of the graph.
pub open spec fn is_walk(adj: Seq<Seq<i32>>, path: Seq<int>) -> bool {
    &&& path.len() > 0
    &&& forall|k: int| 0 <= k < path.len() ==> 0 <= #[trigger] path[k] < adj.len()
    &&& forall|k: int| 0 <= k < path.len() - 1 ==> #[trigger] has_edge(adj, path[k], path[k + 1])
}

/// No node of `path` is marked in `marks`.
pub open spec fn avoids(path: Seq<int>, marks: Seq<bool>) -> bool {
    forall|k: int| 0 <= k < path.len() ==> !marks[#[trigger] path[k]]
}

/// `to` can be reached from `from` along a walk that passes only through
/// nodes not marked in `marks`.
pub open spec fn reachable_avoiding(adj: Seq<Seq<i32>>, marks: Seq<bool>, from: int, to: int) -> bool {
    exists|path: Seq<int>|
        #![trigger is_walk(adj, path), avoids(path, marks)]
        is_walk(adj, path) && path[0] == from && path.last() == to && avoids(path, marks)
}

/// `to` can be reached from `from` along a walk of the graph.
pub open spec fn reachable(adj: Seq<Seq<i32>>, from: int, to: int) -> bool {
    exists|path: Seq<int>| #[trigger] is_walk(adj, path) && path[0] == from && path.last() == to
}

/// The marks after a depth-first traversal from `node` that started with
/// the marks `before`: a node is marked exactly when it was marked before or
/// is reachable from `node` through nodes that were not marked before.
pub open spec fn traversal_result(
    adj: Seq<Seq<i32>>,
    before: Seq<bool>,
    node: int,
    after: Seq<bool>,
) -> bool {
    &&& after.len() == before.len()
    &&& forall|v: int|
        0 <= v < before.len() ==> (#[trigger] after[v] <==> (before[v] || reachable_avoiding(
            adj,
            before,
            node,
            v,
        )))
}

/// Node `i` has an edge coming in from a node numbered below it.
pub open spec fn has_parent_before(adj: Seq<Seq<i32>>, i: int) -> bool {
    exists|p: int| 0 <= p < i && #[trigger] has_edge(adj, p, i)
}

/// Every node but the first has an edge coming in from a node numbered below
/// it: the tree edges that connect the graph.
pub open spec fn spans_from_first(adj: Seq<Seq<i32>>) -> bool {
    forall|i: int| 1 <= i < adj.len() ==> #[trigger] has_parent_before(adj, i)
}

/// No node lists itself.
pub open spec fn no_self_loops(adj: Seq<Seq<i32>>) -> bool {
    forall|a: int, j: int| 0 <= a < adj.len() && 0 <= j < adj[a].len() ==> #[trigger] adj[a][j] != a
}

/// No node lists the same successor twice.
pub open spec fn no_parallel_edges(adj: Seq<Seq<i32>>) -> bool {
    forall|a: int, j: int, k: int|
        0 <= a < adj.len() && 0 <= j < k < adj[a].len() ==> #[trigger] adj[a][j] != #[trigger] adj[a][k]
}

/// The shape that every generated graph has, whatever the random draws.
pub open spec fn generated_shape(adj: Seq<Seq<i32>>) -> bool {
    &&& valid_graph(adj)
    &&& spans_from_first(adj)
    &&& no_self_loops(adj)
    &&& no_parallel_edges(adj)
}

/// Number of edges of the graph.
pub open spec fn edge_count(adj: Seq<Seq<i32>>) -> nat
    decreases adj.len(),
{
    if adj.len() == 0 {
        0
    } else {
        edge_count(adj.drop_last()) + adj.last().len()
    }
}

/// Replacing one adjacency list changes the edge count by the difference
/// of the lengths.
proof fn lemma_edge_count_update(adj: Seq<Seq<i32>>, a: int, row: Seq<i32>)
    requires
        0 <= a < adj.len(),
    ensures
        edge_count(adj.update(a, row)) == edge_count(adj) - adj[a].len() + row.len(),
    decreases adj.len(),
{
    let n = adj.len() - 1;
    if a < n {
        lemma_edge_count_update(adj.drop_last(), a, row);
        assert(adj.update(a, row).drop_last() =~= adj.drop_last().update(a, row));
    } else {
        assert(adj.update(a, row).drop_last() =~= adj.drop_last());
    }
}

/// Adding an absent edge between two distinct nodes keeps the shape and
/// every edge, and adds the new one.
proof fn lemma_add_edge(adj: Seq<Seq<i32>>, from: int, to: i32)
    requires
        0 <= from < adj.len(),
        0 <= to < adj.len(),
        from != to,
        !adj[from].contains(to),
        valid_graph(adj),
        no_self_loops(adj),
        no_parallel_edges(adj),
    ensures
        ({
            let adj2 = adj.update(from, adj[from].push(to));
            &&& adj2.len() == adj.len()
            &&& valid_graph(adj2)
            &&& no_self_loops(adj2)
            &&& no_parallel_edges(adj2)
            &&& has_edge(adj2, from, to as int)
            &&& forall|a: int, b: int| #[trigger] has_edge(adj, a, b) ==> has_edge(adj2, a, b)
            &&& (spans_from_first(adj) ==> spans_from_first(adj2))
        }),
{
    let adj2 = adj.update(from, adj[from].push(to));
    assert forall|a: int, j: int| 0 <= a < adj2.len() && 0 <= j < adj2[a].len() implies 0 <= #[trigger] adj2[a][j] < adj2.len() && adj2[a][j] != a by {
        if a == from && j == adj[from].len() {
        } else {
            assert(adj2[a][j] == adj[a][j]);
        }
    }
    assert forall|a: int, j: int, k: int|
        0 <= a < adj2.len() && 0 <= j < k < adj2[a].len() implies #[trigger] adj2[a][j] != #[trigger] adj2[a][k] by {
        if a == from && k == adj[from].len() {
            assert(adj2[a][j] == adj[from][j]);
            if adj[from][j] == to {
                assert(adj[from].contains(to));
            }
        } else {
            assert(adj2[a][j] == adj[a][j]);
            assert(adj2[a][k] == adj[a][k]);
        }
    }
    assert(adj2[from][adj[from].len() as int] == to);
    assert forall|a: int, b: int| #[trigger] has_edge(adj, a, b) implies has_edge(adj2, a, b) by {
        let j = choose|j: int| 0 <= j < adj[a].len() && adj[a][j] == b;
        assert(adj2[a][j] == adj[a][j]);
    }
    if spans_from_first(adj) {
        assert forall|i: int| 1 <= i < adj2.len() implies #[trigger] has_parent_before(adj2, i) by {
            assert(has_parent_before(adj, i));
            let p = choose|p: int| 0 <= p < i && #[trigger] has_edge(adj, p, i);
            assert(has_edge(adj2, p, i));
        }
    }
}

/// Whether `list` holds `x`.
fn list_contains(list: &Vec<i32>, x: i32) -> (found: bool)
    ensures
        found == list@.contains(x),
{
    let mut k: usize = 0;
    while k < list.len()
        invariant
            k <= list.len(),
            forall|m: int| 0 <= m < k ==> list@[m] != x,
        decreases list.len() - k,
    {
        if list[k] == x {
            return true;
        }
        k = k + 1;
    }
    false
}

/// Adds the edge `from -> to` unless it is there already.
fn add_edge_if_absent(graph: &mut Graph, from: usize, to: i32)
    requires
        from < old(graph).len(),
        0 <= to < old(graph).len(),
        from != to,
        valid_graph(adjacency(old(graph))),
        no_self_loops(adjacency(old(graph))),
        no_parallel_edges(adjacency(old(graph))),
    ensures
        final(graph).len() == old(graph).len(),
        valid_graph(adjacency(final(graph))),
        no_self_loops(adjacency(final(graph))),
        no_parallel_edges(adjacency(final(graph))),
        has_edge(adjacency(final(graph)), from as int, to as int),
        forall|a: int, b: int| #[trigger] has_edge(adjacency(old(graph)), a, b) ==> has_edge(adjacency(final(graph)), a, b),
        spans_from_first(adjacency(old(graph))) ==> spans_from_first(adjacency(final(graph))),
        edge_count(adjacency(final(graph))) == edge_count(adjacency(old(graph))) + if adjacency(
            old(graph),
        )[from as int].contains(to) {
            0int
        } else {
            1int
        },
        adjacency(final(graph)) == (if adjacency(old(graph))[from as int].contains(to) {
            adjacency(old(graph))
        } else {
            adjacency(old(graph)).update(from as int, adjacency(old(graph))[from as int].push(to))
        }),
{
    let ghost adj = adjacency(graph);
    if list_contains(&graph[from], to) {
        proof {
            let jj = choose|jj: int| 0 <= jj < adj[from as int].len() && adj[from as int][jj] == to;
            assert(has_edge(adj, from as int, to as int));
        }
        return;
    }
    graph[from].push(to);
    proof {
        lemma_add_edge(adj, from as int, to);
        assert(adjacency(graph) =~= adj.update(from as int, adj[from as int].push(to)));
        lemma_edge_count_update(adj, from as int, adj[from as int].push(to));
    }
}

/// `adj` with the edge `from -> to` added, unless the two are the same
/// node or the edge is there already.
pub open spec fn with_edge(adj: Seq<Seq<i32>>, from: int, to: int) -> Seq<Seq<i32>> {
    if from == to || adj[from].contains(to as i32) {
        adj
    } else {
        adj.update(from, adj[from].push(to as i32))
    }
}

/// `n` nodes without edges.
pub open spec fn edgeless(n: nat) -> Seq<Seq<i32>> {
    Seq::new(n, |k: int| Seq::<i32>::empty())
}

/// The tree part of a generated graph: node `k + 1` is appended to the list
/// of its parent `parents[k]`, for each `k` in order.
pub open spec fn tree_part(n: nat, parents: Seq<usize>) -> Seq<Seq<i32>>
    decreases parents.len(),
{
    if parents.len() == 0 {
        edgeless(n)
    } else {
        let g = tree_part(n, parents.drop_last());
        let p = parents.last() as int;
        g.update(p, g[p].push(parents.len() as i32))
    }
}

/// `adj` with the extra edges added in order, each one only when it joins
/// two distinct nodes and is not there yet.
pub open spec fn extras_part(adj: Seq<Seq<i32>>, extra: Seq<(usize, usize)>) -> Seq<Seq<i32>>
    decreases extra.len(),
{
    if extra.len() == 0 {
        adj
    } else {
        with_edge(extras_part(adj, extra.drop_last()), extra.last().0 as int, extra.last().1 as int)
    }
}

/// `adj` with the cycles `0 -> 1 -> 2 -> 0` (when there are 3 nodes) and
/// `5 -> 6 -> 7 -> 5` (when there are 8) closed.
pub open spec fn cycles_part(adj: Seq<Seq<i32>>, n: nat) -> Seq<Seq<i32>> {
    let first = if n >= 3 {
        with_edge(with_edge(with_edge(adj, 0, 1), 1, 2), 2, 0)
    } else {
        adj
    };
    if n >= 8 {
        with_edge(with_edge(with_edge(first, 5, 6), 6, 7), 7, 5)
    } else {
        first
    }
}

/// The graph that `build_graph` builds from the tree parents and the extra
/// edges.
pub open spec fn built_graph(n: nat, parents: Seq<usize>, extra: Seq<(usize, usize)>) -> Seq<Seq<i32>> {
    cycles_part(extras_part(tree_part(n, parents), extra), n)
}

/// Adds `from -> to` unless the edge is there already, and says so in terms
/// of `with_edge`.
fn add_edge_step(graph: &mut Graph, from: usize, to: usize)
    requires
        from < old(graph).len(),
        to < old(graph).len(),
        old(graph).len() <= 0x8000_0000,
        from != to,
        valid_graph(adjacency(old(graph))),
        no_self_loops(adjacency(old(graph))),
        no_parallel_edges(adjacency(old(graph))),
    ensures
        final(graph).len() == old(graph).len(),
        adjacency(final(graph)) == with_edge(adjacency(old(graph)), from as int, to as int),
        valid_graph(adjacency(final(graph))),
        no_self_loops(adjacency(final(graph))),
        no_parallel_edges(adjacency(final(graph))),
        has_edge(adjacency(final(graph)), from as int, to as int),
        forall|a: int, b: int| #[trigger] has_edge(adjacency(old(graph)), a, b) ==> has_edge(adjacency(final(graph)), a, b),
        spans_from_first(adjacency(old(graph))) ==> spans_from_first(adjacency(final(graph))),
        edge_count(adjacency(old(graph))) <= edge_count(adjacency(final(graph))) <= edge_count(adjacency(old(graph))) + 1,
        !adjacency(old(graph))[from as int].contains(to as i32) ==> edge_count(adjacency(final(graph)))
            == edge_count(adjacency(old(graph))) + 1,
        forall|a: int, b: int|
            #[trigger] has_edge(adjacency(final(graph)), a, b) ==> has_edge(adjacency(old(graph)), a, b) || (a
                == from && b == to),
{
    let ghost adj = adjacency(graph);
    add_edge_if_absent(graph, from, to as i32);
    proof {
        let adj2 = adjacency(graph);
        assert forall|a: int, b: int| #[trigger] has_edge(adj2, a, b) implies has_edge(adj, a, b) || (a == from
            && b == to) by {
            let j = choose|j: int| 0 <= j < adj2[a].len() && adj2[a][j] == b;
            if adj2 != adj {
                if !(a == from && j == adj[a].len()) {
                    assert(adj2[a][j] == adj[a][j]);
                }
            }
        }
    }
}

/// `a -> b` is a tree edge: `b` hangs below its parent `a`.
pub open spec fn is_tree_edge(parents: Seq<usize>, a: int, b: int) -> bool {
    exists|k: int| 0 <= k < parents.len() && parents[k] == a && b == k + 1
}

/// `a -> b` is one of the extra edges drawn.
pub open spec fn is_extra_edge(extra: Seq<(usize, usize)>, a: int, b: int) -> bool {
    exists|k: int| 0 <= k < extra.len() && extra[k].0 == a && extra[k].1 == b
}

/// `a -> b` is an edge of the cycle `0 -> 1 -> 2 -> 0` (with 3 nodes or
/// more) or of the cycle `5 -> 6 -> 7 -> 5` (with 8 nodes or more).
pub open spec fn is_cycle_edge(n: nat, a: int, b: int) -> bool {
    ||| n >= 3 && ((a == 0 && b == 1) || (a == 1 && b == 2) || (a == 2 && b == 0))
    ||| n >= 8 && ((a == 5 && b == 6) || (a == 6 && b == 7) || (a == 7 && b == 5))
}

/// Builds the graph on `num_nodes` nodes from the draws: node `k + 1` hangs
/// below node `parents[k]`, then each extra edge is added when it joins two
/// distinct nodes and is new, then the cycles `0 -> 1 -> 2 -> 0` and
/// `5 -> 6 -> 7 -> 5` are closed where the nodes exist.
#[verifier::spinoff_prover]
#[verifier::rlimit(60)]
pub fn build_graph(num_nodes: usize, parents: &Vec<usize>, extra: &Vec<(usize, usize)>) -> (graph: Graph)
    requires
        1 <= num_nodes <= 0x8000_0000,
        parents.len() == num_nodes - 1,
        forall|i: int| 0 <= i < parents.len() ==> #[trigger] parents[i] <= i,
        forall|k: int| 0 <= k < extra.len() ==> (#[trigger] extra[k]).0 < num_nodes && extra[k].1 < num_nodes,
    ensures
        adjacency(&graph) == built_graph(num_nodes as nat, parents@, extra@),
        forall|k: int| 0 <= k < parents.len() ==> has_edge(adjacency(&graph), #[trigger] parents[k] as int, k + 1),
        forall|k: int|
            0 <= k < extra.len() && (#[trigger] extra[k]).0 != extra[k].1 ==> has_edge(
                adjacency(&graph),
                extra[k].0 as int,
                extra[k].1 as int,
            ),
        forall|a: int, b: int|
            #[trigger] has_edge(adjacency(&graph), a, b) ==> is_tree_edge(parents@, a, b) || is_extra_edge(
                extra@,
                a,
                b,
            ) || is_cycle_edge(num_nodes as nat, a, b),
        graph.len() == num_nodes,
        generated_shape(adjacency(&graph)),
        num_nodes - 1 <= edge_count(adjacency(&graph)) <= num_nodes - 1 + extra.len() + 6,
        num_nodes >= 3 ==> {
            let adj = adjacency(&graph);
            &&& has_edge(adj, 0, 1)
            &&& has_edge(adj, 1, 2)
            &&& has_edge(adj, 2, 0)
        },
        num_nodes >= 8 ==> {
            let adj = adjacency(&graph);
            &&& has_edge(adj, 5, 6)
            &&& has_edge(adj, 6, 7)
            &&& has_edge(adj, 7, 5)
        },
{
    let ghost n = num_nodes as nat;
    let mut graph: Graph = Vec::new();
    let mut i: usize = 0;
    while i < num_nodes
        invariant
            i <= num_nodes,
            graph.len() == i,
            adjacency(&graph) == edgeless(i as nat),
            edge_count(adjacency(&graph)) == 0,
        decreases num_nodes - i,
    {
        let ghost adj0 = adjacency(&graph);
        graph.push(Vec::new());
        assert(adjacency(&graph).drop_last() =~= adj0);
        assert forall|k: int| 0 <= k < i + 1 implies #[trigger] adjacency(&graph)[k] == edgeless((i + 1) as nat)[k] by {
            if k < i {
                assert(adjacency(&graph)[k] == adj0[k]);
            } else {
                assert(adjacency(&graph)[k] =~= Seq::<i32>::empty());
            }
        }
        assert(adjacency(&graph) =~= edgeless((i + 1) as nat));
        i = i + 1;
    }
    assert(parents@.take(0) =~= Seq::<usize>::empty());

    // the tree: node i hangs below parents[i - 1]
    let mut i: usize = 1;
    while i < num_nodes
        invariant
            1 <= i <= num_nodes,
            num_nodes <= 0x8000_0000,
            n == num_nodes,
            parents.len() == num_nodes - 1,
            forall|k: int| 0 <= k < parents.len() ==> #[trigger] parents[k] <= k,
            graph.len() == num_nodes,
            adjacency(&graph) == tree_part(n, parents@.take(i - 1)),
            valid_graph(adjacency(&graph)),
            no_self_loops(adjacency(&graph)),
            no_parallel_edges(adjacency(&graph)),
            forall|a: int, j: int|
                0 <= a < num_nodes && 0 <= j < adjacency(&graph)[a].len() ==> #[trigger] adjacency(&graph)[a][j] < i,
            forall|k: int| 1 <= k < i ==> #[trigger] has_parent_before(adjacency(&graph), k),
            edge_count(adjacency(&graph)) == i - 1,
            forall|k: int| 0 <= k < i - 1 ==> has_edge(adjacency(&graph), #[trigger] parents[k] as int, k + 1),
            forall|a: int, b: int|
                #[trigger] has_edge(adjacency(&graph), a, b) ==> is_tree_edge(parents@.take(i - 1), a, b),
        decreases num_nodes - i,
    {
        let parent = parents[i - 1];
        let ghost adj = adjacency(&graph);
        proof {
            if adj[parent as int].contains(i as i32) {
                let j = choose|j: int| 0 <= j < adj[parent as int].len() && adj[parent as int][j] == i as i32;
                assert(adj[parent as int][j] < i);
            }
            assert(parents@.take(i as int).drop_last() =~= parents@.take(i - 1));
        }
        add_edge_step(&mut graph, parent, i);
        proof {
            let adj2 = adjacency(&graph);
            assert(adj2 == tree_part(n, parents@.take(i as int)));
            assert forall|a: int, j: int|
                0 <= a < num_nodes && 0 <= j < adj2[a].len() implies #[trigger] adj2[a][j] < i + 1 by {
                if a == parent && j == adj[a].len() {
                } else {
                    assert(adj2[a][j] == adj[a][j]);
                }
            }
            assert forall|k: int| 0 <= k < i implies has_edge(adj2, #[trigger] parents[k] as int, k + 1) by {
                if k < i - 1 {
                    assert(has_edge(adj, parents[k] as int, k + 1));
                }
            }
            assert forall|a: int, b: int| #[trigger] has_edge(adj2, a, b) implies is_tree_edge(
                parents@.take(i as int),
                a,
                b,
            ) by {
                if has_edge(adj, a, b) {
                    let k = choose|k: int|
                        0 <= k < parents@.take(i - 1).len() && #[trigger] parents@.take(i - 1)[k] == a && b == k + 1;
                    assert(parents@.take(i as int)[k] == parents@.take(i - 1)[k]);
                } else {
                    assert(parents@.take(i as int)[i - 1] == parent);
                }
            }
            assert forall|k: int| 1 <= k < i + 1 implies #[trigger] has_parent_before(adj2, k) by {
                if k == i {
                    assert(has_edge(adj2, parent as int, k));
                } else {
                    assert(has_parent_before(adj, k));
                    let p = choose|p: int| 0 <= p < k && #[trigger] has_edge(adj, p, k);
                    assert(has_edge(adj2, p, k));
                }
            }
        }
        i = i + 1;
    }
    assert(parents@.take(num_nodes - 1) =~= parents@);
    assert(spans_from_first(adjacency(&graph)));
    assert(forall|a: int, b: int| #[trigger] has_edge(adjacency(&graph), a, b) ==> is_tree_edge(parents@, a, b));
    assert(extra@.take(0) =~= Seq::<(usize, usize)>::empty());
    let ghost tree = adjacency(&graph);

    // the extra edges
    let mut e: usize = 0;
    while e < extra.len()
        invariant
            graph.len() == num_nodes,
            1 <= num_nodes <= 0x8000_0000,
            forall|k: int| 0 <= k < extra.len() ==> (#[trigger] extra[k]).0 < num_nodes && extra[k].1 < num_nodes,
            adjacency(&graph) == extras_part(tree, extra@.take(e as int)),
            generated_shape(adjacency(&graph)),
            e <= extra.len(),
            num_nodes - 1 <= edge_count(adjacency(&graph)) <= num_nodes - 1 + e,
            parents.len() == num_nodes - 1,
            forall|k: int| 0 <= k < parents.len() ==> has_edge(adjacency(&graph), #[trigger] parents[k] as int, k + 1),
            forall|k: int|
                0 <= k < e && (#[trigger] extra[k]).0 != extra[k].1 ==> has_edge(
                    adjacency(&graph),
                    extra[k].0 as int,
                    extra[k].1 as int,
                ),
            forall|a: int, b: int|
                #[trigger] has_edge(adjacency(&graph), a, b) ==> is_tree_edge(parents@, a, b) || is_extra_edge(
                    extra@.take(e as int),
                    a,
                    b,
                ),
        decreases extra.len() - e,
    {
        let (from, to) = extra[e];
        let ghost adj = adjacency(&graph);
        assert(extra@.take(e + 1).drop_last() =~= extra@.take(e as int));
        if from != to {
            add_edge_step(&mut graph, from, to);
        }
        proof {
            let adj2 = adjacency(&graph);
            assert forall|k: int| 0 <= k < parents.len() implies has_edge(adj2, #[trigger] parents[k] as int, k + 1) by {
                assert(has_edge(adj, parents[k] as int, k + 1));
            }
            assert forall|k: int|
                0 <= k < e + 1 && (#[trigger] extra[k]).0 != extra[k].1 implies has_edge(
                adj2,
                extra[k].0 as int,
                extra[k].1 as int,
            ) by {
                if k < e {
                    assert(has_edge(adj, extra[k].0 as int, extra[k].1 as int));
                }
            }
            assert forall|a: int, b: int| #[trigger] has_edge(adj2, a, b) implies is_tree_edge(parents@, a, b)
                || is_extra_edge(extra@.take(e + 1), a, b) by {
                if has_edge(adj, a, b) {
                    if !is_tree_edge(parents@, a, b) {
                        let k = choose|k: int|
                            0 <= k < extra@.take(e as int).len() && (#[trigger] extra@.take(e as int)[k]).0 == a
                                && extra@.take(e as int)[k].1 == b;
                        assert(extra@.take(e + 1)[k] == extra@.take(e as int)[k]);
                    }
                } else {
                    assert(extra@.take(e + 1)[e as int] == extra[e as int]);
                }
            }
        }
        e = e + 1;
    }
    assert(extra@.take(extra.len() as int) =~= extra@);
    let ghost before_cycles = adjacency(&graph);

    // the cycles
    if num_nodes >= 3 {
        add_edge_step(&mut graph, 0, 1);
        add_edge_step(&mut graph, 1, 2);
        add_edge_step(&mut graph, 2, 0);
    }
    if num_nodes >= 8 {
        add_edge_step(&mut graph, 5, 6);
        add_edge_step(&mut graph, 6, 7);
        add_edge_step(&mut graph, 7, 5);
    }
    proof {
        let adj = adjacency(&graph);
        assert forall|k: int| 0 <= k < parents.len() implies has_edge(adj, #[trigger] parents[k] as int, k + 1) by {
            assert(has_edge(before_cycles, parents[k] as int, k + 1));
        }
        assert forall|k: int|
            0 <= k < extra.len() && (#[trigger] extra[k]).0 != extra[k].1 implies has_edge(
            adj,
            extra[k].0 as int,
            extra[k].1 as int,
        ) by {
            assert(has_edge(before_cycles, extra[k].0 as int, extra[k].1 as int));
        }
    }
    graph
}

/// Builds a random graph on `num_nodes` nodes: a random tree rooted at node
/// 0 so that every node can be reached from it, three to eight random extra
/// edges, and the cycles `0 -> 1 -> 2 -> 0` and `5 -> 6 -> 7 -> 5` where
/// the nodes exist. The draws are handed to `build_graph`.
pub fn generate_graph(num_nodes: usize) -> (graph: Graph)
    requires
        1 <= num_nodes <= 0x8000_0000,
    ensures
        exists|parents: Seq<usize>, extra: Seq<(usize, usize)>|
            {
                &&& parents.len() == num_nodes - 1
                &&& forall|i: int| 0 <= i < parents.len() ==> #[trigger] parents[i] <= i
                &&& 3 <= extra.len() <= 8
                &&& forall|k: int| 0 <= k < extra.len() ==> (#[trigger] extra[k]).0 < num_nodes && extra[k].1 < num_nodes
                &&& adjacency(&graph) == built_graph(num_nodes as nat, parents, extra)
            },
        graph.len() == num_nodes,
        generated_shape(adjacency(&graph)),
        num_nodes - 1 <= edge_count(adjacency(&graph)) <= num_nodes + 13,
        num_nodes >= 3 ==> {
            let adj = adjacency(&graph);
            &&& has_edge(adj, 0, 1)
            &&& has_edge(adj, 1, 2)
            &&& has_edge(adj, 2, 0)
        },
        num_nodes >= 8 ==> {
            let adj = adjacency(&graph);
            &&& has_edge(adj, 5, 6)
            &&& has_edge(adj, 6, 7)
            &&& has_edge(adj, 7, 5)
        },
{
    let mut rng = rand::thread_rng();

    // the parent of each node but the first: a node numbered before it
    let mut parents: Vec<usize> = Vec::new();
    let mut i: usize = 1;
    while i < num_nodes
        invariant
            1 <= i <= num_nodes,
            parents.len() == i - 1,
            forall|k: int| 0 <= k < parents.len() ==> #[trigger] parents[k] <= k,
        decreases num_nodes - i,
    {
        parents.push(random_in_range(&mut rng, 0, i));
        i = i + 1;
    }

    // the extra edges
    let num_extra_edges = random_in_range(&mut rng, 3, 9);
    let mut extra: Vec<(usize, usize)> = Vec::new();
    let mut e: usize = 0;
    while e < num_extra_edges
        invariant
            1 <= num_nodes,
            e <= num_extra_edges,
            extra.len() == e,
            forall|k: int| 0 <= k < extra.len() ==> (#[trigger] extra[k]).0 < num_nodes && extra[k].1 < num_nodes,
        decreases num_extra_edges - e,
    {
        let from = random_in_range(&mut rng, 0, num_nodes);
        let to = random_in_range(&mut rng, 0, num_nodes);
        extra.push((from, to));
        e = e + 1;
    }
    let graph = build_graph(num_nodes, &parents, &extra);
    assert(parents@.len() == num_nodes - 1 && 3 <= extra@.len() <= 8
        && adjacency(&graph) == built_graph(num_nodes as nat, parents@, extra@));
    graph
}

/// Number of unmarked entries.
pub open spec fn unmarked(marks: Seq<bool>) -> nat
    decreases marks.len(),
{
    if marks.len() == 0 {
        0
    } else {
        unmarked(marks.drop_last()) + if marks.last() {
            0nat
        } else {
            1nat
        }
    }
}

/// Marking more entries never adds unmarked ones, and marking a new one
/// removes one.
proof fn lemma_unmarked_shrinks(a: Seq<bool>, b: Seq<bool>, i: int)
    requires
        a.len() == b.len(),
        forall|k: int| 0 <= k < a.len() && #[trigger] a[k] ==> b[k],
    ensures
        unmarked(b) <= unmarked(a),
        0 <= i < a.len() && !a[i] && b[i] ==> unmarked(b) < unmarked(a),
    decreases a.len(),
{
    if a.len() > 0 {
        let n = a.len() - 1;
        assert forall|k: int| 0 <= k < n && #[trigger] a.drop_last()[k] implies b.drop_last()[k] by {
            assert(a[k]);
        }
        lemma_unmarked_shrinks(a.drop_last(), b.drop_last(), i);
        if a[n] {
            assert(b[n]);
        }
    }
}

/// A walk of more than one node without its last node is a walk from the
/// same node, and avoids whatever the whole walk avoids.
proof fn lemma_walk_drop_last(adj: Seq<Seq<i32>>, path: Seq<int>, marks: Seq<bool>)
    requires
        is_walk(adj, path),
        path.len() > 1,
    ensures
        is_walk(adj, path.drop_last()),
        path.drop_last()[0] == path[0],
        path.drop_last().last() == path[path.len() - 2],
        avoids(path, marks) ==> avoids(path.drop_last(), marks),
{
    let front = path.drop_last();
    assert forall|k: int| 0 <= k < front.len() implies 0 <= #[trigger] front[k] < adj.len() by {
        assert(front[k] == path[k]);
    }
    assert forall|k: int| 0 <= k < front.len() - 1 implies #[trigger] has_edge(adj, front[k], front[k + 1]) by {
        assert(front[k] == path[k]);
        assert(front[k + 1] == path[k + 1]);
    }
    if avoids(path, marks) {
        assert forall|k: int| 0 <= k < front.len() implies !marks[#[trigger] front[k]] by {
            assert(front[k] == path[k]);
        }
    }
}

/// A walk can be extended at its end by an edge.
proof fn lemma_walk_extend(adj: Seq<Seq<i32>>, path: Seq<int>, w: int)
    requires
        is_walk(adj, path),
        has_edge(adj, path.last(), w),
        0 <= w < adj.len(),
    ensures
        is_walk(adj, path.push(w)),
        path.push(w)[0] == path[0],
        path.push(w).last() == w,
{
    let q = path.push(w);
    assert forall|k: int| 0 <= k < q.len() - 1 implies #[trigger] has_edge(adj, q[k], q[k + 1]) by {
        if k < path.len() - 1 {
            assert(has_edge(adj, path[k], path[k + 1]));
        }
    }
}

/// Every edge out of a node that a traversal from `start` can reach
/// (through nodes not marked in `marks`) leads to a node of the graph that
/// `marks` has an entry for: the traversal never leaves the graph or the
/// marks.
pub open spec fn stays_inside(adj: Seq<Seq<i32>>, marks: Seq<bool>, start: int) -> bool {
    forall|v: int, j: int|
        #![trigger reachable_avoiding(adj, marks, start, v), adj[v][j]]
        reachable_avoiding(adj, marks, start, v) && 0 <= j < adj[v].len() ==> 0 <= adj[v][j] < adj.len()
            && adj[v][j] < marks.len()
}

/// In a graph whose every edge leads to a node of the graph, a traversal
/// with one mark per node stays inside, wherever it starts.
pub proof fn lemma_valid_graph_stays_inside(adj: Seq<Seq<i32>>, marks: Seq<bool>, start: int)
    requires
        valid_graph(adj),
        marks.len() == adj.len(),
    ensures
        stays_inside(adj, marks, start),
{
    assert forall|v: int, j: int|
        #![trigger reachable_avoiding(adj, marks, start, v), adj[v][j]]
        reachable_avoiding(adj, marks, start, v) && 0 <= j < adj[v].len() implies 0 <= adj[v][j] < adj.len()
            && adj[v][j] < marks.len() by {
        let p = choose|p: Seq<int>|
            #![trigger is_walk(adj, p), avoids(p, marks)]
            is_walk(adj, p) && p[0] == start && p.last() == v && avoids(p, marks);
        assert(0 <= p[p.len() - 1] < adj.len());
    }
}

/// A node that a traversal which stays inside can reach has an entry in
/// the marks.
proof fn lemma_reachable_in_range(adj: Seq<Seq<i32>>, marks: Seq<bool>, start: int, v: int)
    requires
        stays_inside(adj, marks, start),
        0 <= start < marks.len(),
        reachable_avoiding(adj, marks, start, v),
    ensures
        0 <= v < marks.len(),
        0 <= v < adj.len(),
{
    let p = choose|p: Seq<int>|
        #![trigger is_walk(adj, p), avoids(p, marks)]
        is_walk(adj, p) && p[0] == start && p.last() == v && avoids(p, marks);
    if p.len() > 1 {
        let q = p.drop_last();
        let u = p[p.len() - 2];
        lemma_walk_drop_last(adj, p, marks);
        assert(is_walk(adj, q) && avoids(q, marks) && q[0] == start && q.last() == u);
        assert(reachable_avoiding(adj, marks, start, u));
        let i = p.len() - 2;
        assert(has_edge(adj, p[i], p[i + 1]));
        let j = choose|j: int| 0 <= j < adj[u].len() && adj[u][j] == v;
        assert(0 <= adj[u][j] < adj.len() && adj[u][j] < marks.len());
    }
}

/// A walk that avoids the marks `big` and starts at a node reachable from
/// `start` avoiding the fewer marks `small` stays reachable from `start`
/// avoiding `small` all along.
proof fn lemma_walk_inside(
    adj: Seq<Seq<i32>>,
    small: Seq<bool>,
    big: Seq<bool>,
    start: int,
    path: Seq<int>,
)
    requires
        stays_inside(adj, small, start),
        0 <= start < small.len(),
        small.len() == big.len(),
        forall|v: int| 0 <= v < small.len() && #[trigger] small[v] ==> big[v],
        is_walk(adj, path),
        avoids(path, big),
        reachable_avoiding(adj, small, start, path[0]),
    ensures
        forall|k: int| 0 <= k < path.len() ==> reachable_avoiding(adj, small, start, #[trigger] path[k]),
    decreases path.len(),
{
    if path.len() > 1 {
        let front = path.drop_last();
        lemma_walk_drop_last(adj, path, big);
        lemma_walk_inside(adj, small, big, start, front);
        let i = path.len() - 2;
        let u = path[i];
        let w = path[i + 1];
        assert(front[i] == u);
        assert(reachable_avoiding(adj, small, start, u));
        assert(has_edge(adj, path[i], path[i + 1]));
        let j = choose|j: int| 0 <= j < adj[u].len() && adj[u][j] == w;
        assert(0 <= adj[u][j] < adj.len() && adj[u][j] < small.len());
        assert(!big[path[i + 1]]);
        assert(!small[w]);
        let q = choose|q: Seq<int>|
            #![trigger is_walk(adj, q), avoids(q, small)]
            is_walk(adj, q) && q[0] == start && q.last() == u && avoids(q, small);
        lemma_walk_extend(adj, q, w);
        let r = q.push(w);
        assert forall|m: int| 0 <= m < r.len() implies !small[#[trigger] r[m]] by {
            if m < q.len() {
                assert(r[m] == q[m]);
            }
        }
        assert(is_walk(adj, r) && avoids(r, small));
        assert forall|k: int| 0 <= k < path.len() implies reachable_avoiding(adj, small, start, #[trigger] path[k]) by {
            if k < path.len() - 1 {
                assert(front[k] == path[k]);
            }
        }
    }
}

/// If the newly marked nodes are closed under edges, every node reachable
/// from a newly marked one avoiding the old marks is marked.
proof fn lemma_closed_covers_walk(
    adj: Seq<Seq<i32>>,
    before: Seq<bool>,
    after: Seq<bool>,
    path: Seq<int>,
)
    requires
        after.len() == before.len(),
        is_walk(adj, path),
        forall|k: int| 0 <= k < path.len() ==> 0 <= #[trigger] path[k] < before.len(),
        avoids(path, before),
        after[path[0]],
        forall|v: int, w: int|
            0 <= v < adj.len() && v < before.len() && after[v] && !before[v] && #[trigger] has_edge(adj, v, w)
                ==> #[trigger] after[w],
    ensures
        after[path.last()],
    decreases path.len(),
{
    if path.len() > 1 {
        let front = path.drop_last();
        lemma_walk_drop_last(adj, path, before);
        assert forall|k: int| 0 <= k < front.len() implies 0 <= #[trigger] front[k] < before.len() by {
            assert(front[k] == path[k]);
        }
        lemma_closed_covers_walk(adj, before, after, front);
        let n = path.len() - 2;
        assert(has_edge(adj, path[n], path[n + 1]));
        assert(!before[path[n]]);
        assert(0 <= path[n] < before.len());
    }
}

/// Depth-first traversal from `node`, marking every node it reaches in
/// `vis`. `expand` is a hook that the traversal calls with a node just
/// before following that node's edges; the contract says nothing of these
/// calls.
pub fn seq_traverse<F: Fn(i32)>(node: i32, vis: &mut Vec<bool>, graph: &Graph, expand: &F)
    requires
        0 <= node < graph.len(),
        node < old(vis).len(),
        stays_inside(adjacency(graph), old(vis)@, node as int),
        forall|n: i32| expand.requires((n,)),
    ensures
        traversal_result(adjacency(graph), old(vis)@, node as int, final(vis)@),
    decreases unmarked(old(vis)@),
{
    let ghost adj = adjacency(graph);
    let ghost before = vis@;
    let ghost n = graph.len() as int;
    let ghost m = vis.len() as int;
    let ghost nd = node as int;
    if vis[node as usize] {
        assert forall|v: int| 0 <= v < m implies (#[trigger] vis@[v] <==> (before[v]
            || reachable_avoiding(adj, before, nd, v))) by {
            if reachable_avoiding(adj, before, nd, v) {
                let p = choose|p: Seq<int>|
                    #![trigger is_walk(adj, p), avoids(p, before)]
                    is_walk(adj, p) && p[0] == nd && p.last() == v && avoids(p, before);
                assert(!before[p[0]]);
            }
        }
        return;
    }
    vis.set(node as usize, true);
    proof {
        lemma_unmarked_shrinks(before, vis@, nd);
        let p = seq![nd];
        assert(is_walk(adj, p));
        assert(avoids(p, before));
        assert(reachable_avoiding(adj, before, nd, nd));
    }
    expand(node);
    let children = &graph[node as usize];
    assert(children@ == adj[nd]);
    let mut j: usize = 0;
    while j < children.len()
        invariant
            adj == adjacency(graph),
            children@ == adj[nd],
            n == graph.len(),
            m == vis@.len(),
            0 <= nd < n,
            nd < m,
            nd == node,
            before == old(vis)@,
            before.len() == m,
            stays_inside(adj, before, nd),
            reachable_avoiding(adj, before, nd, nd),
            !before[nd],
            j <= children.len(),
            forall|k: i32| expand.requires((k,)),
            unmarked(vis@) < unmarked(before),
            vis@[nd],
            forall|v: int| 0 <= v < m && #[trigger] before[v] ==> vis@[v],
            forall|v: int|
                0 <= v < m && #[trigger] vis@[v] && !before[v] ==> reachable_avoiding(
                    adj,
                    before,
                    nd,
                    v,
                ),
            forall|v: int, w: int|
                0 <= v < m && v != nd && vis@[v] && !before[v] && #[trigger] has_edge(adj, v, w)
                    ==> #[trigger] vis@[w],
            forall|k: int| 0 <= k < j ==> #[trigger] vis@[adj[nd][k] as int],
        decreases children.len() - j,
    {
        let child = children[j];
        let ghost cur = vis@;
        let ghost c = child as int;
        assert(0 <= adj[nd][j as int] < n && adj[nd][j as int] < m);
        assert(0 <= c < n && c < m);
        proof {
            lemma_unmarked_shrinks(before, cur, nd);
            // the child's traversal stays inside: what it reaches, node reaches
            assert forall|v: int, jj: int|
                #![trigger reachable_avoiding(adj, cur, c, v), adj[v][jj]]
                reachable_avoiding(adj, cur, c, v) && 0 <= jj < adj[v].len() implies 0 <= adj[v][jj] < adj.len()
                    && adj[v][jj] < cur.len() by {
                let p = choose|p: Seq<int>|
                    #![trigger is_walk(adj, p), avoids(p, cur)]
                    is_walk(adj, p) && p[0] == c && p.last() == v && avoids(p, cur);
                assert(!cur[p[0]]);
                assert(!before[c]);
                let q = seq![nd, c];
                assert(has_edge(adj, nd, c)) by {
                    assert(adj[nd][j as int] == c);
                }
                assert(is_walk(adj, q) && avoids(q, before) && q[0] == nd && q.last() == c);
                lemma_walk_inside(adj, before, cur, nd, p);
                assert(reachable_avoiding(adj, before, nd, p[p.len() - 1]));
            }
        }
        seq_traverse(child, vis, graph, expand);
        let ghost after = vis@;
        proof {
            // marks only grow
            assert forall|v: int| 0 <= v < m && #[trigger] cur[v] implies after[v] by {
                assert(after[v] <==> (cur[v] || reachable_avoiding(adj, cur, c, v)));
            }
            lemma_unmarked_shrinks(cur, after, nd);
            // newly marked nodes are reachable from node
            assert forall|v: int|
                0 <= v < m && #[trigger] after[v] && !before[v] implies reachable_avoiding(
                adj,
                before,
                nd,
                v,
            ) by {
                if !cur[v] {
                    assert(after[v] <==> (cur[v] || reachable_avoiding(adj, cur, c, v)));
                    let p = choose|p: Seq<int>|
                        #![trigger is_walk(adj, p), avoids(p, cur)]
                        is_walk(adj, p) && p[0] == c && p.last() == v && avoids(p, cur);
                    assert(!cur[p[0]]);
                    let q = seq![nd, c];
                    assert(has_edge(adj, nd, c)) by {
                        assert(adj[nd][j as int] == c);
                    }
                    assert(is_walk(adj, q) && avoids(q, before) && q[0] == nd && q.last() == c);
                    lemma_walk_inside(adj, before, cur, nd, p);
                    assert(reachable_avoiding(adj, before, nd, p[p.len() - 1]));
                }
            }
            // newly marked nodes other than node have all their successors marked
            assert forall|v: int, w: int|
                0 <= v < m && v != nd && after[v] && !before[v] && #[trigger] has_edge(adj, v, w)
                    implies #[trigger] after[w] by {
                assert(reachable_avoiding(adj, before, nd, v));
                assert(0 <= w < n && w < m) by {
                    let jj = choose|jj: int| 0 <= jj < adj[v].len() && adj[v][jj] == w;
                    assert(0 <= adj[v][jj] < adj.len() && adj[v][jj] < before.len());
                }
                assert(after[w] <==> (cur[w] || reachable_avoiding(adj, cur, c, w)));
                if cur[v] {
                    assert(cur[w]);
                } else if !cur[w] {
                    assert(after[v] <==> (cur[v] || reachable_avoiding(adj, cur, c, v)));
                    let p = choose|p: Seq<int>|
                        #![trigger is_walk(adj, p), avoids(p, cur)]
                        is_walk(adj, p) && p[0] == c && p.last() == v && avoids(p, cur);
                    lemma_walk_extend(adj, p, w);
                    let q = p.push(w);
                    assert forall|k: int| 0 <= k < q.len() implies !cur[#[trigger] q[k]] by {
                        if k < p.len() {
                            assert(q[k] == p[k]);
                        }
                    }
                    assert(is_walk(adj, q) && avoids(q, cur));
                }
            }
            assert forall|k: int| 0 <= k < j + 1 implies #[trigger] after[adj[nd][k] as int] by {
                if k < j {
                    assert(cur[adj[nd][k] as int]);
                } else {
                    assert(after[c] <==> (cur[c] || reachable_avoiding(adj, cur, c, c)));
                    let p = seq![c];
                    if !cur[c] {
                        assert(is_walk(adj, p) && avoids(p, cur));
                    }
                }
            }
        }
        j = j + 1;
    }
    proof {
        let after = vis@;
        // node's successors are all marked now
        assert forall|v: int, w: int|
            0 <= v < adj.len() && v < m && after[v] && !before[v] && #[trigger] has_edge(adj, v, w)
                implies #[trigger] after[w] by {
            if v == nd {
                let jj = choose|jj: int| 0 <= jj < adj[v].len() && adj[v][jj] == w;
                assert(after[adj[nd][jj] as int]);
            }
        }
        assert forall|v: int| 0 <= v < m implies (#[trigger] after[v] <==> (before[v]
            || reachable_avoiding(adj, before, nd, v))) by {
            if reachable_avoiding(adj, before, nd, v) {
                let p = choose|p: Seq<int>|
                    #![trigger is_walk(adj, p), avoids(p, before)]
                    is_walk(adj, p) && p[0] == nd && p.last() == v && avoids(p, before);
                lemma_walk_inside(adj, before, before, nd, p);
                assert forall|k: int| 0 <= k < p.len() implies 0 <= #[trigger] p[k] < before.len() by {
                    lemma_reachable_in_range(adj, before, nd, p[k]);
                }
                lemma_closed_covers_walk(adj, before, after, p);
            }
        }
    }
}

/// No node marked.
pub open spec fn all_unmarked(marks: Seq<bool>) -> bool {
    forall|v: int| 0 <= v < marks.len() ==> !#[trigger] marks[v]
}

/// In a graph whose every node but the first has an edge from a node
/// numbered below it, every node can be reached from the first one.
pub proof fn lemma_spanning_reaches_all(adj: Seq<Seq<i32>>, marks: Seq<bool>, v: int)
    requires
        valid_graph(adj),
        spans_from_first(adj),
        marks.len() == adj.len(),
        all_unmarked(marks),
        0 <= v < adj.len(),
    ensures
        reachable_avoiding(adj, marks, 0, v),
    decreases v,
{
    if v == 0 {
        let p = seq![0int];
        assert(is_walk(adj, p) && avoids(p, marks));
    } else {
        assert(has_parent_before(adj, v));
        let parent = choose|parent: int| 0 <= parent < v && #[trigger] has_edge(adj, parent, v);
        lemma_spanning_reaches_all(adj, marks, parent);
        let p = choose|p: Seq<int>|
            #![trigger is_walk(adj, p), avoids(p, marks)]
            is_walk(adj, p) && p[0] == 0 && p.last() == parent && avoids(p, marks);
        lemma_walk_extend(adj, p, v);
        let q = p.push(v);
        assert forall|k: int| 0 <= k < q.len() implies !marks[#[trigger] q[k]] by {
            assert(0 <= q[k] < adj.len());
        }
        assert(is_walk(adj, q) && avoids(q, marks));
    }
}

/// A traversal from the first node of a graph with the generated shape,
/// started with nothing marked, marks every node.
pub proof fn lemma_generated_graph_fully_traversed(
    adj: Seq<Seq<i32>>,
    before: Seq<bool>,
    after: Seq<bool>,
)
    requires
        generated_shape(adj),
        adj.len() > 0,
        before.len() == adj.len(),
        all_unmarked(before),
        traversal_result(adj, before, 0, after),
    ensures
        forall|v: int| 0 <= v < adj.len() ==> #[trigger] after[v],
{
    assert forall|v: int| 0 <= v < adj.len() implies #[trigger] after[v] by {
        lemma_spanning_reaches_all(adj, before, v);
    }
}

/// Marks `node` as visited; tells whether it was unvisited before, that is
/// whether the caller is the one that goes on to expand it.
pub fn try_mark(vis: &mut Vec<bool>, node: i32) -> (newly: bool)
    requires
        0 <= node < old(vis).len(),
    ensures
        newly == !old(vis)@[node as int],
        final(vis)@ == old(vis)@.update(node as int, true),
{
    if vis[node as usize] {
        assert(vis@ =~= vis@.update(node as int, true));
        return false;
    }
    vis.set(node as usize, true);
    true
}

/// The successors of `node`, copied out of the graph.
pub fn children_of(node: i32, graph: &Graph) -> (children: Vec<i32>)
    requires
        0 <= node < graph.len(),
    ensures
        children@ == adjacency(graph)[node as int],
{
    let row = &graph[node as usize];
    let mut children: Vec<i32> = Vec::new();
    let mut k: usize = 0;
    while k < row.len()
        invariant
            k <= row.len(),
            children@ == row@.take(k as int),
        decreases row.len() - k,
    {
        children.push(row[k]);
        k = k + 1;
        assert(children@ =~= row@.take(k as int));
    }
    assert(row@.take(k as int) =~= row@);
    children
}

/// The successors of `c` as integers.
pub open spec fn successors(adj: Seq<Seq<i32>>, c: int) -> Seq<int> {
    adj[c].map_values(|x: i32| x as int)
}

/// What holds at every point of a traversal run as independent tasks, each
/// task checking and marking one node and, when it marked the node itself,
/// starting one task per successor. `before` are the marks when the
/// traversal started from `start`, `marks` the marks now and `tasks` the
/// nodes of the tasks still to run, in any order.
pub open spec fn task_traversal_invariant(
    adj: Seq<Seq<i32>>,
    before: Seq<bool>,
    start: int,
    marks: Seq<bool>,
    tasks: Seq<int>,
) -> bool {
    &&& valid_graph(adj)
    &&& before.len() == adj.len()
    &&& marks.len() == adj.len()
    &&& 0 <= start < adj.len()
    &&& forall|v: int| 0 <= v < adj.len() && #[trigger] before[v] ==> marks[v]
    &&& forall|v: int|
        0 <= v < adj.len() && #[trigger] marks[v] && !before[v] ==> reachable_avoiding(
            adj,
            before,
            start,
            v,
        )
    &&& forall|k: int|
        0 <= k < tasks.len() ==> 0 <= #[trigger] tasks[k] < adj.len() && (!before[tasks[k]]
            ==> reachable_avoiding(adj, before, start, tasks[k]))
    &&& forall|v: int, w: int|
        0 <= v < adj.len() && marks[v] && !before[v] && #[trigger] has_edge(adj, v, w)
            ==> #[trigger] marks[w] || tasks.contains(w)
    &&& (!before[start] ==> marks[start] || tasks.contains(start))
}

/// A task traversal starts with one task, for the start node.
pub proof fn lemma_task_traversal_start(adj: Seq<Seq<i32>>, before: Seq<bool>, start: int)
    requires
        valid_graph(adj),
        before.len() == adj.len(),
        0 <= start < adj.len(),
    ensures
        task_traversal_invariant(adj, before, start, before, seq![start]),
{
    if !before[start] {
        let p = seq![start];
        assert(is_walk(adj, p) && avoids(p, before));
    }
    assert(seq![start][0] == start);
}

/// The marks and pending tasks after the task at `i` runs: it checks and
/// marks its node, and only when the node was unmarked does it start one
/// task per successor.
pub open spec fn task_step(adj: Seq<Seq<i32>>, marks: Seq<bool>, tasks: Seq<int>, i: int) -> (Seq<bool>, Seq<int>) {
    let c = tasks[i];
    let rest = tasks.remove(i);
    (marks.update(c, true), if marks[c] {
        rest
    } else {
        rest + successors(adj, c)
    })
}

/// Every task makes progress: it marks a node that was unmarked, or it
/// leaves the marks as they are and one task fewer is pending. Since the
/// unmarked nodes and then the pending tasks decrease, a task traversal
/// ends.
pub proof fn lemma_task_traversal_progress(marks: Seq<bool>, adj: Seq<Seq<i32>>, tasks: Seq<int>, i: int)
    requires
        0 <= i < tasks.len(),
        0 <= tasks[i] < marks.len(),
    ensures
        ({
            let (new_marks, new_tasks) = task_step(adj, marks, tasks, i);
            unmarked(new_marks) < unmarked(marks) || (new_marks == marks && new_tasks.len() < tasks.len())
        }),
{
    let c = tasks[i];
    let new_marks = marks.update(c, true);
    assert forall|k: int| 0 <= k < marks.len() && #[trigger] marks[k] implies new_marks[k] by {}
    lemma_unmarked_shrinks(marks, new_marks, c);
    if marks[c] {
        assert(new_marks =~= marks);
    }
}

/// Running any one of the pending tasks keeps the invariant: the task
/// checks and marks its node, and only when the node was unmarked does it
/// start tasks for the successors.
pub proof fn lemma_task_traversal_step(
    adj: Seq<Seq<i32>>,
    before: Seq<bool>,
    start: int,
    marks: Seq<bool>,
    tasks: Seq<int>,
    i: int,
)
    requires
        task_traversal_invariant(adj, before, start, marks, tasks),
        0 <= i < tasks.len(),
    ensures
        task_traversal_invariant(
            adj,
            before,
            start,
            task_step(adj, marks, tasks, i).0,
            task_step(adj, marks, tasks, i).1,
        ),
{
    let c = tasks[i];
    let rest = tasks.remove(i);
    let new_marks = marks.update(c, true);
    let new_tasks = if marks[c] {
        rest
    } else {
        rest + successors(adj, c)
    };
    let n = adj.len();
    assert(0 <= c < n);
    assert forall|k: int| 0 <= k < rest.len() implies rest[k] == tasks[if k < i {
        k
    } else {
        k + 1
    }] by {}
    // marked nodes stay reachable
    assert forall|v: int|
        0 <= v < n && #[trigger] new_marks[v] && !before[v] implies reachable_avoiding(
        adj,
        before,
        start,
        v,
    ) by {
        if v == c && !marks[c] {
            assert(!before[tasks[i]] ==> reachable_avoiding(adj, before, start, tasks[i]));
        }
    }
    // tasks are in range and reachable when unmarked before
    assert forall|k: int| 0 <= k < new_tasks.len() implies 0 <= #[trigger] new_tasks[k] < n && (
    !before[new_tasks[k]] ==> reachable_avoiding(adj, before, start, new_tasks[k])) by {
        if k < rest.len() {
            let kk = if k < i {
                k
            } else {
                k + 1
            };
            assert(new_tasks[k] == tasks[kk]);
        } else {
            let j = k - rest.len();
            let w = adj[c][j] as int;
            assert(new_tasks[k] == w);
            assert(0 <= adj[c][j] < n);
            assert(has_edge(adj, c, w));
            if !before[w] {
                assert(!before[c]) by {
                    if before[c] {
                        assert(marks[c]);
                    }
                }
                assert(reachable_avoiding(adj, before, start, c));
                let p = choose|p: Seq<int>|
                    #![trigger is_walk(adj, p), avoids(p, before)]
                    is_walk(adj, p) && p[0] == start && p.last() == c && avoids(p, before);
                lemma_walk_extend(adj, p, w);
                let q = p.push(w);
                assert forall|m: int| 0 <= m < q.len() implies !before[#[trigger] q[m]] by {
                    if m < p.len() {
                        assert(q[m] == p[m]);
                    }
                }
                assert(is_walk(adj, q) && avoids(q, before));
            }
        }
    }
    // every successor of a newly marked node is marked or pending
    assert forall|v: int, w: int|
        0 <= v < n && new_marks[v] && !before[v] && #[trigger] has_edge(adj, v, w) implies #[trigger] new_marks[w]
        || new_tasks.contains(w) by {
        if w != c {
            if v == c && !marks[c] {
                let j = choose|j: int| 0 <= j < adj[c].len() && adj[c][j] == w;
                assert(new_tasks[rest.len() + j] == w);
            } else {
                assert(marks[v]);
                if !marks[w] {
                    assert(tasks.contains(w));
                    let k = choose|k: int| 0 <= k < tasks.len() && tasks[k] == w;
                    assert(k != i);
                    let kk = if k < i {
                        k
                    } else {
                        k - 1
                    };
                    assert(rest[kk] == w);
                    assert(new_tasks[kk] == w);
                }
            }
        }
    }
    if !before[start] && start != c && !marks[start] {
        let k = choose|k: int| 0 <= k < tasks.len() && tasks[k] == start;
        let kk = if k < i {
            k
        } else {
            k - 1
        };
        assert(new_tasks[kk] == start);
    }
}

/// When no task is left, a task traversal has marked exactly what the
/// depth-first traversal from the same node marks.
pub proof fn lemma_task_traversal_done(
    adj: Seq<Seq<i32>>,
    before: Seq<bool>,
    start: int,
    marks: Seq<bool>,
)
    requires
        task_traversal_invariant(adj, before, start, marks, Seq::empty()),
    ensures
        traversal_result(adj, before, start, marks),
{
    let n = adj.len();
    assert forall|v: int, w: int|
        0 <= v < n && marks[v] && !before[v] && #[trigger] has_edge(adj, v, w) implies #[trigger] marks[w] by {
        assert(!Seq::<int>::empty().contains(w));
    }
    assert forall|v: int| 0 <= v < n implies (#[trigger] marks[v] <==> (before[v]
        || reachable_avoiding(adj, before, start, v))) by {
        if reachable_avoiding(adj, before, start, v) && !before[v] {
            let p = choose|p: Seq<int>|
                #![trigger is_walk(adj, p), avoids(p, before)]
                is_walk(adj, p) && p[0] == start && p.last() == v && avoids(p, before);
            assert(!Seq::<int>::empty().contains(start));
            lemma_closed_covers_walk(adj, before, marks, p);
        }
    }
}

/// What the coordinating loop of the channel traversal got from the
/// channel.
pub enum Received {
    /// A marked node to expand.
    Node(i32),
    /// Nothing queued right now.
    Empty,
    /// Every sender is gone.
    Disconnected,
}

/// What the coordinating loop does next.
#[derive(PartialEq, Eq, Structural)]
pub enum ChannelStep {
    /// Start a worker that expands this node.
    Expand(i32),
    /// The traversal is over.
    Stop,
    /// Let the workers run, then look at the channel again.
    Retry,
}

/// The coordinating loop's decision: expand what arrives; on an empty
/// channel stop only when no node is queued or being expanded, as the
/// counter `active` tells.
pub fn channel_loop_step(received: Received, active: usize) -> (step: ChannelStep)
    ensures
        received matches Received::Node(node) ==> step == ChannelStep::Expand(node),
        received is Empty ==> (step == if active == 0 {
            ChannelStep::Stop
        } else {
            ChannelStep::Retry
        }),
        received is Disconnected ==> step == ChannelStep::Stop,
{
    match received {
        Received::Node(node) => ChannelStep::Expand(node),
        Received::Empty => if active == 0 {
            ChannelStep::Stop
        } else {
            ChannelStep::Retry
        },
        Received::Disconnected => ChannelStep::Stop,
    }
}

/// The work of the channel traversal in flight: nodes queued in the
/// channel, workers expanding a node, nodes that a worker has counted in
/// `active` but not sent yet, and the counter `active` itself.
pub struct ChannelWork {
    pub queued: nat,
    pub running: nat,
    pub announced: nat,
    pub active: nat,
}

/// One atomic step of the channel traversal.
pub enum ChannelEvent {
    /// The loop receives a node and starts a worker for it.
    Receive,
    /// A worker with nothing pending marked a new child and adds one to
    /// `active`.
    Announce,
    /// A worker sends the child it announced.
    Send,
    /// A worker with nothing pending is done with its node and takes one
    /// off `active`.
    Finish,
}

/// The traversal as started: the first node marked, counted and queued.
pub open spec fn channel_initial() -> ChannelWork {
    ChannelWork { queued: 1, running: 0, announced: 0, active: 1 }
}

/// The work after `event`, or `None` when the event cannot happen.
pub open spec fn channel_work_step(w: ChannelWork, event: ChannelEvent) -> Option<ChannelWork> {
    match event {
        ChannelEvent::Receive => if w.queued > 0 {
            Some(ChannelWork { queued: (w.queued - 1) as nat, running: w.running + 1, ..w })
        } else {
            None
        },
        ChannelEvent::Announce => if w.running > w.announced {
            Some(ChannelWork { announced: w.announced + 1, active: w.active + 1, ..w })
        } else {
            None
        },
        ChannelEvent::Send => if w.announced > 0 {
            Some(ChannelWork { announced: (w.announced - 1) as nat, queued: w.queued + 1, ..w })
        } else {
            None
        },
        ChannelEvent::Finish => if w.running > w.announced && w.active > 0 {
            Some(ChannelWork { running: (w.running - 1) as nat, active: (w.active - 1) as nat, ..w })
        } else {
            None
        },
    }
}

/// The counter `active` counts every node queued or being expanded and
/// every child announced but not yet sent; each worker has at most one
/// child announced and not sent.
pub open spec fn channel_invariant(w: ChannelWork) -> bool {
    &&& w.active == w.queued + w.running + w.announced
    &&& w.announced <= w.running
}

/// The traversal starts in a state of the invariant.
pub proof fn lemma_channel_initial()
    ensures
        channel_invariant(channel_initial()),
{
}

/// Every step keeps the invariant.
pub proof fn lemma_channel_step(w: ChannelWork, event: ChannelEvent)
    requires
        channel_invariant(w),
        channel_work_step(w, event) is Some,
    ensures
        channel_invariant(channel_work_step(w, event).unwrap()),
{
}

/// Stopping on an empty channel with `active` at zero loses no work:
/// nothing is queued, being expanded, or about to be sent.
pub proof fn lemma_channel_stop_is_safe(w: ChannelWork)
    requires
        channel_invariant(w),
        w.active == 0,
    ensures
        w.queued == 0 && w.running == 0 && w.announced == 0,
{
}

/// Some worker of the channel traversal expands `v` and has yet to check
/// its successor `w`.
pub open spec fn still_to_check(adj: Seq<Seq<i32>>, workers: Seq<(int, int)>, v: int, w: int) -> bool {
    exists|t: int, j: int|
        #![trigger workers[t], adj[v][j]]
        0 <= t < workers.len() && workers[t].0 == v && workers[t].1 <= j < adj[v].len() && adj[v][j] == w
}

/// What holds at every point of the channel traversal from `start`, which
/// marks a node before sending it: `queue` holds the nodes sent and not yet
/// received, `workers` the nodes being expanded, each with the index of the
/// next successor it checks and marks. `before` are the marks when the
/// traversal started, with the start node counted as unmarked.
pub open spec fn channel_traversal_invariant(
    adj: Seq<Seq<i32>>,
    before: Seq<bool>,
    start: int,
    marks: Seq<bool>,
    queue: Seq<int>,
    workers: Seq<(int, int)>,
) -> bool {
    &&& valid_graph(adj)
    &&& before.len() == adj.len()
    &&& marks.len() == adj.len()
    &&& 0 <= start < adj.len()
    &&& !before[start]
    &&& marks[start]
    &&& forall|v: int| 0 <= v < adj.len() && #[trigger] before[v] ==> marks[v]
    &&& forall|v: int|
        0 <= v < adj.len() && #[trigger] marks[v] && !before[v] ==> reachable_avoiding(
            adj,
            before,
            start,
            v,
        )
    &&& forall|k: int|
        0 <= k < queue.len() ==> 0 <= #[trigger] queue[k] < adj.len() && marks[queue[k]] && !before[queue[k]]
    &&& forall|t: int|
        0 <= t < workers.len() ==> {
            let (v, at) = #[trigger] workers[t];
            &&& 0 <= v < adj.len()
            &&& marks[v]
            &&& !before[v]
            &&& 0 <= at <= adj[v].len()
        }
    &&& forall|v: int, w: int|
        0 <= v < adj.len() && marks[v] && !before[v] && #[trigger] has_edge(adj, v, w) ==> #[trigger] marks[w]
            || queue.contains(v) || still_to_check(adj, workers, v, w)
}

/// The channel traversal as started: `start` marked and sent, no worker.
/// The start node is marked and sent whether or not it was marked before,
/// so the traversal runs as from the marks `before` with `start` unmarked
/// (which are `before` itself when `start` was unmarked).
pub proof fn lemma_channel_traversal_start(adj: Seq<Seq<i32>>, before: Seq<bool>, start: int)
    requires
        valid_graph(adj),
        before.len() == adj.len(),
        0 <= start < adj.len(),
    ensures
        channel_traversal_invariant(
            adj,
            before.update(start, false),
            start,
            before.update(start, true),
            seq![start],
            Seq::empty(),
        ),
        !before[start] ==> before.update(start, false) == before,
{
    let base = before.update(start, false);
    let marks = base.update(start, true);
    assert(marks =~= before.update(start, true));
    if !before[start] {
        assert(base =~= before);
    }
    let p = seq![start];
    assert(is_walk(adj, p) && avoids(p, base));
    assert(seq![start][0] == start);
    assert forall|v: int| 0 <= v < adj.len() && #[trigger] base[v] implies marks[v] by {}
    assert forall|v: int, w: int|
        0 <= v < adj.len() && marks[v] && !base[v] && #[trigger] has_edge(adj, v, w) implies #[trigger] marks[w]
        || seq![start].contains(v) || still_to_check(adj, Seq::<(int, int)>::empty(), v, w) by {
        assert(v == start);
    }
}

/// The loop receives the node at `i` of the queue and starts a worker for
/// it at its first successor.
pub proof fn lemma_channel_traversal_receive(
    adj: Seq<Seq<i32>>,
    before: Seq<bool>,
    start: int,
    marks: Seq<bool>,
    queue: Seq<int>,
    workers: Seq<(int, int)>,
    i: int,
)
    requires
        channel_traversal_invariant(adj, before, start, marks, queue, workers),
        0 <= i < queue.len(),
    ensures
        channel_traversal_invariant(adj, before, start, marks, queue.remove(i), workers.push((queue[i], 0))),
{
    let v0 = queue[i];
    let q2 = queue.remove(i);
    let w2 = workers.push((v0, 0));
    assert forall|k: int| 0 <= k < q2.len() implies 0 <= #[trigger] q2[k] < adj.len() && marks[q2[k]] && !before[q2[k]] by {
        if k < i {
            assert(q2[k] == queue[k]);
        } else {
            assert(q2[k] == queue[k + 1]);
        }
    }
    assert forall|t: int| 0 <= t < w2.len() implies {
        let (v, at) = #[trigger] w2[t];
        &&& 0 <= v < adj.len()
        &&& marks[v]
        &&& !before[v]
        &&& 0 <= at <= adj[v].len()
    } by {
        if t < workers.len() {
            assert(w2[t] == workers[t]);
        }
    }
    assert forall|v: int, w: int|
        0 <= v < adj.len() && marks[v] && !before[v] && #[trigger] has_edge(adj, v, w) implies #[trigger] marks[w]
        || q2.contains(v) || still_to_check(adj, w2, v, w) by {
        if !marks[w] {
            if queue.contains(v) {
                let k = choose|k: int| 0 <= k < queue.len() && queue[k] == v;
                if v == v0 {
                    let j = choose|j: int| 0 <= j < adj[v].len() && adj[v][j] == w;
                    let t = workers.len() as int;
                    assert(w2[t] == (v0, 0int));
                    assert(adj[v][j] == w && w2[t].0 == v);
                } else {
                    assert(k != i);
                    let kk = if k < i {
                        k
                    } else {
                        k - 1
                    };
                    assert(q2[kk] == v);
                }
            } else {
                assert(still_to_check(adj, workers, v, w));
                let (t, j) = choose|t: int, j: int|
                    #![trigger workers[t], adj[v][j]]
                    0 <= t < workers.len() && workers[t].0 == v && workers[t].1 <= j < adj[v].len() && adj[v][j] == w;
                assert(w2[t] == workers[t]);
                assert(adj[v][j] == w && w2[t].0 == v);
            }
        }
    }
}

/// Worker `t` checks and marks its next successor, sending it when it
/// marked it itself.
pub proof fn lemma_channel_traversal_check(
    adj: Seq<Seq<i32>>,
    before: Seq<bool>,
    start: int,
    marks: Seq<bool>,
    queue: Seq<int>,
    workers: Seq<(int, int)>,
    t: int,
)
    requires
        channel_traversal_invariant(adj, before, start, marks, queue, workers),
        0 <= t < workers.len(),
        workers[t].1 < adj[workers[t].0].len(),
    ensures
        ({
            let (v, at) = workers[t];
            let w = adj[v][at] as int;
            let new_marks = marks.update(w, true);
            let new_queue = if marks[w] {
                queue
            } else {
                queue.push(w)
            };
            channel_traversal_invariant(adj, before, start, new_marks, new_queue, workers.update(t, (v, at + 1)))
        }),
{
    let (v0, at) = workers[t];
    let w0 = adj[v0][at] as int;
    let n = adj.len();
    let new_marks = marks.update(w0, true);
    let new_queue = if marks[w0] {
        queue
    } else {
        queue.push(w0)
    };
    let w2 = workers.update(t, (v0, at + 1));
    assert(0 <= adj[v0][at] < n);
    assert(has_edge(adj, v0, w0));
    // a newly marked successor is reachable
    if !marks[w0] {
        assert(!before[w0]);
        assert(reachable_avoiding(adj, before, start, v0));
        let p = choose|p: Seq<int>|
            #![trigger is_walk(adj, p), avoids(p, before)]
            is_walk(adj, p) && p[0] == start && p.last() == v0 && avoids(p, before);
        lemma_walk_extend(adj, p, w0);
        let q = p.push(w0);
        assert forall|m: int| 0 <= m < q.len() implies !before[#[trigger] q[m]] by {
            if m < p.len() {
                assert(q[m] == p[m]);
            }
        }
        assert(is_walk(adj, q) && avoids(q, before));
    }
    assert forall|v: int|
        0 <= v < n && #[trigger] new_marks[v] && !before[v] implies reachable_avoiding(adj, before, start, v) by {
        if v != w0 {
            assert(marks[v]);
        }
    }
    assert forall|k: int| 0 <= k < new_queue.len() implies 0 <= #[trigger] new_queue[k] < n && new_marks[new_queue[k]]
        && !before[new_queue[k]] by {
        if k < queue.len() {
            assert(new_queue[k] == queue[k]);
        }
    }
    assert forall|tt: int| 0 <= tt < w2.len() implies {
        let (v, a) = #[trigger] w2[tt];
        &&& 0 <= v < n
        &&& new_marks[v]
        &&& !before[v]
        &&& 0 <= a <= adj[v].len()
    } by {
        if tt != t {
            assert(w2[tt] == workers[tt]);
        }
    }
    assert forall|v: int, w: int|
        0 <= v < n && new_marks[v] && !before[v] && #[trigger] has_edge(adj, v, w) implies #[trigger] new_marks[w]
        || new_queue.contains(v) || still_to_check(adj, w2, v, w) by {
        if w != w0 {
            if v == w0 && !marks[w0] {
                assert(new_queue[queue.len() as int] == w0);
            } else {
                assert(marks[v]);
                if !marks[w] {
                    if queue.contains(v) {
                        let k = choose|k: int| 0 <= k < queue.len() && queue[k] == v;
                        assert(new_queue[k] == v);
                    } else {
                        assert(still_to_check(adj, workers, v, w));
                        let (tt, j) = choose|tt: int, j: int|
                            #![trigger workers[tt], adj[v][j]]
                            0 <= tt < workers.len() && workers[tt].0 == v && workers[tt].1 <= j < adj[v].len() && adj[v][j] == w;
                        if tt == t {
                            assert(j != at);
                            assert(w2[tt] == (v0, at + 1));
                        } else {
                            assert(w2[tt] == workers[tt]);
                        }
                        assert(adj[v][j] == w && w2[tt].0 == v);
                    }
                }
            }
        }
    }
}

/// Worker `t` has checked every successor of its node and ends.
pub proof fn lemma_channel_traversal_finish(
    adj: Seq<Seq<i32>>,
    before: Seq<bool>,
    start: int,
    marks: Seq<bool>,
    queue: Seq<int>,
    workers: Seq<(int, int)>,
    t: int,
)
    requires
        channel_traversal_invariant(adj, before, start, marks, queue, workers),
        0 <= t < workers.len(),
        workers[t].1 == adj[workers[t].0].len(),
    ensures
        channel_traversal_invariant(adj, before, start, marks, queue, workers.remove(t)),
{
    let w2 = workers.remove(t);
    assert forall|tt: int| 0 <= tt < w2.len() implies {
        let (v, a) = #[trigger] w2[tt];
        &&& 0 <= v < adj.len()
        &&& marks[v]
        &&& !before[v]
        &&& 0 <= a <= adj[v].len()
    } by {
        if tt < t {
            assert(w2[tt] == workers[tt]);
        } else {
            assert(w2[tt] == workers[tt + 1]);
        }
    }
    assert forall|v: int, w: int|
        0 <= v < adj.len() && marks[v] && !before[v] && #[trigger] has_edge(adj, v, w) implies #[trigger] marks[w]
        || queue.contains(v) || still_to_check(adj, w2, v, w) by {
        if !marks[w] && !queue.contains(v) {
            assert(still_to_check(adj, workers, v, w));
            let (tt, j) = choose|tt: int, j: int|
                #![trigger workers[tt], adj[v][j]]
                0 <= tt < workers.len() && workers[tt].0 == v && workers[tt].1 <= j < adj[v].len() && adj[v][j] == w;
            assert(tt != t);
            let k = if tt < t {
                tt
            } else {
                tt - 1
            };
            assert(w2[k] == workers[tt]);
            assert(adj[v][j] == w && w2[k].0 == v);
        }
    }
}

/// When nothing is queued and no worker is left, the channel traversal has
/// marked exactly what the depth-first traversal from the same node marks.
pub proof fn lemma_channel_traversal_done(
    adj: Seq<Seq<i32>>,
    before: Seq<bool>,
    start: int,
    marks: Seq<bool>,
)
    requires
        channel_traversal_invariant(adj, before, start, marks, Seq::empty(), Seq::empty()),
    ensures
        traversal_result(adj, before, start, marks),
{
    let n = adj.len();
    assert forall|v: int, w: int|
        0 <= v < n && v < before.len() && marks[v] && !before[v] && #[trigger] has_edge(adj, v, w) implies #[trigger] marks[w] by {
        assert(!Seq::<int>::empty().contains(v));
        assert(!still_to_check(adj, Seq::<(int, int)>::empty(), v, w));
    }
    assert forall|v: int| 0 <= v < n implies (#[trigger] marks[v] <==> (before[v]
        || reachable_avoiding(adj, before, start, v))) by {
        if reachable_avoiding(adj, before, start, v) && !before[v] {
            let p = choose|p: Seq<int>|
                #![trigger is_walk(adj, p), avoids(p, before)]
                is_walk(adj, p) && p[0] == start && p.last() == v && avoids(p, before);
            lemma_closed_covers_walk(adj, before, marks, p);
        }
    }
}

} // verus!
