use concurrency_patterns::dfs_concurr::{
    build_graph, channel_loop_step, children_of, generate_graph, seq_traverse, try_mark, ChannelStep, Graph,
    Received,
};
use std::cell::Cell;

fn small_graph() -> Graph {
    // 0 -> 1 -> 2 -> 0, 3 -> 4, 4 -> 2, 5 isolated
    vec![vec![1], vec![2], vec![0], vec![4], vec![2], vec![]]
}

#[test]
fn traversal_marks_reachable_nodes() {
    let graph = small_graph();
    let mut vis = vec![false; 6];
    let expanded = Cell::new(0usize);
    seq_traverse(0, &mut vis, &graph, &|_n: i32| expanded.set(expanded.get() + 1));
    assert_eq!(vis, vec![true, true, true, false, false, false]);
    assert_eq!(expanded.get(), 3);
}

#[test]
fn traversal_stops_at_marked_nodes() {
    let graph = small_graph();
    let mut vis = vec![false, false, true, false, false, false];
    seq_traverse(3, &mut vis, &graph, &|_n: i32| {});
    assert_eq!(vis, vec![false, false, true, true, true, false]);
}

#[test]
fn traversal_from_marked_node_changes_nothing() {
    let graph = small_graph();
    let mut vis = vec![true, false, false, false, false, false];
    let expanded = Cell::new(0usize);
    seq_traverse(0, &mut vis, &graph, &|_n: i32| expanded.set(expanded.get() + 1));
    assert_eq!(vis, vec![true, false, false, false, false, false]);
    assert_eq!(expanded.get(), 0);
}

#[test]
fn generated_graph_has_its_shape() {
    let n = 300;
    let graph = generate_graph(n);
    assert_eq!(graph.len(), n);
    for (a, row) in graph.iter().enumerate() {
        for (j, &b) in row.iter().enumerate() {
            assert!(b >= 0 && (b as usize) < n);
            assert_ne!(b as usize, a);
            assert!(!row[..j].contains(&b));
        }
    }
    for i in 1..n {
        assert!((0..i).any(|p| graph[p].contains(&(i as i32))));
    }
    assert!(graph[0].contains(&1) && graph[1].contains(&2) && graph[2].contains(&0));
    assert!(graph[5].contains(&6) && graph[6].contains(&7) && graph[7].contains(&5));
}

#[test]
fn generated_graph_is_fully_traversed_from_first_node() {
    let graph = generate_graph(500);
    let mut vis = vec![false; 500];
    seq_traverse(0, &mut vis, &graph, &|_n: i32| {});
    assert!(vis.iter().all(|&v| v));
}

#[test]
fn tiny_generated_graphs() {
    let one = generate_graph(1);
    assert_eq!(one, vec![Vec::<i32>::new()]);
    let two = generate_graph(2);
    assert_eq!(two[0], vec![1]);
    assert!(two[1].is_empty() || two[1] == vec![0]);
}

#[test]
fn try_mark_marks_once() {
    let mut vis = vec![false; 3];
    assert!(try_mark(&mut vis, 1));
    assert_eq!(vis, vec![false, true, false]);
    assert!(!try_mark(&mut vis, 1));
    assert_eq!(vis, vec![false, true, false]);
}

#[test]
fn task_traversal_in_any_order_matches_sequential() {
    let graph = small_graph();
    let mut vis = vec![false; 6];
    // process the pending tasks last-in-first-out
    let mut tasks: Vec<i32> = vec![3];
    while let Some(t) = tasks.pop() {
        if try_mark(&mut vis, t) {
            tasks.extend(children_of(t, &graph));
        }
    }
    let mut seq_vis = vec![false; 6];
    seq_traverse(3, &mut seq_vis, &graph, &|_n: i32| {});
    assert_eq!(vis, seq_vis);
}

#[test]
fn children_are_copied() {
    let graph = small_graph();
    assert_eq!(children_of(0, &graph), vec![1]);
    assert_eq!(children_of(5, &graph), Vec::<i32>::new());
}

#[test]
fn channel_loop_decisions() {
    assert!(channel_loop_step(Received::Node(4), 3) == ChannelStep::Expand(4));
    assert!(channel_loop_step(Received::Empty, 0) == ChannelStep::Stop);
    assert!(channel_loop_step(Received::Empty, 2) == ChannelStep::Retry);
    assert!(channel_loop_step(Received::Disconnected, 2) == ChannelStep::Stop);
}

#[test]
fn build_graph_follows_the_draws() {
    // node 1 under 0, node 2 under 0, node 3 under 2
    let parents: Vec<usize> = vec![0, 0, 2];
    // a self loop and a repeated tree edge are skipped, 3 -> 1 is added
    let extra: Vec<(usize, usize)> = vec![(1, 1), (0, 1), (3, 1), (3, 1)];
    let graph = build_graph(4, &parents, &extra);
    assert_eq!(graph, vec![vec![1, 2], vec![2], vec![3, 0], vec![1]]);
}

#[test]
fn build_graph_closes_both_cycles() {
    let parents: Vec<usize> = (0..8).collect();
    let extra: Vec<(usize, usize)> = vec![];
    let graph = build_graph(9, &parents, &extra);
    assert_eq!(
        graph,
        vec![vec![1], vec![2], vec![3, 0], vec![4], vec![5], vec![6], vec![7], vec![8, 5], vec![]]
    );
}

#[test]
fn traversal_may_start_in_a_graph_with_edges_it_never_reaches() {
    // node 2 lists a node outside the graph, but node 0 never reaches it
    let graph: Graph = vec![vec![1], vec![0], vec![7]];
    let mut vis = vec![false; 2];
    seq_traverse(0, &mut vis, &graph, &|_n: i32| {});
    assert_eq!(vis, vec![true, true]);
}

#[test]
fn channel_traversal_in_any_order_matches_sequential() {
    let graph = small_graph();
    let mut vis = vec![false; 6];
    // the start node is marked and sent; workers check and mark successors
    try_mark(&mut vis, 3);
    let mut queue: Vec<i32> = vec![3];
    let mut active: usize = 1;
    loop {
        let received = match queue.pop() {
            Some(n) => Received::Node(n),
            None => Received::Empty,
        };
        match channel_loop_step(received, active) {
            ChannelStep::Expand(n) => {
                for child in children_of(n, &graph) {
                    if try_mark(&mut vis, child) {
                        active += 1;
                        queue.insert(0, child);
                    }
                }
                active -= 1;
            }
            ChannelStep::Retry => {}
            ChannelStep::Stop => break,
        }
    }
    let mut seq_vis = vec![false; 6];
    seq_traverse(3, &mut seq_vis, &graph, &|_n: i32| {});
    assert_eq!(vis, seq_vis);
}

#[test]
fn channel_traversal_expands_a_start_node_marked_before() {
    // the start node 3 is marked already; it is still sent and expanded
    let graph = small_graph();
    let mut vis = vec![false, false, false, true, false, false];
    try_mark(&mut vis, 3);
    let mut queue: Vec<i32> = vec![3];
    while let Some(n) = queue.pop() {
        for child in children_of(n, &graph) {
            if try_mark(&mut vis, child) {
                queue.insert(0, child);
            }
        }
    }
    // the same as a depth-first traversal from 3 with 3 unmarked
    let mut seq_vis = vec![false; 6];
    seq_traverse(3, &mut seq_vis, &graph, &|_n: i32| {});
    assert_eq!(vis, seq_vis);
}
