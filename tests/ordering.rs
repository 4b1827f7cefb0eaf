use admissibility::ordering::{compute_ordering, next_p_value, search_p};
use graphbench::editgraph::EditGraph;
use graphbench::graph::{EdgeSet, Graph, MutableGraph};
use std::collections::HashSet;

fn graph_of(edges: &[(u32, u32)]) -> EditGraph {
    let mut graph = EditGraph::new();
    for (u, v) in edges.iter() {
        graph.add_edge(u, v);
    }
    graph
}

fn assert_each_vertex_once(order: &Vec<u32>, graph: &EditGraph) {
    assert_eq!(order.len(), graph.num_vertices());
    let seen: HashSet<u32> = order.iter().cloned().collect();
    assert_eq!(seen.len(), order.len());
    for v in graph.vertices() {
        assert!(seen.contains(v));
    }
}

#[test]
pub fn compute_ordering_returns_true_if_all_v_in_g_has_neighbours_on_or_below_p() {
    let mut graph = EditGraph::new();
    let edges: EdgeSet = [
        (1, 2),
        (1, 3),
        (1, 4),
        (1, 5),
        (2, 6),
        (3, 6),
        (4, 6),
        (5, 6),
    ]
    .iter()
    .cloned()
    .collect();
    for (u, v) in edges.iter() {
        graph.add_edge(u, v);
    }

    assert!(compute_ordering(4, &graph).is_some());
}

#[test]
pub fn compute_ordering_returns_true_for_correct_p_value() {
    let mut graph = EditGraph::new();
    let edges: EdgeSet = [(1, 2), (1, 3), (1, 4), (2, 3), (2, 4), (3, 4)]
        .iter()
        .cloned()
        .collect();
    for (u, v) in edges.iter() {
        graph.add_edge(u, v);
    }

    assert!(compute_ordering(4, &graph).is_some());
}

#[test]
pub fn compute_ordering_returns_false_for_incorrect_p_value() {
    let mut graph = EditGraph::new();
    let edges: EdgeSet = [(1, 2), (1, 3), (1, 4), (2, 3), (2, 4), (3, 4)]
        .iter()
        .cloned()
        .collect();
    for (u, v) in edges.iter() {
        graph.add_edge(u, v);
    }

    assert!(!compute_ordering(2, &graph).is_some());
}

#[test]
pub fn test_admissibility_returns_correct_p_value() {
    let mut graph = EditGraph::new();
    let edges: EdgeSet = [
        (1, 2),
        (1, 9),
        (2, 3),
        (2, 9),
        (3, 4),
        (3, 7),
        (3, 9),
        (4, 5),
        (4, 6),
        (5, 6),
        (5, 8),
        (6, 7),
        (7, 8),
        (8, 9),
    ]
    .iter()
    .cloned()
    .collect();
    for (u, v) in edges.iter() {
        graph.add_edge(u, v);
    }

    let mut p = 1;
    loop {
        let is_p = compute_ordering(p, &graph);
        if is_p.is_some() {
            break;
        }
        p += 1;
    }

    assert_eq!(p, 3);
}

#[test]
fn star_ordering_holds_every_vertex_once() {
    let graph = graph_of(&[(1, 2), (1, 3), (1, 4), (1, 5), (2, 6), (3, 6), (4, 6), (5, 6)]);
    let order = compute_ordering(4, &graph).unwrap();
    assert_each_vertex_once(&order, &graph);
}

#[test]
fn clique_on_four_vertices_fails_at_two_and_succeeds_at_four() {
    let graph = graph_of(&[(1, 2), (1, 3), (1, 4), (2, 3), (2, 4), (3, 4)]);
    assert!(compute_ordering(2, &graph).is_none());
    let order = compute_ordering(4, &graph).unwrap();
    assert_each_vertex_once(&order, &graph);
}

#[test]
fn mixed_graph_fails_below_three_and_succeeds_at_three() {
    let graph = graph_of(&[
        (1, 2),
        (1, 9),
        (2, 3),
        (2, 9),
        (3, 4),
        (3, 7),
        (3, 9),
        (4, 5),
        (4, 6),
        (5, 6),
        (5, 8),
        (6, 7),
        (7, 8),
        (8, 9),
    ]);
    assert!(compute_ordering(1, &graph).is_none());
    assert!(compute_ordering(2, &graph).is_none());
    let order = compute_ordering(3, &graph).unwrap();
    assert_each_vertex_once(&order, &graph);
}

#[test]
fn path_on_five_vertices_succeeds_at_one_starting_at_an_end() {
    let graph = graph_of(&[(1, 2), (2, 3), (3, 4), (4, 5)]);
    let order = compute_ordering(1, &graph).unwrap();
    assert_each_vertex_once(&order, &graph);
    assert!(order[0] == 1 || order[0] == 5);
}

#[test]
fn triangle_succeeds_at_two_with_three_vertices() {
    let graph = graph_of(&[(1, 2), (2, 3), (1, 3)]);
    let order = compute_ordering(2, &graph).unwrap();
    assert_eq!(order.len(), 3);
    assert_each_vertex_once(&order, &graph);
}

#[test]
fn loops_removed_on_load_leave_the_ordering_unchanged_in_size() {
    let mut graph = graph_of(&[(1, 2), (2, 3), (1, 3), (2, 2)]);
    assert_eq!(graph.remove_loops(), 1);
    let order = compute_ordering(2, &graph).unwrap();
    assert_eq!(order.len(), 3);
    assert_each_vertex_once(&order, &graph);
}

#[test]
fn a_graph_with_a_loop_still_gets_every_vertex_once() {
    let graph = graph_of(&[(1, 2), (2, 3), (1, 3), (2, 2)]);
    if let Some(order) = compute_ordering(3, &graph) {
        assert_each_vertex_once(&order, &graph);
    }
}

#[test]
fn empty_graph_gives_an_empty_ordering() {
    let graph = EditGraph::new();
    assert_eq!(compute_ordering(1, &graph), Some(Vec::new()));
}

#[test]
fn success_at_p_holds_at_larger_p_on_the_examples() {
    let graph = graph_of(&[(1, 2), (1, 3), (1, 4), (2, 3), (2, 4), (3, 4)]);
    for p in 3..8 {
        assert!(compute_ordering(p, &graph).is_some());
    }
    for p in 0..3 {
        assert!(compute_ordering(p, &graph).is_none());
    }
}

#[test]
fn next_p_value_doubles_until_a_success() {
    assert_eq!(next_p_value(4, false, -1, -1), 8);
    assert_eq!(next_p_value(8, false, -1, 4), 16);
}

#[test]
fn next_p_value_bisects_after_a_success() {
    assert_eq!(next_p_value(16, true, 16, 8), 12);
    assert_eq!(next_p_value(12, false, 16, 12), 14);
    assert_eq!(next_p_value(10, true, 10, 8), 9);
}

#[test]
fn next_p_value_stops_when_the_gap_is_one() {
    assert_eq!(next_p_value(9, true, 9, 8), -1);
    assert_eq!(next_p_value(9, false, 10, 9), -1);
}

#[test]
fn search_p_finds_three_on_the_mixed_graph() {
    let graph = graph_of(&[
        (1, 2),
        (1, 9),
        (2, 3),
        (2, 9),
        (3, 4),
        (3, 7),
        (3, 9),
        (4, 5),
        (4, 6),
        (5, 6),
        (5, 8),
        (6, 7),
        (7, 8),
        (8, 9),
    ]);
    for start in 1..6 {
        let (p, order) = search_p(&graph, start);
        assert_eq!(p, 3);
        assert_each_vertex_once(&order.unwrap(), &graph);
    }
}

#[test]
fn search_p_on_a_clique_of_four_finds_three() {
    let graph = graph_of(&[(1, 2), (1, 3), (1, 4), (2, 3), (2, 4), (3, 4)]);
    let (p, order) = search_p(&graph, 1);
    assert_eq!(p, 3);
    assert_eq!(order.unwrap().len(), 4);
}

#[test]
fn scenarios_do_not_depend_on_the_order_of_candidates() {
    let graph = graph_of(&[
        (1, 2),
        (1, 9),
        (2, 3),
        (2, 9),
        (3, 4),
        (3, 7),
        (3, 9),
        (4, 5),
        (4, 6),
        (5, 6),
        (5, 8),
        (6, 7),
        (7, 8),
        (8, 9),
    ]);
    let clique = graph_of(&[(1, 2), (1, 3), (1, 4), (2, 3), (2, 4), (3, 4)]);
    for _ in 0..200 {
        assert!(compute_ordering(2, &graph).is_none());
        assert!(compute_ordering(3, &graph).is_some());
        assert!(compute_ordering(2, &clique).is_none());
        assert!(compute_ordering(3, &clique).is_some());
    }
}

#[test]
fn next_p_value_rounds_the_midpoint_toward_zero() {
    assert_eq!(next_p_value(0, false, 0, -1), 0);
    assert_eq!(next_p_value(1, true, 1, -1), 0);
}

#[test]
fn search_p_returns_a_success_with_a_failure_just_below() {
    let graph = graph_of(&[(1, 2), (2, 3), (3, 4), (4, 5)]);
    let (p, order) = search_p(&graph, 4);
    assert_eq!(p, 1);
    assert_each_vertex_once(&order.unwrap(), &graph);
    assert!(compute_ordering(0, &graph).is_none());
}

#[test]
fn every_vertex_above_p_neighbours_fails() {
    let graph = graph_of(&[(1, 2), (2, 3), (3, 1), (3, 4), (4, 1), (4, 2)]);
    assert!(compute_ordering(2, &graph).is_none());
}
