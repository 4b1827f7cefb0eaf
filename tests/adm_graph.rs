use admissibility::adm_graph::AdmGraph;
use graphbench::editgraph::EditGraph;
use graphbench::graph::{EdgeSet, MutableGraph};

fn graph_of(edges: &[(u32, u32)]) -> EditGraph {
    let mut graph = EditGraph::new();
    let edges: EdgeSet = edges.iter().cloned().collect();
    for (u, v) in edges.iter() {
        graph.add_edge(u, v);
    }
    graph
}

#[test]
fn initialise_candidates_should_add_vertices_with_degree_p_or_less_to_candidates() {
    let mut graph = EditGraph::new();
    let edges: EdgeSet = [(1, 2), (1, 3), (1, 4), (2, 5), (2, 6), (3, 7)]
        .iter()
        .cloned()
        .collect();
    for (u, v) in edges.iter() {
        graph.add_edge(u, v);
    }
    let mut adm_graph = AdmGraph::new(&graph);

    adm_graph.initialise_candidates(2);

    assert_eq!(
        adm_graph.candidates,
        [3, 4, 5, 6, 7].iter().cloned().collect()
    );
}

#[test]
fn update_n1_of_v_should_move_v_to_m_of_u() {
    let mut graph = EditGraph::new();
    let edges: EdgeSet = [(1, 2), (1, 3), (1, 4), (2, 5), (2, 6)]
        .iter()
        .cloned()
        .collect();
    for (u, v) in edges.iter() {
        graph.add_edge(u, v);
    }
    let mut adm_graph = AdmGraph::new(&graph);

    adm_graph.update_n1_of_v(1);
    let u_adm_data = adm_graph.adm_data.get(&2).unwrap();

    assert_eq!(u_adm_data.m_from_l.len(), 1);
}

#[test]
fn update_n1_of_v_should_move_v_to_m_of_u_if_m_of_u_has_been_deleted() {
    let mut graph = EditGraph::new();
    let edges: EdgeSet = [(1, 2), (1, 3), (1, 4), (2, 5), (2, 6)]
        .iter()
        .cloned()
        .collect();
    for (u, v) in edges.iter() {
        graph.add_edge(u, v);
    }
    let mut adm_graph = AdmGraph::new(&graph);

    let mut u_adm_data = adm_graph.adm_data.remove(&2).unwrap();
    u_adm_data.deleted_m = true;
    adm_graph.adm_data.insert(2, u_adm_data);

    adm_graph.update_n1_of_v(1);

    assert_eq!(adm_graph.adm_data.remove(&2).unwrap().m_from_l.len(), 0);
}

#[test]
fn update_l2_of_v_should_remove_v_from_m_of_u_and_replace_edge() {
    let mut graph = EditGraph::new();
    let edges: EdgeSet = [(1, 2), (1, 3), (1, 4), (4, 5), (5, 6), (5, 7), (4, 8)]
        .iter()
        .cloned()
        .collect();
    for (u, v) in edges.iter() {
        graph.add_edge(u, v);
    }
    let mut adm_graph = AdmGraph::new(&graph);

    adm_graph.initialise_candidates(3);
    let v_adm_data = adm_graph.adm_data.get_mut(&1).unwrap();
    v_adm_data.move_v_in_l_to_r(&4);
    v_adm_data.add_edges_to_m(5, 4);
    let mut u_adm_data = adm_graph.adm_data.remove(&5).unwrap();
    u_adm_data.move_v_in_l_to_r(&4);
    u_adm_data.add_edges_to_m(1, 4);
    adm_graph.adm_data.insert(5, u_adm_data);

    adm_graph.update_l2_of_v(1);

    assert!(adm_graph
        .adm_data
        .get(&5)
        .unwrap()
        .m_from_l
        .contains_key(&8));
}

#[test]
fn remove_v_from_candidates_should_move_v_from_l_to_r() {
    let mut graph = EditGraph::new();
    let edges: EdgeSet = [(1, 2), (1, 3), (1, 4), (2, 5), (2, 6)]
        .iter()
        .cloned()
        .collect();
    for (u, v) in edges.iter() {
        graph.add_edge(u, v);
    }
    let mut adm_graph = AdmGraph::new(&graph);

    adm_graph.initialise_candidates(3);

    adm_graph.remove_v_from_candidates(3);

    assert_eq!(adm_graph.r.len(), 1);
    assert_eq!(adm_graph.l.len(), 5);
}

#[test]
fn remove_v_from_candidates_returns_none_without_candidates() {
    let graph = graph_of(&[(1, 2), (1, 3), (2, 3)]);
    let mut adm_graph = AdmGraph::new(&graph);

    adm_graph.initialise_candidates(1);

    assert!(adm_graph.candidates.is_empty());
    assert_eq!(adm_graph.remove_v_from_candidates(1), None);
    assert_eq!(adm_graph.l.len(), 3);
    assert!(!adm_graph.is_all_vertices_in_r_or_candidates());
}

#[test]
fn a_step_keeps_each_vertex_state_in_line_with_the_partition() {
    let graph = graph_of(&[(1, 2), (1, 3), (1, 4), (2, 5), (2, 6), (3, 6), (4, 6)]);
    let mut adm_graph = AdmGraph::new(&graph);
    adm_graph.initialise_candidates(2);

    while let Some(v) = adm_graph.remove_v_from_candidates(2) {
        assert!(adm_graph.r.contains(&v));
        assert!(!adm_graph.l.contains(&v));
        assert!(adm_graph.checks.is_empty());
        for (u, d) in adm_graph.adm_data.iter() {
            assert_eq!(d.deleted_m, adm_graph.r.contains(u));
            for w in d.n_in_l.iter() {
                assert!(adm_graph.l.contains(w));
            }
            for w in d.n_in_r.iter() {
                assert!(adm_graph.r.contains(w));
            }
            for (x, y) in d.m_from_l.iter() {
                assert!(adm_graph.l.contains(x));
                assert!(adm_graph.r.contains(y));
                assert_eq!(d.m_from_r.get(y), Some(x));
            }
        }
    }
    assert!(adm_graph.l.is_empty() || adm_graph.candidates.is_empty());
}

#[test]
fn candidates_after_a_step_have_budget_at_most_p() {
    let graph = graph_of(&[(1, 2), (1, 9), (2, 3), (2, 9), (3, 4), (3, 7), (3, 9), (4, 5)]);
    let mut adm_graph = AdmGraph::new(&graph);
    adm_graph.initialise_candidates(3);

    while adm_graph.remove_v_from_candidates(3).is_some() {
        for u in adm_graph.candidates.iter() {
            assert!(adm_graph.l.contains(u));
        }
    }
}

#[test]
fn candidates_keep_a_budget_of_at_most_p_while_other_vertices_of_l_may_not() {
    // 0 is joined to a1..a4; each a_i has a leaf b_i and a neighbour c_i in a
    // clique on four vertices, which never becomes a candidate at p = 2.
    let mut edges = Vec::new();
    for i in 0..4u32 {
        let a = 10 + i;
        let b = 20 + i;
        let c = 30 + 10 * i;
        edges.push((0, a));
        edges.push((a, b));
        edges.push((a, c));
        for x in 0..4u32 {
            for y in (x + 1)..4u32 {
                edges.push((c + x, c + y));
            }
        }
    }
    let graph = graph_of(&edges);
    let mut adm_graph = AdmGraph::new(&graph);
    adm_graph.initialise_candidates(2);
    while adm_graph.remove_v_from_candidates(2).is_some() {
        for u in adm_graph.candidates.iter() {
            let d = adm_graph.adm_data.get(u).unwrap();
            assert!(d.n_in_l.len() + d.m_from_l.len() <= 2);
        }
    }
    assert!(adm_graph.l.contains(&0));
    assert_eq!(adm_graph.adm_data.get(&0).unwrap().m_from_l.len(), 4);
}

#[test]
fn a_check_at_budget_p_grows_the_matching_along_an_augmenting_path() {
    // 1 reaches L through 2 (matched with 5) and through 3, whose only
    // neighbour in L is 5; 2 also has the free neighbour 6.
    let graph = graph_of(&[(1, 2), (1, 3), (1, 4), (2, 5), (2, 6), (3, 5)]);
    let mut adm_graph = AdmGraph::new(&graph);
    for v in [2u32, 3] {
        adm_graph.l.remove(&v);
        adm_graph.r.insert(v);
    }
    for (u, d) in adm_graph.adm_data.iter_mut() {
        for v in [2u32, 3] {
            if d.n_in_l.contains(&v) {
                d.move_v_in_l_to_r(&v);
            }
        }
        if *u == 2 || *u == 3 {
            d.delete_m();
        }
    }
    adm_graph.adm_data.get_mut(&1).unwrap().add_edges_to_m(5, 2);
    adm_graph.candidates.insert(4);

    assert_eq!(adm_graph.remove_v_from_candidates(1), Some(4));

    let d = adm_graph.adm_data.get(&1).unwrap();
    assert!(d.n_in_l.is_empty());
    assert_eq!(d.m_from_l.len(), 2);
    assert_eq!(d.m_from_l.get(&6), Some(&2));
    assert_eq!(d.m_from_l.get(&5), Some(&3));
    assert_eq!(d.m_from_r.get(&3), Some(&5));
    assert!(!adm_graph.candidates.contains(&1));
}

#[test]
fn a_check_below_budget_p_admits_the_vertex() {
    let graph = graph_of(&[(1, 2), (1, 3), (1, 4), (2, 5), (2, 6), (3, 5)]);
    let mut adm_graph = AdmGraph::new(&graph);
    for v in [2u32, 3] {
        adm_graph.l.remove(&v);
        adm_graph.r.insert(v);
    }
    for (u, d) in adm_graph.adm_data.iter_mut() {
        for v in [2u32, 3] {
            if d.n_in_l.contains(&v) {
                d.move_v_in_l_to_r(&v);
            }
        }
        if *u == 2 || *u == 3 {
            d.delete_m();
        }
    }
    adm_graph.adm_data.get_mut(&1).unwrap().add_edges_to_m(5, 2);
    adm_graph.candidates.insert(4);

    assert_eq!(adm_graph.remove_v_from_candidates(2), Some(4));

    let d = adm_graph.adm_data.get(&1).unwrap();
    assert_eq!(d.m_from_l.len(), 1);
    assert!(adm_graph.candidates.contains(&1));
}

#[test]
fn update_n1_of_v_after_v_moved_matches_each_neighbour_through_v() {
    let graph = graph_of(&[(1, 2), (1, 3), (1, 4), (2, 5), (2, 6)]);
    let mut adm_graph = AdmGraph::new(&graph);
    adm_graph.l.remove(&1);
    adm_graph.r.insert(1);

    adm_graph.update_n1_of_v(1);

    let d = adm_graph.adm_data.get(&2).unwrap();
    assert_eq!(d.n_in_l, [5, 6].iter().cloned().collect());
    assert_eq!(d.n_in_r, [1].iter().cloned().collect());
    assert_eq!(d.m_from_l.len(), 1);
    let (w, y) = d.m_from_l.iter().next().unwrap();
    assert!(*w == 3 || *w == 4);
    assert_eq!(*y, 1);
    assert_eq!(d.m_from_r.get(&1), Some(w));
    for u in [2u32, 3, 4] {
        assert!(adm_graph.checks.contains(&u));
        assert!(!adm_graph.adm_data.get(&u).unwrap().n_in_l.contains(&1));
    }
    for u in [5u32, 6] {
        assert!(adm_graph.adm_data.get(&u).unwrap().m_from_l.is_empty());
    }
}

#[test]
fn update_l2_of_v_after_v_moved_replaces_the_pairs_that_held_v() {
    let graph = graph_of(&[(1, 2), (1, 3), (1, 4), (4, 5), (5, 6), (5, 7), (4, 8)]);
    let mut adm_graph = AdmGraph::new(&graph);

    // 4 moves first: 1, 5 and 8 each match one other neighbour of 4 through 4.
    adm_graph.l.remove(&4);
    adm_graph.r.insert(4);
    adm_graph.update_n1_of_v(4);
    adm_graph.update_l2_of_v(4);
    adm_graph.adm_data.get_mut(&4).unwrap().delete_m();
    adm_graph.checks.clear();
    for u in [1u32, 5, 8] {
        assert_eq!(adm_graph.adm_data.get(&u).unwrap().m_from_l.len(), 1);
    }

    // Then 1 moves: whoever matched 1 through 4 matches another vertex instead.
    adm_graph.l.remove(&1);
    adm_graph.r.insert(1);
    adm_graph.update_n1_of_v(1);
    adm_graph.update_l2_of_v(1);

    for d in adm_graph.adm_data.values() {
        assert!(!d.m_from_l.contains_key(&1));
    }
    let m5 = &adm_graph.adm_data.get(&5).unwrap().m_from_l;
    assert_eq!(m5.len(), 1);
    assert_eq!(m5.get(&8), Some(&4));
    let m8 = &adm_graph.adm_data.get(&8).unwrap().m_from_l;
    assert_eq!(m8.len(), 1);
    assert_eq!(m8.get(&5), Some(&4));
}

#[test]
fn remove_v_from_candidates_without_candidates_changes_nothing() {
    let graph = graph_of(&[(1, 2), (1, 3), (2, 3)]);
    let mut adm_graph = AdmGraph::new(&graph);
    adm_graph.initialise_candidates(1);

    assert_eq!(adm_graph.remove_v_from_candidates(1), None);
    for d in adm_graph.adm_data.values() {
        assert_eq!(d.n_in_l.len(), 2);
        assert!(d.m_from_l.is_empty());
        assert!(!d.deleted_m);
    }
}
