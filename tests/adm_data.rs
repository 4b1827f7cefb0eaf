use admissibility::adm_data::AdmData;
use admissibility::augmenting_path::MatchingEdges;
use std::collections::HashMap;

#[test]
fn delete_m_should_reset_m() {
    let neighbours = [2, 3, 4, 5].iter().cloned().collect();
    let mut v = AdmData::new(1, neighbours);
    v.m_from_l.insert(6, 7);
    v.m_from_l.insert(9, 10);
    v.m_from_r.insert(7, 6);
    v.m_from_r.insert(10, 9);

    v.delete_m();

    assert!(v.deleted_m);
    assert_eq!(v.m_from_l.len(), 0);
    assert_eq!(v.m_from_r.len(), 0);
}

#[test]
fn remove_v_from_m_should_remove_v_as_an_l2_of_m() {
    let neighbours = [2, 3, 4, 5].iter().cloned().collect();
    let mut v = AdmData::new(1, neighbours);
    v.m_from_l.insert(6, 7);
    v.m_from_l.insert(9, 10);
    v.m_from_r.insert(7, 6);
    v.m_from_r.insert(10, 9);

    assert!(v.remove_v_from_m(6).is_some());
    assert!(!v.m_from_l.contains_key(&6));
    assert!(!v.m_from_r.contains_key(&7));
}

#[test]
fn remove_v_from_m_should_return_none_if_v_is_not_in_m() {
    let neighbours = [2, 3, 4, 5].iter().cloned().collect();
    let mut v = AdmData::new(1, neighbours);
    v.m_from_l.insert(6, 7);
    v.m_from_l.insert(9, 10);
    v.m_from_r.insert(7, 6);
    v.m_from_r.insert(10, 9);

    assert!(v.remove_v_from_m(0).is_none());
}

#[test]
fn move_v_in_l_to_r_should_remove_vertex_in_l_and_add_to_r() {
    let neighbours = [2, 3, 4, 5].iter().cloned().collect();
    let mut v = AdmData::new(1, neighbours);

    v.move_v_in_l_to_r(&2);

    assert_eq!(v.n_in_l.len(), 3);
    assert_eq!(v.n_in_r.len(), 1);
}

#[test]
fn add_edges_to_m_should_add_edges_in_both_directions() {
    let neighbours = [2, 3, 4, 5].iter().cloned().collect();
    let mut v = AdmData::new(1, neighbours);

    v.add_edges_to_m(6, 7);

    assert!(v.m_from_l.contains_key(&6));
    assert!(v.m_from_r.contains_key(&7));
}

#[test]
fn update_m_should_add_and_remove_edges_in_m() {
    let neighbours = [2, 3, 4, 5].iter().cloned().collect();
    let mut v = AdmData::new(1, neighbours);
    v.m_from_l.insert(6, 7);
    v.m_from_r.insert(7, 6);

    let mut matching_edges = MatchingEdges {
        e_add: HashMap::new(),
        e_remove: HashMap::new(),
    };

    matching_edges.e_add.insert(10, 7);
    matching_edges.e_add.insert(6, 9);
    matching_edges.e_remove.insert(6, 7);

    v.update_m(&matching_edges);

    assert_eq!(v.m_from_l.len(), 2);
    assert_eq!(v.m_from_r.len(), 2);
    assert_eq!(*v.m_from_l.get(&10).unwrap(), 7);
    assert_eq!(*v.m_from_l.get(&6).unwrap(), 9);
    assert_eq!(*v.m_from_r.get(&7).unwrap(), 10);
    assert_eq!(*v.m_from_r.get(&9).unwrap(), 6);
}

#[test]
fn is_maximal_matching_size_p_should_check_if_len_l_and_m_is_p() {
    let neighbours = [2, 3, 4, 5].iter().cloned().collect();
    let mut v = AdmData::new(1, neighbours);
    v.m_from_l.insert(6, 7);
    v.m_from_l.insert(9, 10);
    v.m_from_r.insert(7, 6);
    v.m_from_r.insert(10, 9);

    assert!(!v.is_maximal_matching_size_p(5));
    assert!(v.is_maximal_matching_size_p(6));
    assert!(v.is_maximal_matching_size_p(7));
}

#[test]
fn can_add_vertex_in_l_to_m_returns_false_if_v_is_in_l() {
    let neighbours = [2, 3, 4, 5].iter().cloned().collect();
    let v = AdmData::new(1, neighbours);

    assert!(!v.can_add_vertex_in_l_to_m(&2));
}

#[test]
fn can_add_vertex_in_l_to_m_returns_false_if_v_has_same_id_as_self() {
    let neighbours = [2, 3, 4, 5].iter().cloned().collect();
    let v = AdmData::new(1, neighbours);

    assert!(!v.can_add_vertex_in_l_to_m(&1));
}

#[test]
fn can_add_vertex_in_l_to_m_returns_false_if_v_is_in_m() {
    let neighbours = [2, 3, 4, 5].iter().cloned().collect();
    let mut v = AdmData::new(1, neighbours);
    v.m_from_l.insert(6, 7);
    v.m_from_r.insert(7, 6);

    assert!(!v.can_add_vertex_in_l_to_m(&6));
}

#[test]
fn can_add_vertex_in_l_to_m_returns_false_if_v_is_not_in_m_or_l() {
    let neighbours = [2, 3, 4, 5].iter().cloned().collect();
    let mut v = AdmData::new(1, neighbours);
    v.m_from_l.insert(6, 7);
    v.m_from_r.insert(7, 6);

    assert!(v.can_add_vertex_in_l_to_m(&8));
}

#[test]
fn first_addable_skips_neighbours_matched_vertices_and_the_excluded_one() {
    let neighbours = [2, 3].iter().cloned().collect();
    let mut v = AdmData::new(1, neighbours);
    v.add_edges_to_m(6, 7);

    assert_eq!(v.first_addable(&vec![1, 2, 6, 8, 9], 8), Some(9));
    assert_eq!(v.first_addable(&vec![1, 2, 6], 0), None);
}

#[test]
fn update_m_along_a_longer_path_grows_the_matching_by_one() {
    let neighbours = [2].iter().cloned().collect();
    let mut v = AdmData::new(1, neighbours);
    v.add_edges_to_m(10, 20);
    v.add_edges_to_m(11, 21);

    let mut edges = MatchingEdges {
        e_add: HashMap::new(),
        e_remove: HashMap::new(),
    };
    edges.e_remove.insert(10, 20);
    edges.e_remove.insert(11, 21);
    edges.e_add.insert(12, 20);
    edges.e_add.insert(10, 21);
    edges.e_add.insert(11, 22);

    v.update_m(&edges);

    assert_eq!(v.m_from_l.len(), 3);
    assert_eq!(v.m_from_l.get(&12), Some(&20));
    assert_eq!(v.m_from_l.get(&10), Some(&21));
    assert_eq!(v.m_from_l.get(&11), Some(&22));
    assert_eq!(v.m_from_r.get(&22), Some(&11));
    assert_eq!(v.m_from_r.get(&20), Some(&12));
}
