//! Runs of the engine: an ordering for a given `p`, and the search for the
//! smallest `p` that admits one.
use crate::adm_graph::AdmGraph;
use crate::graph::adjacency;
use crate::sets::set_elements;
use graphbench::editgraph::EditGraph;
use graphbench::graph::Vertex;
use vstd::prelude::*;

verus! {

broadcast use vstd::std_specs::hash::group_hash_axioms;

/// Every vertex of `g` has at most `p` neighbours.
pub open spec fn max_degree_at_most(g: EditGraph, p: usize) -> bool {
    forall|u: Vertex| #[trigger]
        adjacency(g).dom().contains(u) ==> adjacency(g)[u].len() <= p
}

/// `m` pairs vertices `a` of `x` with vertices `b` outside `x`, each `b`
/// used once, so that each pair is a route `u - b - a` of length two from
/// `u` back into `x` through a neighbour `b` of `u`, with `a` other than `u`
/// and not a neighbour of `u`.
pub open spec fn routes_into(
    adj: Map<Vertex, Set<Vertex>>,
    x: Set<Vertex>,
    u: Vertex,
    m: Map<Vertex, Vertex>,
) -> bool {
    &&& m.dom().finite()
    &&& forall|a: Vertex| #[trigger]
        m.contains_key(a) ==> {
            &&& x.contains(a)
            &&& a != u
            &&& !adj[u].contains(a)
            &&& adj[u].contains(m[a])
            &&& !x.contains(m[a])
            &&& adj[a].contains(m[a])
        }
    &&& forall|a1: Vertex, a2: Vertex|
        #![trigger m[a1], m[a2]]
        m.contains_key(a1) && m.contains_key(a2) && a1 != a2 ==> m[a1] != m[a2]
}

/// `x` is a non-empty set of vertices none of which can come next: each `u`
/// of `x` has more than `p` disjoint routes of length at most two into `x`,
/// counting its neighbours in `x` and the routes of some `routes_into`.
pub open spec fn blocked(adj: Map<Vertex, Set<Vertex>>, x: Set<Vertex>, p: usize) -> bool {
    &&& exists|u: Vertex| x.contains(u)
    &&& forall|u: Vertex| #[trigger]
        x.contains(u) ==> exists|m: Map<Vertex, Vertex>|
            routes_into(adj, x, u, m) && adj[u].intersect(x).len() + m.len() > p
}

/// `g` has a vertex, and every vertex of `g` has more than `p` neighbours.
pub open spec fn min_degree_above(g: EditGraph, p: usize) -> bool {
    &&& exists|u: Vertex| adjacency(g).dom().contains(u)
    &&& forall|u: Vertex| #[trigger]
        adjacency(g).dom().contains(u) ==> adjacency(g)[u].len() > p
}

/// Runs the engine for `p` on `graph`. On success, returns the vertices in
/// the order in which they entered R, followed by the candidates left in L:
/// every vertex once. Returns `None` when the engine runs out of candidates
/// while L still holds other vertices; the vertices left in L then form a
/// `blocked` set. It succeeds when no vertex has more than `p` neighbours,
/// and fails when every vertex has more.
pub fn compute_ordering(p: usize, graph: &EditGraph) -> (r: Option<Vec<Vertex>>)
    ensures
        r matches Some(order) ==> {
            &&& order@.no_duplicates()
            &&& order@.to_set() == adjacency(*graph).dom()
        },
        max_degree_at_most(*graph, p) ==> r is Some,
        r is None ==> exists|x: Set<Vertex>| blocked(adjacency(*graph), x, p),
        min_degree_above(*graph, p) ==> r is None,
{
    let mut adm_graph = AdmGraph::new(graph);
    proof {
        assert forall|u: Vertex| #[trigger]
            adm_graph.vertices().contains(u) implies adm_graph.adm_data@[u].n_in_l@ == adjacency(
            *graph,
        )[u] by {
            assert(adm_graph.vertex_ok(
                u,
                adm_graph.l@,
                adm_graph.r@,
                adm_graph.l@,
                adm_graph.r@,
                adm_graph.r@,
            ));
            assert forall|w: Vertex| adjacency(*graph)[u].contains(w) implies adm_graph.l@.contains(
                w,
            ) by {}
            assert(adm_graph.adm_data@[u].n_in_l@ =~= adjacency(*graph)[u]);
        }
    }
    adm_graph.initialise_candidates(p);
    proof {
        if min_degree_above(*graph, p) {
            assert forall|u: Vertex| !#[trigger] adm_graph.candidates@.contains(u) by {
                if adm_graph.candidates@.contains(u) {
                    assert(adm_graph.low_degree(p).contains(u));
                }
            }
            assert(adm_graph.candidates@ =~= Set::empty());
        }
        if max_degree_at_most(*graph, p) {
            assert(adm_graph.l@.subset_of(adm_graph.candidates@));
        }
    }
    let ghost r_init = adm_graph.r@;
    let mut next_vertex = adm_graph.remove_v_from_candidates(p);
    let mut order: Vec<Vertex> = Vec::new();
    proof {
        assert(r_init.is_empty());
        vstd::set_lib::lemma_len_subset(adm_graph.l@, adm_graph.vertices());
        match next_vertex {
            Some(v) => {
                Seq::<Vertex>::empty().lemma_push_to_set_commute(v);
                assert(Seq::<Vertex>::empty().push(v).to_set() =~= adm_graph.r@);
            },
            None => {
                assert(Seq::<Vertex>::empty().to_set() =~= adm_graph.r@);
            },
        }
    }
    while next_vertex.is_some() && !adm_graph.is_all_vertices_in_r_or_candidates()
        invariant
            adm_graph.wf(),
            adm_graph.checks@.is_empty(),
            adm_graph.candidates_within(p),
            adm_graph.pending_above(p),
            next_vertex is None ==> adm_graph.candidates@.is_empty(),
            min_degree_above(*graph, p) ==> next_vertex is None && adm_graph.l@
                == adjacency(*graph).dom(),
            adm_graph.graph == graph,
            adm_graph.l@.finite(),
            max_degree_at_most(*graph, p) ==> adm_graph.l@.subset_of(adm_graph.candidates@),
            ({
                let moved = match next_vertex {
                    Some(v) => order@.push(v),
                    None => order@,
                };
                &&& moved.no_duplicates()
                &&& moved.to_set() == adm_graph.r@
            }),
        decreases adm_graph.l@.len() + if next_vertex is Some {
            1int
        } else {
            0int
        },
    {
        let v = next_vertex.unwrap();
        order.push(v);
        let ghost r0 = adm_graph.r@;
        next_vertex = adm_graph.remove_v_from_candidates(p);
        proof {
            vstd::set_lib::lemma_len_subset(adm_graph.l@, adm_graph.vertices());
            match next_vertex {
                Some(w) => {
                    assert(!r0.contains(w));
                    assert(!order@.contains(w));
                    order@.lemma_push_to_set_commute(w);
                    assert forall|a: int, b: int|
                        0 <= a < order@.push(w).len() && 0 <= b < order@.push(w).len() && a != b
                            implies order@.push(w)[a] != order@.push(w)[b] by {
                        if b == order@.len() as int {
                            assert(order@.contains(order@[a]));
                        } else if a == order@.len() as int {
                            assert(order@.contains(order@[b]));
                        }
                    }
                },
                None => {},
            }
        }
    }
    match next_vertex {
        Some(v) => {
            order.push(v);
        },
        None => {},
    }
    proof {
        if min_degree_above(*graph, p) {
            let u = choose|u: Vertex| adjacency(*graph).dom().contains(u);
            assert(adm_graph.l@.contains(u) && !adm_graph.candidates@.contains(u));
        }
    }
    if adm_graph.is_all_vertices_in_r_or_candidates() {
        let rest = set_elements(&adm_graph.candidates);
        let ghost head = order@;
        let mut i: usize = 0;
        while i < rest.len()
            invariant
                adm_graph.wf(),
                adm_graph.l@ == adm_graph.candidates@,
                rest@.to_set() == adm_graph.candidates@,
                rest@.no_duplicates(),
                head.no_duplicates(),
                head.to_set() == adm_graph.r@,
                0 <= i <= rest.len(),
                order@ == head + rest@.take(i as int),
            decreases rest.len() - i,
        {
            order.push(rest[i]);
            i = i + 1;
        }
        proof {
            assert(rest@.take(rest@.len() as int) =~= rest@);
            assert(order@.to_set() =~= adm_graph.r@.union(adm_graph.l@)) by {
                assert forall|x: Vertex| order@.to_set().contains(x) implies adm_graph.r@.union(
                    adm_graph.l@,
                ).contains(x) by {
                    let k = choose|k: int| 0 <= k < order@.len() && order@[k] == x;
                    if k < head.len() {
                        assert(head.to_set().contains(head[k]));
                    } else {
                        assert(rest@.to_set().contains(rest@[k - head.len()]));
                    }
                }
                assert forall|x: Vertex| adm_graph.r@.union(adm_graph.l@).contains(x) implies order@.to_set().contains(x) by {
                    if head.to_set().contains(x) {
                        let k = choose|k: int| 0 <= k < head.len() && head[k] == x;
                        assert(order@[k] == x);
                    } else {
                        assert(rest@.to_set().contains(x));
                        let k = choose|k: int| 0 <= k < rest@.len() && rest@[k] == x;
                        assert(order@[head.len() + k] == x);
                    }
                }
            }
            assert forall|a: int, b: int|
                0 <= a < order@.len() && 0 <= b < order@.len() && a != b implies order@[a]
                    != order@[b] by {
                if a < head.len() && b >= head.len() {
                    assert(head.to_set().contains(head[a]));
                    assert(rest@.to_set().contains(rest@[b - head.len()]));
                } else if b < head.len() && a >= head.len() {
                    assert(head.to_set().contains(head[b]));
                    assert(rest@.to_set().contains(rest@[a - head.len()]));
                } else if a >= head.len() && b >= head.len() {
                    assert(rest@[a - head.len()] != rest@[b - head.len()]);
                }
            }
        }
        Some(order)
    } else {
        proof {
            let x = adm_graph.l@;
            let u0 = choose|u: Vertex| x.contains(u) && !adm_graph.candidates@.contains(u);
            assert forall|u: Vertex| #[trigger] x.contains(u) implies exists|m: Map<Vertex, Vertex>|
                routes_into(adjacency(*graph), x, u, m) && adjacency(*graph)[u].intersect(x).len()
                    + m.len() > p by {
                let d = adm_graph.adm_data@[u];
                assert(adm_graph.vertex_ok(
                    u,
                    adm_graph.l@,
                    adm_graph.r@,
                    adm_graph.l@,
                    adm_graph.r@,
                    adm_graph.r@,
                ));
                assert(d.budget() > p);
                let m = d.m_from_l@;
                assert forall|a1: Vertex, a2: Vertex|
                    #![trigger m[a1], m[a2]]
                    m.contains_key(a1) && m.contains_key(a2) && a1 != a2 implies m[a1] != m[a2] by {
                    assert(d.m_from_r@[m[a1]] == a1);
                    assert(d.m_from_r@[m[a2]] == a2);
                }
                assert(routes_into(adjacency(*graph), x, u, m));
            }
            assert(blocked(adjacency(*graph), x, p));
        }
        None
    }
}

/// The next value of `p` to try in the search, or -1 when the search is
/// over. While no `p` has succeeded the search doubles `p`; after that it
/// halves the gap between the smallest success `lowest_p` (or the current
/// `p`) and the largest failure `highest_not_p`, where -1 stands for none yet.
pub open spec fn next_p_spec(p: int, is_p: bool, lowest_p: int, highest_not_p: int) -> int {
    if (p - highest_not_p <= 1 && is_p) || p - lowest_p == 1 || lowest_p - p == 1 {
        -1
    } else if lowest_p == -1 && !is_p {
        p * 2
    } else {
        let x = if p >= lowest_p {
            p
        } else {
            lowest_p
        };
        half_toward_zero(x + highest_not_p)
    }
}

/// `s / 2` rounded toward zero, as integer division does in Rust.
pub open spec fn half_toward_zero(s: int) -> int {
    if s >= 0 {
        s / 2
    } else {
        -((-s) / 2)
    }
}

/// The next value of `p` to try, as `next_p_spec` says.
pub fn next_p_value(p: i32, is_p: bool, lowest_p: i32, highest_not_p: i32) -> (r: i32)
    requires
        p >= 0,
        lowest_p >= -1,
        highest_not_p >= -1,
        lowest_p == -1 && !is_p ==> p * 2 <= i32::MAX,
    ensures
        r == next_p_spec(p as int, is_p, lowest_p as int, highest_not_p as int),
{
    let p64 = p as i64;
    let lowest64 = lowest_p as i64;
    let highest64 = highest_not_p as i64;
    if (p64 - highest64 <= 1 && is_p) || p64 - lowest64 == 1 || lowest64 - p64 == 1 {
        return -1;
    }
    if lowest_p == -1 && !is_p {
        return p * 2;
    }
    let x = if p64 >= lowest64 {
        p64
    } else {
        lowest64
    };
    ((x + highest64) / 2) as i32
}

/// The largest start value for `p`, and the largest degree, for which the
/// search below can double `p` without overflow.
pub const MAX_SEARCH_P: i32 = 1073741823;

/// Searches for the smallest `p` at which `compute_ordering` succeeds: from
/// `start_p` it doubles `p` until a run succeeds, then bisects between the
/// largest failure and the smallest success until they are one apart.
/// Returns that smallest success and its ordering; one below it, the
/// engine failed on a `blocked` set.
pub fn search_p(graph: &EditGraph, start_p: i32) -> (r: (i32, Option<Vec<Vertex>>))
    requires
        1 <= start_p <= MAX_SEARCH_P,
        max_degree_at_most(*graph, MAX_SEARCH_P as usize),
    ensures
        r.0 >= 0,
        r.1 matches Some(order) && order@.no_duplicates() && order@.to_set() == adjacency(
            *graph,
        ).dom(),
        r.0 == 0 || exists|x: Set<Vertex>| #[trigger] blocked(adjacency(*graph), x, (r.0 - 1) as usize),
{
    let mut lowest_p: i32 = -1;
    let mut highest_not_p: i32 = -1;
    let mut best_order: Option<Vec<Vertex>> = None;
    let mut p: i32 = start_p;
    loop
        invariant_except_break
            max_degree_at_most(*graph, MAX_SEARCH_P as usize),
            0 <= p,
            -1 <= highest_not_p < p,
            lowest_p == -1 ==> 1 <= p <= MAX_SEARCH_P * 2 && best_order is None,
            lowest_p != -1 ==> p < lowest_p <= MAX_SEARCH_P * 2,
            best_order matches Some(order) ==> order@.no_duplicates() && order@.to_set()
                == adjacency(*graph).dom(),
            lowest_p != -1 ==> best_order is Some,
            highest_not_p >= 0 ==> exists|x: Set<Vertex>|
                #[trigger] blocked(adjacency(*graph), x, highest_not_p as usize),
        ensures
            p == 0 || exists|x: Set<Vertex>| #[trigger] blocked(adjacency(*graph), x, (p - 1) as usize),
            p >= 0,
            best_order matches Some(order) && order@.no_duplicates() && order@.to_set()
                == adjacency(*graph).dom(),
        decreases if lowest_p == -1 {
            5 * (MAX_SEARCH_P as int) - (p as int)
        } else {
            (lowest_p as int) - (highest_not_p as int)
        },
    {
        let result = compute_ordering(p as usize, graph);
        let mut found_better = false;
        match result {
            Some(order) => {
                assert(lowest_p == -1 || p < lowest_p);
                lowest_p = p;
                best_order = Some(order);
                found_better = true;
            },
            None => {
                assert(p > highest_not_p);
                proof {
                    let u = choose|u: Vertex|
                        adjacency(*graph).dom().contains(u) && !(adjacency(*graph)[u].len()
                            <= p as usize);
                    assert(adjacency(*graph)[u].len() <= MAX_SEARCH_P as usize);
                }
                proof {
                    assert(exists|x: Set<Vertex>| #[trigger] blocked(adjacency(*graph), x, p as usize));
                }
                highest_not_p = p;
            },
        }
        let next_p = next_p_value(p, found_better, lowest_p, highest_not_p);
        if next_p == -1 {
            let ghost p_run = p;
            if !found_better {
                p = lowest_p;
            }
            proof {
                if p != 0 {
                    if found_better {
                        assert(highest_not_p == p - 1);
                    } else {
                        assert(lowest_p == p_run + 1);
                        assert(highest_not_p == p - 1);
                    }
                    let x = choose|x: Set<Vertex>|
                        #[trigger] blocked(adjacency(*graph), x, highest_not_p as usize);
                    assert(blocked(adjacency(*graph), x, (p - 1) as usize));
                }
            }
            break;
        }
        p = next_p;
    }
    (p, best_order)
}

} // verus!
