//! The engine: the partition into L and R, the state of every vertex, and the
//! candidates that may move from L to R next.
use crate::adm_data::{inverse_maps, AdmData};
use crate::augmenting_path::{
    chunk_pairs, chunk_pairs_rev, lemma_chunk_pairs, lemma_chunk_pairs_rev, AugmentingPath,
};
use crate::graph::{adjacency, adjacent, is_edge_to, neighbours_of, vertices_of};
use crate::sets::{any_element, map_keys, set_elements, set_of};
use graphbench::editgraph::EditGraph;
use graphbench::graph::Vertex;
use std::collections::{HashMap, HashSet};
use vstd::prelude::*;

verus! {

broadcast use vstd::std_specs::hash::group_hash_axioms;

/// The state of one ordering run on `graph`: the sides L and R, the
/// candidates that may move to R next, the vertices to check again before the
/// next move, and the state of every vertex.
pub struct AdmGraph<'a> {
    pub graph: &'a EditGraph,
    pub l: HashSet<Vertex>,
    pub r: HashSet<Vertex>,
    pub checks: HashSet<Vertex>,
    pub candidates: HashSet<Vertex>,
    pub adm_data: HashMap<Vertex, AdmData>,
}

impl<'a> AdmGraph<'a> {
    /// The neighbour sets of the graph.
    pub open spec fn adj(&self) -> Map<Vertex, Set<Vertex>> {
        adjacency(*self.graph)
    }

    pub open spec fn vertices(&self) -> Set<Vertex> {
        self.adj().dom()
    }

    /// The graph is finite, and its edges go both ways between vertices.
    pub open spec fn graph_ok(&self) -> bool {
        &&& self.vertices().finite()
        &&& forall|u: Vertex, w: Vertex|
            self.vertices().contains(u) ==> (#[trigger] self.adj()[u].contains(w) <==> is_edge_to(
                *self.graph,
                w,
                u,
            ))
    }

    /// The state of `u` is well formed, and splits its neighbours between the
    /// sides `l` and `r`.
    pub open spec fn state_ok(&self, u: Vertex, l: Set<Vertex>, r: Set<Vertex>) -> bool {
        let d = self.adm_data@[u];
        &&& self.adm_data@.contains_key(u)
        &&& d.id == u
        &&& d.wf()
        &&& d.n_in_l@ == self.adj()[u].intersect(l)
        &&& d.n_in_r@ == self.adj()[u].intersect(r)
    }

    /// Each pair `x -> y` of the matching of `u` runs from a vertex of `ml` to a
    /// vertex of `mr` that is a neighbour of both `u` and `x`.
    pub open spec fn matching_within(&self, u: Vertex, ml: Set<Vertex>, mr: Set<Vertex>) -> bool {
        let m = self.adm_data@[u].m_from_l@;
        forall|x: Vertex| #[trigger]
            m.contains_key(x) ==> {
                &&& ml.contains(x)
                &&& mr.contains(m[x])
                &&& self.adm_data@[u].n_in_r@.contains(m[x])
                &&& self.adj()[x].contains(m[x])
            }
    }

    /// The state of `u` agrees with the sides `l` and `r`, its matching runs
    /// from `ml` to `mr`, and it is deleted exactly when `u` is in `del`.
    pub open spec fn vertex_ok(
        &self,
        u: Vertex,
        l: Set<Vertex>,
        r: Set<Vertex>,
        ml: Set<Vertex>,
        mr: Set<Vertex>,
        del: Set<Vertex>,
    ) -> bool {
        &&& self.state_ok(u, l, r)
        &&& self.matching_within(u, ml, mr)
        &&& (self.adm_data@[u].deleted_m <==> del.contains(u))
    }

    /// The engine is consistent, with every vertex state as `vertex_ok` says.
    pub open spec fn engine_ok(
        &self,
        l: Set<Vertex>,
        r: Set<Vertex>,
        ml: Set<Vertex>,
        mr: Set<Vertex>,
        del: Set<Vertex>,
    ) -> bool {
        &&& self.graph_ok()
        &&& self.adm_data@.dom() == self.vertices()
        &&& self.l@.disjoint(self.r@)
        &&& self.l@.union(self.r@) == self.vertices()
        &&& self.candidates@.subset_of(self.l@)
        &&& self.checks@.subset_of(self.l@)
        &&& forall|u: Vertex|
            #![trigger self.adm_data@[u]]
            self.vertices().contains(u) ==> self.vertex_ok(u, l, r, ml, mr, del)
    }

    /// L and R split the vertices, candidates and checks lie in L, every
    /// vertex state agrees with the partition, each matching runs from L to
    /// R, and a vertex has its matching deleted exactly when it is in R.
    pub open spec fn wf(&self) -> bool {
        self.engine_ok(self.l@, self.r@, self.l@, self.r@, self.r@)
    }

    /// Every candidate has a local budget of at most `p`.
    pub open spec fn candidates_within(&self, p: usize) -> bool {
        forall|u: Vertex| #[trigger]
            self.candidates@.contains(u) ==> self.adm_data@[u].budget() <= p
    }

    /// Every vertex of L that is neither a candidate nor marked for a check
    /// has a budget above `p`.
    pub open spec fn pending_above(&self, p: usize) -> bool {
        forall|u: Vertex| #[trigger]
            self.l@.contains(u) && !self.candidates@.contains(u) && !self.checks@.contains(u)
                ==> self.adm_data@[u].budget() > p
    }

    /// No local budget is larger than it was in `before`.
    pub open spec fn budgets_not_above(&self, before: &Self) -> bool {
        forall|u: Vertex| #[trigger]
            before.vertices().contains(u) ==> self.adm_data@[u].budget()
                <= before.adm_data@[u].budget()
    }

    /// No matching holds the pair `v -> v`.
    pub open spec fn no_loop_pair(&self, v: Vertex) -> bool {
        forall|u: Vertex| #[trigger]
            self.adm_data@.contains_key(u) ==> !(self.adm_data@[u].m_from_l@.contains_key(v)
                && self.adm_data@[u].m_from_l@[v] == v)
    }

    /// All vertices start in L, each with its neighbours in L and nothing matched.
    pub fn new(graph: &'a EditGraph) -> (r: Self)
        ensures
            r.wf(),
            r.graph == graph,
            r.l@ == adjacency(*graph).dom(),
            r.r@.is_empty(),
            r.checks@.is_empty(),
            r.candidates@.is_empty(),
            forall|u: Vertex| #[trigger]
                r.vertices().contains(u) ==> r.adm_data@[u].m_from_l@.is_empty(),
    {
        let vs = vertices_of(graph);
        let l = set_of(&vs);
        let mut adm_data: HashMap<Vertex, AdmData> = HashMap::new();
        let ghost g = adjacency(*graph);
        let mut i: usize = 0;
        while i < vs.len()
            invariant
                g == adjacency(*graph),
                vs@.to_set() == g.dom(),
                0 <= i <= vs.len(),
                adm_data@.dom() == vs@.take(i as int).to_set(),
                forall|u: Vertex| #[trigger]
                    adm_data@.contains_key(u) ==> {
                        let d = adm_data@[u];
                        &&& d.id == u
                        &&& d.wf()
                        &&& d.n_in_l@ == g[u]
                        &&& d.n_in_r@.is_empty()
                        &&& !d.deleted_m
                        &&& d.m_from_l@.is_empty()
                        &&& forall|w: Vertex| #[trigger]
                            g[u].contains(w) <==> is_edge_to(*graph, w, u)
                    },
            decreases vs.len() - i,
        {
            let u = vs[i];
            assert(g.dom().contains(u)) by {
                assert(vs@.to_set().contains(vs@[i as int]));
            }
            let nbrs = neighbours_of(graph, u);
            let d = AdmData::new(u, set_of(&nbrs));
            proof {
                assert(vs@.take(i as int + 1) =~= vs@.take(i as int).push(u));
                vs@.take(i as int).lemma_push_to_set_commute(u);
                assert forall|w: Vertex| #[trigger] g[u].contains(w) <==> is_edge_to(*graph, w, u) by {
                    assert(nbrs@.to_set().contains(w) <==> nbrs@.contains(w));
                }
            }
            adm_data.insert(u, d);
            i = i + 1;
        }
        proof {
            assert(vs@.take(vs@.len() as int) =~= vs@);
            vstd::seq_lib::seq_to_set_is_finite(vs@);
        }
        let r = AdmGraph {
            graph,
            l,
            r: HashSet::new(),
            checks: HashSet::new(),
            candidates: HashSet::new(),
            adm_data,
        };
        proof {
            assert forall|u: Vertex| #[trigger]
                r.vertices().contains(u) implies r.state_ok(u, r.l@, r.r@) by {
                assert(r.adj()[u].intersect(r.l@) =~= r.adj()[u]);
                assert(r.adj()[u].intersect(r.r@) =~= Set::empty());
            }
            assert(r.graph_ok());
            assert(r.adm_data@.dom() =~= r.vertices());
            assert(r.l@.union(r.r@) =~= r.vertices());
            assert(r.l@.disjoint(r.r@));
            assert forall|u: Vertex| r.vertices().contains(u) implies r.matching_within(
                u,
                r.l@,
                r.r@,
            ) by {
                assert(r.adm_data@[u].m_from_l@.is_empty());
            }
        }
        r
    }

    /// The vertices of L whose number of neighbours in L is at most `p`.
    pub open spec fn low_degree(&self, p: usize) -> Set<Vertex> {
        self.l@.filter(|u: Vertex| self.adm_data@[u].n_in_l@.len() <= p)
    }

    /// Every vertex of L with at most `p` neighbours in L becomes a candidate.
    pub fn initialise_candidates(&mut self, p: usize)
        requires
            old(self).wf(),
        ensures
            final(self).wf(),
            final(self).candidates@ == old(self).candidates@.union(old(self).low_degree(p)),
            old(self).candidates_within(p) && old(self).r@.is_empty() ==> final(self).candidates_within(p),
            final(self).pending_above(p),
            final(self).graph == old(self).graph,
            final(self).l@ == old(self).l@,
            final(self).r@ == old(self).r@,
            final(self).checks@ == old(self).checks@,
            final(self).adm_data@ == old(self).adm_data@,
    {
        let keys = map_keys(&self.adm_data);
        let ghost c0 = self.candidates@;
        let mut i: usize = 0;
        while i < keys.len()
            invariant
                old(self).wf(),
                keys@.to_set() == self.adm_data@.dom(),
                0 <= i <= keys.len(),
                self.graph == old(self).graph,
                self.l@ == old(self).l@,
                self.r@ == old(self).r@,
                self.checks@ == old(self).checks@,
                self.adm_data@ == old(self).adm_data@,
                c0 == old(self).candidates@,
                self.candidates@ == c0.union(
                    old(self).low_degree(p).intersect(keys@.take(i as int).to_set()),
                ),
            decreases keys.len() - i,
        {
            let u = keys[i];
            assert(self.adm_data@.contains_key(u)) by {
                assert(keys@.to_set().contains(keys@[i as int]));
            }
            proof {
                assert(keys@.take(i as int + 1) =~= keys@.take(i as int).push(u));
                keys@.take(i as int).lemma_push_to_set_commute(u);
            }
            if self.adm_data.get(&u).unwrap().n_in_l.len() <= p && self.l.contains(&u) {
                self.candidates.insert(u);
            }
            assert(self.candidates@ =~= c0.union(
                old(self).low_degree(p).intersect(keys@.take(i as int + 1).to_set()),
            ));
            i = i + 1;
        }
        proof {
            assert(keys@.take(keys@.len() as int) =~= keys@);
            assert(old(self).low_degree(p).intersect(keys@.to_set()) =~= old(self).low_degree(p));
            assert forall|u: Vertex| #[trigger]
                self.l@.contains(u) && !self.candidates@.contains(u) && !self.checks@.contains(u)
                    implies self.adm_data@[u].budget() > p by {
                assert(!old(self).low_degree(p).contains(u));
            }
            if old(self).candidates_within(p) && old(self).r@.is_empty() {
                assert forall|u: Vertex| #[trigger]
                    self.candidates@.contains(u) implies self.adm_data@[u].budget() <= p by {
                    if !old(self).candidates@.contains(u) {
                        assert(self.vertex_ok(u, self.l@, self.r@, self.l@, self.r@, self.r@));
                        assert(self.adm_data@[u].m_from_l@ =~= Map::empty());
                    }
                }
            }
        }
    }

    /// `v` has just moved from L to R: each neighbour of `v` moves `v` to its
    /// R side, and each neighbour in L tries to match a vertex of L next to
    /// `v` through `v`, and is checked again unless it is a candidate.
    pub fn update_n1_of_v(&mut self, v: Vertex)
        requires
            old(self).engine_ok(
                old(self).l@.insert(v),
                old(self).r@.remove(v),
                old(self).l@.insert(v),
                old(self).r@.remove(v),
                old(self).r@.remove(v),
            ),
            old(self).r@.contains(v),
        ensures
            final(self).engine_ok(
                final(self).l@,
                final(self).r@,
                final(self).l@.insert(v),
                final(self).r@,
                final(self).r@.remove(v),
            ),
            final(self).no_loop_pair(v),
            final(self).budgets_not_above(old(self)),
            old(self).candidates@.disjoint(old(self).checks@) ==> final(self).candidates@.disjoint(final(self).checks@),
            final(self).graph == old(self).graph,
            final(self).l@ == old(self).l@,
            final(self).r@ == old(self).r@,
            final(self).candidates@ == old(self).candidates@,
            old(self).checks@.subset_of(final(self).checks@),
            forall|u: Vertex| #[trigger]
                final(self).adj()[v].contains(u) && final(self).l@.contains(u)
                    && !final(self).candidates@.contains(u) ==> final(self).checks@.contains(u),
            forall|u: Vertex| #[trigger]
                old(self).vertices().contains(u) && !old(self).adj()[v].contains(u) ==> final(self).adm_data@[u] == old(self).adm_data@[u],
            forall|u: Vertex| #[trigger]
                old(self).adj()[v].contains(u) ==> n1_repaired(
                    old(self).adm_data@[u],
                    final(self).adm_data@[u],
                    v,
                    old(self).adm_data@[v].n_in_l@,
                ),
    {
        let ghost l = self.l@;
        let ghost r = self.r@;
        let ghost l0 = l.insert(v);
        let ghost r0 = r.remove(v);
        let n_in_l = set_elements(&self.adm_data.get(&v).unwrap().n_in_l);
        let nbrs = neighbours_of(self.graph, v);
        let mut i: usize = 0;
        while i < nbrs.len()
            invariant
                self.graph_ok(),
                self.adm_data@.dom() == self.vertices(),
                self.l@ == l,
                self.r@ == r,
                l0 == l.insert(v),
                r0 == r.remove(v),
                r.contains(v),
                l.disjoint(r),
                l.union(r) == self.vertices(),
                self.graph == old(self).graph,
                self.candidates@ == old(self).candidates@,
                self.candidates@.subset_of(l),
                self.checks@.subset_of(l),
                n_in_l@.to_set() == self.adj()[v].intersect(l0),
                nbrs@.to_set() == self.adj()[v],
                nbrs@.no_duplicates(),
                forall|w: Vertex| #[trigger] nbrs@.contains(w) <==> is_edge_to(*self.graph, w, v),
                0 <= i <= nbrs.len(),
                self.budgets_not_above(old(self)),
                self.vertices() == old(self).vertices(),
                self.adj() == old(self).adj(),
                old(self).adm_data@.dom() == self.vertices(),
                n_in_l@.to_set() == old(self).adm_data@[v].n_in_l@,
                forall|u: Vertex| #[trigger]
                    old(self).vertices().contains(u) && !nbrs@.take(i as int).contains(u) ==> self.adm_data@[u]
                        == old(self).adm_data@[u],
                forall|k: int|
                    0 <= k < i ==> n1_repaired(
                        old(self).adm_data@[#[trigger] nbrs@[k]],
                        self.adm_data@[nbrs@[k]],
                        v,
                        old(self).adm_data@[v].n_in_l@,
                    ),
                old(self).checks@.subset_of(self.checks@),
                forall|k: int|
                    0 <= k < i && l.contains(#[trigger] nbrs@[k]) && !self.candidates@.contains(
                        nbrs@[k],
                    ) ==> self.checks@.contains(nbrs@[k]),
                old(self).candidates@.disjoint(old(self).checks@) ==> self.candidates@.disjoint(
                    self.checks@,
                ),
                forall|u: Vertex|
                    #![trigger self.adm_data@[u]]
                    self.vertices().contains(u) ==> {
                        if nbrs@.take(i as int).contains(u) {
                            &&& self.vertex_ok(u, l, r, l0, r, r0)
                            &&& !(self.adm_data@[u].m_from_l@.contains_key(v)
                                && self.adm_data@[u].m_from_l@[v] == v)
                        } else {
                            self.vertex_ok(u, l0, r0, l0, r0, r0)
                        }
                    },
            decreases nbrs.len() - i,
        {
            let u = nbrs[i];
            proof {
                assert(nbrs@.contains(u));
                assert(nbrs@.take(i as int + 1) =~= nbrs@.take(i as int).push(u));
                assert(!nbrs@.take(i as int).contains(u)) by {
                    if nbrs@.take(i as int).contains(u) {
                        let j = choose|j: int| 0 <= j < i && nbrs@.take(i as int)[j] == u;
                        assert(nbrs@[j] == nbrs@[i as int]);
                    }
                }
                assert(self.vertex_ok(u, l0, r0, l0, r0, r0));
                assert(old(self).vertices().contains(u));
                assert(self.adm_data@[u].budget() <= old(self).adm_data@[u].budget());
            }
            let mut d = self.adm_data.remove(&u).unwrap();
            let ghost d0 = d;
            d.move_v_in_l_to_r(&v);
            let ghost mut added: Option<Vertex> = None;
            let ghost mut none_found = false;
            proof {
                assert(!nbrs@.take(i as int).contains(u));
                assert(d0 == old(self).adm_data@[u]);
                assert(self.adj()[u].contains(v));
                assert(d.n_in_l@ =~= self.adj()[u].intersect(l));
                assert(d.n_in_r@ =~= self.adj()[u].intersect(r));
            }
            if !d.deleted_m && u != v {
                match d.first_addable(&n_in_l, v) {
                    Some(w) => {
                        assert(d0.can_add_spec(w));
                        assert(!d.m_from_r@.contains_key(v)) by {
                            if d.m_from_r@.contains_key(v) {
                                let x = d.m_from_r@[v];
                                assert(d0.m_from_l@.contains_key(x));
                            }
                        }
                        d.add_edges_to_m(w, v);
                        proof {
                            added = Some(w);
                        }
                    },
                    None => {
                        proof {
                            none_found = true;
                            assert forall|w: Vertex|
                                old(self).adm_data@[v].n_in_l@.contains(w) && w != v
                                    implies !#[trigger] d0.can_add_spec(w) by {
                                assert(n_in_l@.to_set().contains(w));
                                assert(!d.can_add_spec(w));
                            }
                        }
                    },
                }
                if !self.candidates.contains(&u) {
                    self.checks.insert(u);
                }
            }
            proof {
                assert(l0.subset_of(self.vertices()));
                vstd::set_lib::lemma_len_subset(l0, self.vertices());
                assert(d0.n_in_l@.contains(v));
                assert(d.budget() <= d0.budget()) by {
                    match added {
                        Some(w) => {
                            assert(!d0.m_from_l@.contains_key(w));
                        },
                        None => {},
                    }
                }
                assert forall|x: Vertex| #[trigger] d.m_from_l@.contains_key(x) implies {
                    &&& l0.contains(x)
                    &&& r.contains(d.m_from_l@[x])
                    &&& d.n_in_r@.contains(d.m_from_l@[x])
                    &&& self.adj()[x].contains(d.m_from_l@[x])
                    &&& !(x == v && d.m_from_l@[x] == v)
                } by {
                    match added {
                        Some(w) => {
                            if x == w {
                                assert(n_in_l@.to_set().contains(w));
                                assert(self.adj()[v].contains(w));
                                assert(is_edge_to(*self.graph, w, v));
                            } else {
                                assert(d0.m_from_l@.contains_key(x));
                            }
                        },
                        None => {
                            assert(d0.m_from_l@.contains_key(x));
                        },
                    }
                }
            }
            self.adm_data.insert(u, d);
            proof {
                assert forall|u2: Vertex|
                    #![trigger self.adm_data@[u2]]
                    self.vertices().contains(u2) implies {
                    if nbrs@.take(i as int + 1).contains(u2) {
                        &&& self.vertex_ok(u2, l, r, l0, r, r0)
                        &&& !(self.adm_data@[u2].m_from_l@.contains_key(v)
                            && self.adm_data@[u2].m_from_l@[v] == v)
                    } else {
                        self.vertex_ok(u2, l0, r0, l0, r0, r0)
                    }
                } by {
                    if u2 == u {
                        assert(self.adm_data@[u2] == d);
                        assert(nbrs@.take(i as int + 1)[i as int] == u2);
                        assert(n1_repaired(d0, d, v, old(self).adm_data@[v].n_in_l@)) by {
                            assert(d0.id == u);
                            if !d0.deleted_m && u != v {
                                match added {
                                    Some(w) => {
                                        assert(n_in_l@.to_set().contains(w));
                                    },
                                    None => {
                                        assert(none_found);
                                    },
                                }
                            }
                        }
                        assert(old(self).vertices().contains(u2));
                        assert(d.budget() <= old(self).adm_data@[u2].budget());
                        assert(nbrs@.take(i as int + 1).contains(u2));
                    } else {
                        assert(nbrs@.take(i as int + 1).contains(u2) == nbrs@.take(
                            i as int,
                        ).contains(u2));
                    }
                }
            }
            i = i + 1;
        }
        assert(nbrs@.take(nbrs@.len() as int) =~= nbrs@);
        assert forall|u: Vertex| #[trigger]
            self.adj()[v].contains(u) && self.l@.contains(u) && !self.candidates@.contains(u)
                implies self.checks@.contains(u) by {
            assert(nbrs@.to_set().contains(u));
            let k = choose|k: int| 0 <= k < nbrs@.len() && nbrs@[k] == u;
        }
        proof {
            assert forall|u: Vertex| #[trigger]
                self.vertices().contains(u) implies self.vertex_ok(u, l, r, l0, r, r0) by {
                if !nbrs@.contains(u) {
                    assert(!self.adj()[u].contains(v));
                    assert(self.adj()[u].intersect(l0) =~= self.adj()[u].intersect(l));
                    assert(self.adj()[u].intersect(r0) =~= self.adj()[u].intersect(r));
                }
            }
        }
    }

    /// The neighbours in L of the neighbours in R of `v`. A matching that
    /// holds `v` pairs it with a neighbour of `v` in R, so every vertex whose
    /// matching holds `v` is among them.
    fn union_left_neighbours_of_r_neighbours(&self, v: Vertex) -> (r: HashSet<Vertex>)
        requires
            self.engine_ok(self.l@, self.r@, self.l@.insert(v), self.r@, self.r@.remove(v)),
            self.vertices().contains(v),
        ensures
            r@.subset_of(self.l@),
            forall|y: Vertex, u: Vertex|
                self.adm_data@[v].n_in_r@.contains(y) && #[trigger] self.adm_data@[y].n_in_l@.contains(
                    u,
                ) ==> r@.contains(u),
    {
        let mut union: HashSet<Vertex> = HashSet::new();
        let ys = set_elements(&self.adm_data.get(&v).unwrap().n_in_r);
        let mut i: usize = 0;
        while i < ys.len()
            invariant
                self.engine_ok(self.l@, self.r@, self.l@.insert(v), self.r@, self.r@.remove(v)),
                self.vertices().contains(v),
                ys@.to_set() == self.adm_data@[v].n_in_r@,
                0 <= i <= ys.len(),
                union@.subset_of(self.l@),
                forall|k: int, u: Vertex|
                    0 <= k < i && #[trigger] self.adm_data@[ys@[k]].n_in_l@.contains(u)
                        ==> union@.contains(u),
            decreases ys.len() - i,
        {
            let y = ys[i];
            assert(self.adm_data@[v].n_in_r@.contains(y)) by {
                assert(ys@.to_set().contains(ys@[i as int]));
            }
            assert(self.vertices().contains(y));
            let us = set_elements(&self.adm_data.get(&y).unwrap().n_in_l);
            let mut j: usize = 0;
            while j < us.len()
                invariant
                    self.engine_ok(
                        self.l@,
                        self.r@,
                        self.l@.insert(v),
                        self.r@,
                        self.r@.remove(v),
                    ),
                    self.vertices().contains(y),
                    y == ys@[i as int],
                    0 <= i < ys.len(),
                    us@.to_set() == self.adm_data@[y].n_in_l@,
                    0 <= j <= us.len(),
                    union@.subset_of(self.l@),
                    forall|k: int, u: Vertex|
                        0 <= k < i && #[trigger] self.adm_data@[ys@[k]].n_in_l@.contains(u)
                            ==> union@.contains(u),
                    forall|k: int| 0 <= k < j ==> union@.contains(#[trigger] us@[k]),
                decreases us.len() - j,
            {
                assert(us@.to_set().contains(us@[j as int]));
                union.insert(us[j]);
                j = j + 1;
            }
            proof {
                assert forall|k: int, u: Vertex|
                    0 <= k < i + 1 && #[trigger] self.adm_data@[ys@[k]].n_in_l@.contains(u)
                        implies union@.contains(u) by {
                    if k == i {
                        assert(us@.to_set().contains(u));
                        let jj = choose|jj: int| 0 <= jj < us@.len() && us@[jj] == u;
                    }
                }
            }
            i = i + 1;
        }
        proof {
            assert forall|y: Vertex, u: Vertex|
                self.adm_data@[v].n_in_r@.contains(y) && #[trigger] self.adm_data@[y].n_in_l@.contains(
                    u,
                ) implies union@.contains(u) by {
                assert(ys@.to_set().contains(y));
                let k = choose|k: int| 0 <= k < ys@.len() && ys@[k] == y;
                assert(self.adm_data@[ys@[k]].n_in_l@.contains(u));
            }
        }
        union
    }

    /// `v` has just moved from L to R: every neighbour in L of a neighbour in
    /// R of `v` gives up the pair that holds `v` on its L side, if it has one,
    /// tries to replace it by a pair through the same vertex of R, and is
    /// checked again unless it is a candidate. Afterwards no matching holds
    /// `v` on its L side.
    pub fn update_l2_of_v(&mut self, v: Vertex)
        requires
            old(self).engine_ok(
                old(self).l@,
                old(self).r@,
                old(self).l@.insert(v),
                old(self).r@,
                old(self).r@.remove(v),
            ),
            old(self).no_loop_pair(v),
            old(self).r@.contains(v),
        ensures
            final(self).engine_ok(
                final(self).l@,
                final(self).r@,
                final(self).l@,
                final(self).r@,
                final(self).r@.remove(v),
            ),
            final(self).budgets_not_above(old(self)),
            old(self).candidates@.disjoint(old(self).checks@) ==> final(self).candidates@.disjoint(
                final(self).checks@,
            ),
            final(self).graph == old(self).graph,
            final(self).l@ == old(self).l@,
            final(self).r@ == old(self).r@,
            final(self).candidates@ == old(self).candidates@,
            old(self).checks@.subset_of(final(self).checks@),
            forall|u: Vertex| #[trigger]
                old(self).adm_data@[u].m_from_l@.contains_key(v) && old(self).vertices().contains(u)
                    && !final(self).candidates@.contains(u) ==> final(self).checks@.contains(u),
            forall|u: Vertex| #[trigger]
                old(self).vertices().contains(u) && !old(self).adm_data@[u].m_from_l@.contains_key(v)
                    ==> final(self).adm_data@[u] == old(self).adm_data@[u],
            forall|u: Vertex| #[trigger]
                old(self).vertices().contains(u) && old(self).adm_data@[u].m_from_l@.contains_key(v)
                    ==> l2_replaced(
                    old(self).adm_data@[u],
                    final(self).adm_data@[u],
                    v,
                    old(self).adm_data@[old(self).adm_data@[u].m_from_l@[v]].n_in_l@,
                ),
    {
        let ghost l = self.l@;
        let ghost r = self.r@;
        let ghost l0 = l.insert(v);
        let ghost r0 = r.remove(v);
        let union = self.union_left_neighbours_of_r_neighbours(v);
        let us = set_elements(&union);
        proof {
            assert forall|u: Vertex|
                #![trigger self.adm_data@[u]]
                self.vertices().contains(u) && !union@.contains(u) implies !self.adm_data@[u].m_from_l@.contains_key(v) by {
                let m = self.adm_data@[u].m_from_l@;
                if m.contains_key(v) {
                    let y = m[v];
                    assert(self.vertex_ok(u, l, r, l0, r, r0));
                    assert(y != v);
                    assert(self.adj()[v].contains(y));
                    assert(self.vertex_ok(v, l, r, l0, r, r0));
                    assert(self.adm_data@[v].n_in_r@.contains(y));
                    assert(self.adj()[u].contains(y));
                    assert(is_edge_to(*self.graph, y, u));
                    assert(self.vertices().contains(y));
                    assert(self.adj()[y].contains(u));
                    assert(!self.adm_data@[u].deleted_m);
                    assert(u != v);
                    assert(l.contains(u));
                    assert(self.vertex_ok(y, l, r, l0, r, r0));
                    assert(self.adm_data@[y].n_in_l@.contains(u));
                }
            }
        }
        let mut i: usize = 0;
        while i < us.len()
            invariant
                self.graph_ok(),
                self.adm_data@.dom() == self.vertices(),
                self.l@ == l,
                self.r@ == r,
                l0 == l.insert(v),
                r0 == r.remove(v),
                r.contains(v),
                l.disjoint(r),
                l.union(r) == self.vertices(),
                self.graph == old(self).graph,
                self.candidates@ == old(self).candidates@,
                self.candidates@.subset_of(l),
                self.checks@.subset_of(l),
                us@.to_set() == union@,
                us@.no_duplicates(),
                union@.subset_of(l),
                0 <= i <= us.len(),
                self.budgets_not_above(old(self)),
                self.vertices() == old(self).vertices(),
                old(self).adm_data@.dom() == self.vertices(),
                forall|y: Vertex| #[trigger]
                    self.vertices().contains(y) ==> self.adm_data@[y].n_in_l@ == old(self).adm_data@[y].n_in_l@,
                forall|u: Vertex| #[trigger]
                    old(self).vertices().contains(u) && !us@.take(i as int).contains(u) ==> self.adm_data@[u]
                        == old(self).adm_data@[u],
                forall|k: int|
                    0 <= k < i ==> l2_done(
                        old(self).adm_data@[#[trigger] us@[k]],
                        self.adm_data@[us@[k]],
                        v,
                        old(self).adm_data@,
                    ),
                old(self).checks@.subset_of(self.checks@),
                forall|k: int|
                    0 <= k < i && !self.candidates@.contains(#[trigger] us@[k])
                        ==> self.checks@.contains(us@[k]),
                old(self).candidates@.disjoint(old(self).checks@) ==> self.candidates@.disjoint(
                    self.checks@,
                ),
                forall|u: Vertex|
                    #![trigger self.adm_data@[u]]
                    self.vertices().contains(u) ==> {
                        &&& self.vertex_ok(u, l, r, l0, r, r0)
                        &&& (!union@.contains(u) || us@.take(i as int).contains(u))
                            ==> !self.adm_data@[u].m_from_l@.contains_key(v)
                    },
            decreases us.len() - i,
        {
            let u = us[i];
            proof {
                assert(union@.contains(u)) by {
                    assert(us@.to_set().contains(us@[i as int]));
                }
                assert(us@.take(i as int + 1) =~= us@.take(i as int).push(u));
                assert(us@.take(i as int + 1)[i as int] == u);
                assert(self.vertex_ok(u, l, r, l0, r, r0));
                assert(old(self).vertices().contains(u));
                assert(self.adm_data@[u].budget() <= old(self).adm_data@[u].budget());
            }
            let ghost d0 = self.adm_data@[u];
            let ghost mut dn = d0;
            let ghost mut added: Option<(Vertex, Vertex)> = None;
            proof {
                assert(!us@.take(i as int).contains(u));
                assert(d0 == old(self).adm_data@[u]);
            }
            if self.adm_data.get(&u).unwrap().m_from_l.contains_key(&v) {
                let mut d = self.adm_data.remove(&u).unwrap();
                let ghost cands = old(self).adm_data@[d0.m_from_l@[v]].n_in_l@;
                match d.remove_v_from_m(v) {
                    None => {},
                    Some(x) => {
                        assert(self.adm_data@.contains_key(x)) by {
                            assert(r.contains(x));
                        }
                        let x_n_in_l = set_elements(&self.adm_data.get(&x).unwrap().n_in_l);
                        assert(x_n_in_l@.to_set() == cands);
                        match d.first_addable(&x_n_in_l, v) {
                            Some(z) => {
                                assert(l2_addable(d0, v, cands, z)) by {
                                    assert(x_n_in_l@.to_set().contains(z));
                                }
                                d.add_edges_to_m(z, x);
                                proof {
                                    added = Some((z, x));
                                    assert(x_n_in_l@.to_set().contains(z));
                                    assert(self.vertex_ok(x, l, r, l0, r, r0));
                                    assert(self.adj()[x].contains(z));
                                    assert(is_edge_to(*self.graph, z, x));
                                    assert(d0.m_from_l@[v] == x);
                                }
                            },
                            None => {
                                assert forall|z: Vertex| !#[trigger] l2_addable(d0, v, cands, z) by {
                                    if l2_addable(d0, v, cands, z) {
                                        assert(x_n_in_l@.contains(z));
                                        assert(d.can_add_spec(z));
                                    }
                                }
                            },
                        }
                    },
                }
                proof {
                    assert(l2_replaced(d0, d, v, cands));
                    assert forall|x: Vertex| #[trigger] d.m_from_l@.contains_key(x) implies {
                        &&& l.contains(x)
                        &&& r.contains(d.m_from_l@[x])
                        &&& d.n_in_r@.contains(d.m_from_l@[x])
                        &&& self.adj()[x].contains(d.m_from_l@[x])
                    } by {
                        match added {
                            Some(p) => {
                                if x != p.0 {
                                    assert(d0.m_from_l@.contains_key(x));
                                }
                            },
                            None => {
                                assert(d0.m_from_l@.contains_key(x));
                            },
                        }
                    }
                }
                self.adm_data.insert(u, d);
                proof {
                    dn = d;
                }
            }
            if !self.candidates.contains(&u) {
                self.checks.insert(u);
            }
            proof {
                assert forall|u2: Vertex|
                    #![trigger self.adm_data@[u2]]
                    self.vertices().contains(u2) implies {
                    &&& self.vertex_ok(u2, l, r, l0, r, r0)
                    &&& (!union@.contains(u2) || us@.take(i as int + 1).contains(u2))
                        ==> !self.adm_data@[u2].m_from_l@.contains_key(v)
                } by {
                    if u2 == u {
                        assert(self.adm_data@[u2] == dn);
                        assert(old(self).vertices().contains(u2));
                        assert(dn.budget() <= d0.budget()) by {
                            match added {
                                Some(pair) => {
                                    assert(d0.m_from_l@.contains_key(v));
                                    assert(!d0.m_from_l@.remove(v).contains_key(pair.0));
                                },
                                None => {},
                            }
                        }
                    } else {
                        assert(us@.take(i as int + 1).contains(u2) == us@.take(i as int).contains(
                            u2,
                        ));
                    }
                }
                assert forall|k: int| 0 <= k < i + 1 implies l2_done(
                    old(self).adm_data@[#[trigger] us@[k]],
                    self.adm_data@[us@[k]],
                    v,
                    old(self).adm_data@,
                ) by {
                    if k < i {
                        assert(us@[k] != u);
                    } else {
                        assert(self.adm_data@[u] == dn);
                    }
                }
                assert forall|u2: Vertex| #[trigger]
                    old(self).vertices().contains(u2) && !us@.take(i as int + 1).contains(u2)
                        implies self.adm_data@[u2] == old(self).adm_data@[u2] by {
                    assert(u2 != u);
                    if us@.take(i as int).contains(u2) {
                        let k = choose|k: int| 0 <= k < i && us@.take(i as int)[k] == u2;
                        assert(us@.take(i as int + 1)[k] == u2);
                    }
                }
            }
            i = i + 1;
        }
        proof {
            assert(us@.take(us@.len() as int) =~= us@);
            assert forall|u: Vertex| #[trigger]
                old(self).vertices().contains(u) && old(self).adm_data@[u].m_from_l@.contains_key(v)
                    implies l2_replaced(
                old(self).adm_data@[u],
                self.adm_data@[u],
                v,
                old(self).adm_data@[old(self).adm_data@[u].m_from_l@[v]].n_in_l@,
            ) by {
                assert(union@.contains(u));
                assert(us@.to_set().contains(u));
                let k = choose|k: int| 0 <= k < us@.len() && us@[k] == u;
                assert(l2_done(old(self).adm_data@[us@[k]], self.adm_data@[us@[k]], v, old(self).adm_data@));
            }
            assert forall|u: Vertex| #[trigger]
                old(self).vertices().contains(u) && !old(self).adm_data@[u].m_from_l@.contains_key(v)
                    implies self.adm_data@[u] == old(self).adm_data@[u] by {
                if us@.contains(u) {
                    let k = choose|k: int| 0 <= k < us@.len() && us@[k] == u;
                    assert(l2_done(old(self).adm_data@[us@[k]], self.adm_data@[us@[k]], v, old(self).adm_data@));
                }
            }
            assert forall|u: Vertex| #[trigger]
                old(self).adm_data@[u].m_from_l@.contains_key(v) && old(self).vertices().contains(u)
                    && !self.candidates@.contains(u) implies self.checks@.contains(u) by {
                assert(union@.contains(u));
                assert(us@.to_set().contains(u));
                let k = choose|k: int| 0 <= k < us@.len() && us@[k] == u;
            }
            assert forall|u: Vertex| #[trigger]
                self.vertices().contains(u) implies self.vertex_ok(u, l, r, l, r, r0) by {
                assert(!union@.contains(u) || us@.contains(u));
                let m = self.adm_data@[u].m_from_l@;
                assert forall|x: Vertex| #[trigger] m.contains_key(x) implies l.contains(x) by {
                    assert(x != v);
                }
            }
        }
    }

    /// Reassesses each vertex marked for a check, as `check_outcome` says: one
    /// whose budget is exactly `p` and whose local alternating graph has an
    /// augmenting path grows its matching along such a path; any other one
    /// with a budget of at most `p` becomes a candidate unchanged.
    pub fn do_checks(&mut self, p: usize)
        requires
            old(self).checks_ready(),
            old(self).candidates@.disjoint(old(self).checks@),
        ensures
            final(self).checks_ready(),
            final(self).deleted_set() == old(self).deleted_set(),
            final(self).checks@.is_empty(),
            final(self).graph == old(self).graph,
            final(self).l@ == old(self).l@,
            final(self).r@ == old(self).r@,
            old(self).candidates@.subset_of(final(self).candidates@),
            final(self).candidates@.subset_of(old(self).candidates@.union(old(self).checks@)),
            forall|u: Vertex| #[trigger]
                final(self).candidates@.contains(u) && !old(self).candidates@.contains(u)
                    ==> final(self).adm_data@[u].budget() <= p,
            forall|u: Vertex| #[trigger]
                old(self).vertices().contains(u) ==> old(self).grown_by_at_most_one(
                    final(self).adm_data@[u],
                    u,
                ),
            forall|u: Vertex| #[trigger]
                old(self).vertices().contains(u) && !old(self).checks@.contains(u)
                    ==> final(self).adm_data@[u] == old(self).adm_data@[u],
            forall|u: Vertex| #[trigger]
                old(self).checks@.contains(u) ==> old(self).checked(*final(self), u, p),
            old(self).pending_above(p) ==> final(self).pending_above(p),
            forall|u: Vertex| #[trigger]
                old(self).checks@.contains(u) ==> old(self).check_outcome(*final(self), u, p),
    {
        let mut checks: HashSet<Vertex> = HashSet::new();
        std::mem::swap(&mut self.checks, &mut checks);
        let ghost del = self.deleted_set();
        assert(self.deleted_set() == old(self).deleted_set());
        let cs = set_elements(&checks);
        let mut i: usize = 0;
        while i < cs.len()
            invariant
                self.checks_ready(),
                self.deleted_set() == del,
                del == old(self).deleted_set(),
                self.checks@.is_empty(),
                self.graph == old(self).graph,
                self.l@ == old(self).l@,
                self.r@ == old(self).r@,
                cs@.to_set() == old(self).checks@,
                cs@.no_duplicates(),
                old(self).checks@.subset_of(old(self).l@),
                0 <= i <= cs.len(),
                old(self).candidates@.subset_of(self.candidates@),
                self.candidates@.subset_of(old(self).candidates@.union(cs@.take(i as int).to_set())),
                forall|u: Vertex| #[trigger]
                    self.candidates@.contains(u) && !old(self).candidates@.contains(u)
                        ==> self.adm_data@[u].budget() <= p,
                self.vertices() == old(self).vertices(),
                forall|u: Vertex| #[trigger]
                    old(self).vertices().contains(u) ==> old(self).grown_by_at_most_one(
                        self.adm_data@[u],
                        u,
                    ),
                forall|u: Vertex| #[trigger]
                    old(self).vertices().contains(u) && !cs@.take(i as int).contains(u)
                        ==> self.adm_data@[u] == old(self).adm_data@[u],
                forall|k: int|
                    0 <= k < i ==> #[trigger] old(self).checked(*self, cs@[k], p),
                forall|k: int|
                    0 <= k < i ==> #[trigger] old(self).check_outcome(*self, cs@[k], p),
                old(self).candidates@.disjoint(old(self).checks@),
            decreases cs.len() - i,
        {
            let u = cs[i];
            let ghost prev = *self;
            proof {
                assert(old(self).checks@.contains(u)) by {
                    assert(cs@.to_set().contains(cs@[i as int]));
                }
                assert(cs@.take(i as int + 1) =~= cs@.take(i as int).push(u));
                cs@.take(i as int).lemma_push_to_set_commute(u);
                assert(!cs@.take(i as int).contains(u)) by {
                    if cs@.take(i as int).contains(u) {
                        let j = choose|j: int| 0 <= j < i && cs@.take(i as int)[j] == u;
                        assert(cs@[j] == cs@[i as int]);
                    }
                }
                assert(self.l@.contains(u));
                assert(self.vertex_ok(u, self.l@, self.r@, self.l@, self.r@, del));
            }
            let d = self.adm_data.get(&u).unwrap();
            let ghost d_old = *d;
            let ghost mut path_used = Seq::<Vertex>::empty();
            proof {
                assert(!cs@.take(i as int).contains(u));
                assert(d_old == old(self).adm_data@[u]);
                assert(!old(self).candidates@.contains(u));
                assert(self.graph == old(self).graph);
                assert forall|y: Vertex| #[trigger]
                    d_old.m_from_r@.contains_key(y) implies self.adm_data@[y].n_in_l@ == old(self).adm_data@[y].n_in_l@ by {
                    assert(d_old.m_from_l@.contains_key(d_old.m_from_r@[y]));
                    assert(old(self).vertices().contains(y));
                    assert(old(self).grown_by_at_most_one(self.adm_data@[y], y));
                }
            }
            if d.is_maximal_matching_size_p(p) {
                let at_p = d.n_in_l.len() + d.m_from_l.len() == p;
                let aug = self.construct_g_for_augmenting_path(d);
                let found = aug.find_augmenting_path();
                let mut grown = false;
                if at_p {
                    match found {
                        Some(e) => {
                            let ghost path = choose|q: Seq<Vertex>|
                                {
                                    &&& #[trigger] aug.is_augmenting(q)
                                    &&& e.e_remove@ == aug.removed_by(q)
                                    &&& e.e_add@ == aug.added_by(q)
                                };
                            proof {
                                self.lemma_augmenting_path_fits(*d, aug, path);
                                self.lemma_view_walks_qualify(*d, aug);
                                self.lemma_exact_view_paths(*d, aug, path);
                                self.lemma_same_local(*old(self), *d, path);
                                path_used = path;
                            }
                            let ghost pre = *self;
                            let mut d2 = self.adm_data.remove(&u).unwrap();
                            d2.update_m(&e);
                            self.adm_data.insert(u, d2);
                            grown = true;
                            proof {
                                let o1 = aug.out@[path[0]];
                                let o2 = aug.out@[path.last()];
                                assert(aug.s@.contains(path[0]));
                                assert(aug.t@.contains(path.last()));
                                assert(pre.adm_data@[path[0]].n_in_l@.contains(o1));
                                assert(old(self).adm_data@[path[0]].n_in_l@.contains(o1));
                                assert(d_old.can_add_spec(o1));
                                assert(old(self).adj()[path.last()].contains(o2));
                                assert(old(self).augmented_along(d_old, d2, path));
                                assert(old(self).local_augmenting(d_old, path));
                                assert(self.deleted_set() =~= del);
                                assert forall|u2: Vertex|
                                    #![trigger self.adm_data@[u2]]
                                    self.vertices().contains(u2) implies self.vertex_ok(
                                    u2,
                                    self.l@,
                                    self.r@,
                                    self.l@,
                                    self.r@,
                                    self.deleted_set(),
                                ) by {
                                    if u2 == u {
                                        assert(self.adm_data@[u2] == d2);
                                    }
                                }
                            }
                        },
                        None => {},
                    }
                }
                if !grown {
                    proof {
                        if at_p {
                            self.lemma_view_walks_qualify(*d, aug);
                            assert forall|q: Seq<Vertex>| !#[trigger] old(self).local_augmenting(
                                d_old,
                                q,
                            ) by {
                                self.lemma_same_local(*old(self), d_old, q);
                                self.lemma_exact_view_paths(d_old, aug, q);
                            }
                            assert(!old(self).has_augmenting(d_old));
                        }
                    }
                    self.candidates.insert(u);
                }
            }
            proof {
                assert(old(self).check_outcome(*self, u, p)) by {
                    if d_old.budget() <= p && !(d_old.budget() < p || !old(self).has_augmenting(d_old)) {
                        assert(self.adm_data@[u].budget() == p + 1);
                        assert(old(self).local_augmenting(d_old, path_used));
                    }
                }
                assert forall|k: int| 0 <= k < i + 1 implies #[trigger] old(self).check_outcome(
                    *self,
                    cs@[k],
                    p,
                ) by {
                    if k < i {
                        assert(cs@[k] != u);
                        assert(old(self).check_outcome(prev, cs@[k], p));
                        assert(self.adm_data@[cs@[k]] == prev.adm_data@[cs@[k]]);
                        assert(self.candidates@ == prev.candidates@ || self.candidates@
                            == prev.candidates@.insert(u));
                    }
                }
                assert(old(self).checked(*self, u, p));
                assert forall|k: int| 0 <= k < i + 1 implies #[trigger] old(self).checked(
                    *self,
                    cs@[k],
                    p,
                ) by {
                    if k < i {
                        assert(cs@[k] != u);
                        assert(old(self).checked(prev, cs@[k], p));
                        assert(self.adm_data@[cs@[k]] == prev.adm_data@[cs@[k]]);
                        assert(self.candidates@ == prev.candidates@ || self.candidates@
                            == prev.candidates@.insert(u));
                    }
                }
                assert(cs@.take(i as int + 1).to_set().contains(u));
                assert(cs@.take(i as int + 1)[i as int] == u);
                assert forall|u2: Vertex| #[trigger]
                    old(self).vertices().contains(u2) && !cs@.take(i as int + 1).contains(u2)
                        implies self.adm_data@[u2] == old(self).adm_data@[u2] by {
                    assert(u2 != u);
                    if cs@.take(i as int).contains(u2) {
                        let k = choose|k: int| 0 <= k < i && cs@.take(i as int)[k] == u2;
                        assert(cs@.take(i as int + 1)[k] == u2);
                    }
                }
                assert forall|u2: Vertex| #[trigger]
                    self.candidates@.contains(u2) && !old(self).candidates@.contains(u2)
                        implies self.adm_data@[u2].budget() <= p by {
                    if u2 != u {
                        assert(cs@.take(i as int).to_set().contains(u2));
                    }
                }
            }
            i = i + 1;
        }
        assert(cs@.take(cs@.len() as int) =~= cs@);
        assert forall|u: Vertex| #[trigger] old(self).checks@.contains(u) implies old(self).check_outcome(
            *self,
            u,
            p,
        ) by {
            assert(cs@.to_set().contains(u));
            let k = choose|k: int| 0 <= k < cs@.len() && cs@[k] == u;
            assert(old(self).check_outcome(*self, cs@[k], p));
        }
        assert forall|u: Vertex| #[trigger] old(self).checks@.contains(u) implies old(self).checked(
            *self,
            u,
            p,
        ) by {
            assert(cs@.to_set().contains(u));
            let k = choose|k: int| 0 <= k < cs@.len() && cs@[k] == u;
        }
        assert forall|u: Vertex| #[trigger]
            old(self).vertices().contains(u) && !old(self).checks@.contains(u) implies self.adm_data@[u]
                == old(self).adm_data@[u] by {
            if cs@.contains(u) {
                assert(cs@.to_set().contains(u));
            }
        }
        assert forall|u: Vertex| #[trigger]
            self.l@.contains(u) && !self.candidates@.contains(u) && !self.checks@.contains(u)
                && old(self).pending_above(p) implies self.adm_data@[u].budget() > p by {
            if old(self).checks@.contains(u) {
                assert(old(self).checked(*self, u, p));
            } else {
                assert(old(self).vertices().contains(u));
            }
        }
    }

    /// Every vertex of L is a candidate.
    pub fn is_all_vertices_in_r_or_candidates(&self) -> (r: bool)
        requires
            self.wf(),
        ensures
            r == self.l@.subset_of(self.candidates@),
    {
        proof {
            vstd::set_lib::lemma_len_subset(self.l@, self.vertices());
            vstd::set_lib::lemma_len_subset(self.candidates@, self.l@);
            if self.l@.subset_of(self.candidates@) {
                assert(self.l@ =~= self.candidates@);
            }
            if self.candidates@.len() == self.l@.len() {
                vstd::set_lib::lemma_subset_equality(self.candidates@, self.l@);
            }
        }
        self.candidates.len() == self.l.len()
    }

    /// Moves some candidate `v` from L to R, brings the states around it up to
    /// date, reassesses the vertices marked for a check, and deletes the
    /// matching of `v`. Returns `v`, or `None` when there is no candidate.
    pub fn remove_v_from_candidates(&mut self, p: usize) -> (r: Option<Vertex>)
        requires
            old(self).wf(),
            old(self).checks@.is_empty(),
            old(self).candidates_within(p),
            old(self).pending_above(p),
        ensures
            final(self).wf(),
            final(self).checks@.is_empty(),
            final(self).candidates_within(p),
            final(self).pending_above(p),
            final(self).graph == old(self).graph,
            r is None <==> old(self).candidates@.is_empty(),
            r is None ==> final(self).l@ == old(self).l@ && final(self).r@ == old(self).r@
                && final(self).candidates@ == old(self).candidates@ && final(self).adm_data@
                == old(self).adm_data@ && final(self).checks@ == old(self).checks@,
            r matches Some(v) ==> {
                &&& old(self).candidates@.contains(v)
                &&& final(self).l@ == old(self).l@.remove(v)
                &&& final(self).r@ == old(self).r@.insert(v)
                &&& old(self).candidates@.remove(v).subset_of(final(self).candidates@)
            },
    {
        match any_element(&self.candidates) {
            None => None,
            Some(v) => {
                let ghost l = self.l@.remove(v);
                let ghost r = self.r@.insert(v);
                let ghost c0 = self.candidates@;
                self.candidates.remove(&v);
                self.l.remove(&v);
                self.r.insert(v);
                proof {
                    assert(l.insert(v) =~= old(self).l@);
                    assert(r.remove(v) =~= old(self).r@);
                    assert(self.l@.union(self.r@) =~= old(self).l@.union(old(self).r@));
                }
                let ghost s0 = *self;
                self.update_n1_of_v(v);
                let ghost s1 = *self;
                self.update_l2_of_v(v);
                let ghost s2 = *self;
                proof {
                    assert(self.deleted_set() =~= r.remove(v));
                    assert(self.candidates@.disjoint(self.checks@));
                    assert forall|u: Vertex| #[trigger]
                        self.l@.contains(u) && !self.candidates@.contains(u) && !self.checks@.contains(
                            u,
                        ) implies self.adm_data@[u].budget() > p by {
                        assert(s0.vertices().contains(u));
                        assert(!s1.adj()[v].contains(u));
                        assert(!s1.adm_data@[u].m_from_l@.contains_key(v));
                        assert(old(self).l@.contains(u));
                    }
                }
                self.do_checks(p);
                proof {
                    assert forall|u: Vertex| #[trigger]
                        self.candidates@.contains(u) implies self.adm_data@[u].budget() <= p by {
                        if s2.candidates@.contains(u) {
                            assert(s0.vertices().contains(u));
                            assert(!s2.checks@.contains(u));
                            assert(self.adm_data@[u] == s2.adm_data@[u]);
                            assert(s2.adm_data@[u].budget() <= s1.adm_data@[u].budget());
                            assert(s1.adm_data@[u].budget() <= s0.adm_data@[u].budget());
                            assert(old(self).candidates@.contains(u));
                        }
                    }
                }
                assert(self.vertex_ok(v, l, r, l, r, r.remove(v)));
                let mut d = self.adm_data.remove(&v).unwrap();
                d.delete_m();
                self.adm_data.insert(v, d);
                proof {
                    assert forall|u: Vertex|
                        #![trigger self.adm_data@[u]]
                        self.vertices().contains(u) implies self.vertex_ok(u, l, r, l, r, r) by {
                        if u != v {
                            assert(self.vertex_ok(u, l, r, l, r, r.remove(v)));
                        }
                    }
                    assert(c0.remove(v).subset_of(self.candidates@));
                    assert forall|u: Vertex| #[trigger]
                        self.candidates@.contains(u) implies self.adm_data@[u].budget() <= p by {
                        assert(u != v);
                    }
                    assert forall|u: Vertex| #[trigger]
                        self.l@.contains(u) && !self.candidates@.contains(u) && !self.checks@.contains(
                            u,
                        ) implies self.adm_data@[u].budget() > p by {
                        assert(u != v);
                    }
                }
                Some(v)
            },
        }
    }

    /// What a check of `u` left in `after`: with a budget of at most `p`, the
    /// vertex became a candidate or its budget rose to `p + 1`; with a larger
    /// budget, it kept its state and did not become a candidate.
    pub open spec fn checked(&self, after: Self, u: Vertex, p: usize) -> bool {
        if self.adm_data@[u].budget() <= p {
            after.candidates@.contains(u) || after.adm_data@[u].budget() == p + 1
        } else {
            &&& after.adm_data@[u] == self.adm_data@[u]
            &&& (after.candidates@.contains(u) ==> self.candidates@.contains(u))
        }
    }

    /// `d` is the state of `u` with its neighbours and its deletion unchanged,
    /// and its matching either unchanged or larger by exactly one pair.
    pub open spec fn grown_by_at_most_one(&self, d: AdmData, u: Vertex) -> bool {
        let d0 = self.adm_data@[u];
        &&& d.id == d0.id
        &&& d.n_in_l@ == d0.n_in_l@
        &&& d.n_in_r@ == d0.n_in_r@
        &&& d.deleted_m == d0.deleted_m
        &&& (d.m_from_l@ == d0.m_from_l@ || d.m_from_l@.len() == d0.m_from_l@.len() + 1)
    }

    /// What the search problem built for the state `d` offers: an edge leads
    /// from a matched vertex of R to its partner, or from a matched vertex of
    /// L to another matched vertex of R next to it; a start is a matched vertex
    /// of R with a free neighbour in L that `d` could match; a target is a
    /// matched vertex of L with a free neighbour in R next to `d`'s vertex.
    pub open spec fn view_ok(&self, d: AdmData, aug: AugmentingPath) -> bool {
        let m = d.m_from_l@;
        let mr = d.m_from_r@;
        &&& aug.id == d.id
        &&& forall|a: Vertex, b: Vertex| #[trigger]
            aug.edge(a, b) ==> self.view_edge(d, a, b)
        &&& forall|a: Vertex| #[trigger]
            aug.s@.contains(a) ==> {
                &&& mr.contains_key(a)
                &&& aug.out@.contains_key(a)
                &&& self.adm_data@[a].n_in_l@.contains(aug.out@[a])
                &&& d.can_add_spec(aug.out@[a])
                &&& self.l@.contains(aug.out@[a])
                &&& self.adj()[aug.out@[a]].contains(a)
            }
        &&& forall|a: Vertex| #[trigger]
            aug.t@.contains(a) ==> {
                &&& m.contains_key(a)
                &&& aug.out@.contains_key(a)
                &&& !mr.contains_key(aug.out@[a])
                &&& d.n_in_r@.contains(aug.out@[a])
                &&& self.r@.contains(aug.out@[a])
                &&& self.adj()[a].contains(aug.out@[a])
            }
    }

    /// An edge of the local alternating graph of the vertex whose state is `d`:
    /// from a matched neighbour in R to its partner, or from a matched vertex
    /// of L to a matched neighbour in R, other than its partner, next to it.
    pub open spec fn view_edge(&self, d: AdmData, a: Vertex, b: Vertex) -> bool {
        let m = d.m_from_l@;
        let mr = d.m_from_r@;
        ||| (d.n_in_r@.contains(a) && mr.contains_key(a) && b == mr[a])
        ||| (m.contains_key(a) && d.n_in_r@.contains(b) && mr.contains_key(b) && b != m[a]
            && self.adj()[a].contains(b))
    }

    /// A start: a matched vertex of R with a neighbour in L that `d` could add.
    pub open spec fn view_start(&self, d: AdmData, y: Vertex) -> bool {
        &&& d.m_from_r@.contains_key(y)
        &&& exists|w: Vertex|
            self.adm_data@[y].n_in_l@.contains(w) && #[trigger] d.can_add_spec(w)
    }

    /// A target: a matched vertex of L next to a free neighbour in R of `d`'s
    /// vertex.
    pub open spec fn view_target(&self, d: AdmData, x: Vertex) -> bool {
        &&& d.m_from_l@.contains_key(x)
        &&& exists|y: Vertex|
            d.n_in_r@.contains(y) && !d.m_from_r@.contains_key(y) && #[trigger] self.adj()[x].contains(
                y,
            )
    }

    /// The search problem has exactly the edges, starts and targets of the
    /// local alternating graph of `d`.
    pub open spec fn view_exact(&self, d: AdmData, aug: AugmentingPath) -> bool {
        &&& forall|a: Vertex, b: Vertex| #[trigger] aug.edge(a, b) <==> self.view_edge(d, a, b)
        &&& forall|y: Vertex| #[trigger] aug.s@.contains(y) <==> self.view_start(d, y)
        &&& forall|x: Vertex| #[trigger] aug.t@.contains(x) <==> self.view_target(d, x)
    }

    /// An augmenting path of `d`'s matching in its local alternating graph:
    /// a path without repeats from a start to a target.
    pub open spec fn local_augmenting(&self, d: AdmData, q: Seq<Vertex>) -> bool {
        &&& q.len() >= 2
        &&& q.no_duplicates()
        &&& forall|i: int| 0 <= i < q.len() - 1 ==> #[trigger] self.view_edge(d, q[i], q[i + 1])
        &&& self.view_start(d, q[0])
        &&& self.view_target(d, q.last())
    }

    /// The local alternating graph of `d` has an augmenting path.
    pub open spec fn has_augmenting(&self, d: AdmData) -> bool {
        exists|q: Seq<Vertex>| #[trigger] self.local_augmenting(d, q)
    }

    /// `d1` has the matching of `d0` changed along the path `q`: the pairs on
    /// `q` swapped, the start paired with a neighbour in L that `d0` could
    /// add, and the target paired with a free neighbour in R of `d0`'s vertex.
    pub open spec fn augmented_along(&self, d0: AdmData, d1: AdmData, q: Seq<Vertex>) -> bool {
        exists|o1: Vertex, o2: Vertex|
            {
                &&& self.adm_data@[q[0]].n_in_l@.contains(o1)
                &&& #[trigger] d0.can_add_spec(o1)
                &&& d0.n_in_r@.contains(o2)
                &&& !d0.m_from_r@.contains_key(o2)
                &&& #[trigger] self.adj()[q.last()].contains(o2)
                &&& d1.m_from_l@ == d0.applied_maps(
                    chunk_pairs_rev(q),
                    chunk_pairs(q.subrange(1, q.len() - 1)).insert(q.last(), o2).insert(o1, q[0]),
                )
            }
    }

    /// What a check of `u` did, as the engine describes it: a vertex whose
    /// budget is below `p`, or exactly `p` with no augmenting path, becomes a
    /// candidate with its state unchanged; one at budget `p` with an augmenting
    /// path has its matching changed along such a path, to a budget of
    /// `p + 1`, and is no candidate; one above `p` keeps its state.
    pub open spec fn check_outcome(&self, after: Self, u: Vertex, p: usize) -> bool {
        let d0 = self.adm_data@[u];
        let d1 = after.adm_data@[u];
        if d0.budget() <= p && (d0.budget() < p || !self.has_augmenting(d0)) {
            after.candidates@.contains(u) && d1 == d0
        } else if d0.budget() == p {
            &&& !after.candidates@.contains(u)
            &&& d1.budget() == p + 1
            &&& exists|q: Seq<Vertex>|
                self.local_augmenting(d0, q) && #[trigger] self.augmented_along(d0, d1, q)
        } else {
            &&& d1 == d0
            &&& (after.candidates@.contains(u) ==> self.candidates@.contains(u))
        }
    }

    /// The edges and targets that the pairs `(y, w)` of a neighbour `y` in R
    /// and a matched vertex `w` of L for which `done(y, w)` holds give are in
    /// `aug`.
    pub open spec fn covers(
        &self,
        d: AdmData,
        aug: AugmentingPath,
        done: spec_fn(Vertex, Vertex) -> bool,
    ) -> bool {
        let m = d.m_from_l@;
        let mr = d.m_from_r@;
        &&& forall|a: Vertex, b: Vertex|
            #![trigger aug.edge(a, b)]
            d.n_in_r@.contains(a) && m.contains_key(b) && m[b] == a && done(a, b) ==> aug.edge(a, b)
        &&& forall|a: Vertex, b: Vertex|
            #![trigger aug.edge(a, b)]
            m.contains_key(a) && d.n_in_r@.contains(b) && mr.contains_key(b) && b != m[a]
                && self.adj()[a].contains(b) && done(b, a) ==> aug.edge(a, b)
        &&& forall|x: Vertex, y: Vertex|
            #![trigger self.adj()[x].contains(y)]
            m.contains_key(x) && d.n_in_r@.contains(y) && !mr.contains_key(y) && self.adj()[x].contains(
                y,
            ) && done(y, x) ==> aug.t@.contains(x)
    }

    /// Builds the local alternating graph of the vertex whose state is `v`.
    fn construct_g_for_augmenting_path(&self, v: &AdmData) -> (aug: AugmentingPath)
        requires
            self.checks_ready(),
            self.l@.contains(v.id),
            self.adm_data@[v.id] == *v,
        ensures
            self.view_ok(*v, aug),
            self.view_exact(*v, aug),
    {
        let ghost del = self.deleted_set();
        assert(self.vertex_ok(v.id, self.l@, self.r@, self.l@, self.r@, del));
        let mut aug = AugmentingPath::new(v.id);
        let nr = set_elements(&v.n_in_r);
        let ml = map_keys(&v.m_from_l);
        let mut i: usize = 0;
        while i < nr.len()
            invariant
                self.engine_ok(self.l@, self.r@, self.l@, self.r@, del),
                self.l@.contains(v.id),
                self.adm_data@[v.id] == *v,
                nr@.to_set() == v.n_in_r@,
                ml@.to_set() == v.m_from_l@.dom(),
                0 <= i <= nr.len(),
                self.view_ok(*v, aug),
                aug.s@.is_empty(),
                self.covers(*v, aug, |a: Vertex, b: Vertex| nr@.take(i as int).contains(a)),
            decreases nr.len() - i,
        {
            let u = nr[i];
            assert(v.n_in_r@.contains(u)) by {
                assert(nr@.to_set().contains(nr@[i as int]));
            }
            let mut j: usize = 0;
            while j < ml.len()
                invariant
                    self.engine_ok(self.l@, self.r@, self.l@, self.r@, del),
                    self.l@.contains(v.id),
                    self.adm_data@[v.id] == *v,
                    v.n_in_r@.contains(u),
                    ml@.to_set() == v.m_from_l@.dom(),
                    0 <= j <= ml.len(),
                    self.view_ok(*v, aug),
                    aug.s@.is_empty(),
                    0 <= i < nr.len(),
                    u == nr@[i as int],
                    self.covers(
                        *v,
                        aug,
                        |a: Vertex, b: Vertex|
                            nr@.take(i as int).contains(a) || (a == u && ml@.take(j as int).contains(
                                b,
                            )),
                    ),
                decreases ml.len() - j,
            {
                let w = ml[j];
                assert(v.m_from_l@.contains_key(w)) by {
                    assert(ml@.to_set().contains(ml@[j as int]));
                }
                let y = *v.m_from_l.get(&w).unwrap();
                let ghost aug0 = aug;
                proof {
                    assert(self.vertex_ok(v.id, self.l@, self.r@, self.l@, self.r@, del));
                    assert(v.wf());
                }
                if u == y {
                    assert(v.m_from_r@.contains_key(u) && v.m_from_r@[u] == w);
                    aug.add_edge(u, w);
                } else if adjacent(self.graph, u, w) {
                    assert(self.vertices().contains(u));
                    assert(is_edge_to(*self.graph, w, u));
                    if v.m_from_r.contains_key(&u) {
                        aug.add_edge(w, u);
                    } else {
                        aug.t.insert(w);
                        aug.out.insert(w, u);
                        proof {
                            assert(self.vertex_ok(u, self.l@, self.r@, self.l@, self.r@, del));
                            assert forall|a: Vertex| #[trigger] aug.t@.contains(a) implies {
                                &&& v.m_from_l@.contains_key(a)
                                &&& aug.out@.contains_key(a)
                                &&& !v.m_from_r@.contains_key(aug.out@[a])
                                &&& v.n_in_r@.contains(aug.out@[a])
                                &&& self.r@.contains(aug.out@[a])
                                &&& self.adj()[a].contains(aug.out@[a])
                            } by {
                                if a != w {
                                    assert(aug0.t@.contains(a));
                                }
                            }
                        }
                    }
                }
                proof {
                    let m = v.m_from_l@;
                    let mr = v.m_from_r@;
                    assert forall|a: Vertex, b: Vertex| #[trigger] aug.edge(a, b) implies (
                    mr.contains_key(a) && b == mr[a]) || (m.contains_key(a) && mr.contains_key(b)
                        && b != m[a] && self.adj()[a].contains(b)) by {
                        if aug0.edge(a, b) {
                        } else if u == y {
                            assert(a == u && b == w);
                        } else {
                            assert(a == w && b == u);
                        }
                    }
                    assert forall|a: Vertex| #[trigger] aug.s@.contains(a) implies false by {}
                }
                proof {
                    let m = v.m_from_l@;
                    let mr = v.m_from_r@;
                    assert(ml@.take(j as int + 1) =~= ml@.take(j as int).push(w));
                    assert(v.wf());
                    assert forall|a: Vertex, b: Vertex|
                        #![trigger aug.edge(a, b)]
                        v.n_in_r@.contains(a) && m.contains_key(b) && m[b] == a && (nr@.take(
                            i as int,
                        ).contains(a) || (a == u && ml@.take(j as int + 1).contains(b)))
                            implies aug.edge(a, b) by {
                        if nr@.take(i as int).contains(a) || (a == u && ml@.take(j as int).contains(
                            b,
                        )) {
                            assert(aug0.edge(a, b));
                        } else {
                            assert(b == w);
                        }
                    }
                    assert forall|a: Vertex, b: Vertex|
                        #![trigger aug.edge(a, b)]
                        m.contains_key(a) && v.n_in_r@.contains(b) && mr.contains_key(b) && b
                            != m[a] && self.adj()[a].contains(b) && (nr@.take(i as int).contains(b)
                            || (b == u && ml@.take(j as int + 1).contains(a))) implies aug.edge(
                        a,
                        b,
                    ) by {
                        if nr@.take(i as int).contains(b) || (b == u && ml@.take(j as int).contains(
                            a,
                        )) {
                            assert(aug0.edge(a, b));
                        } else {
                            assert(a == w);
                            assert(self.vertices().contains(u));
                            assert(self.vertices().contains(v.id));
                            assert(self.adj()[u].contains(w));
                        }
                    }
                    assert forall|x: Vertex, yy: Vertex|
                        #![trigger self.adj()[x].contains(yy)]
                        m.contains_key(x) && v.n_in_r@.contains(yy) && !mr.contains_key(yy)
                            && self.adj()[x].contains(yy) && (nr@.take(i as int).contains(yy) || (yy
                            == u && ml@.take(j as int + 1).contains(x))) implies aug.t@.contains(
                        x,
                    ) by {
                        if nr@.take(i as int).contains(yy) || (yy == u && ml@.take(
                            j as int,
                        ).contains(x)) {
                            assert(aug0.t@.contains(x));
                        } else {
                            assert(x == w);
                            assert(mr.contains_key(y));
                            assert(self.adj()[u].contains(w));
                        }
                    }
                }
                j = j + 1;
            }
            proof {
                let m = v.m_from_l@;
                assert(ml@.take(ml@.len() as int) =~= ml@);
                assert(nr@.take(i as int + 1) =~= nr@.take(i as int).push(u));
                assert forall|a: Vertex| nr@.take(i as int + 1).contains(a) implies nr@.take(
                    i as int,
                ).contains(a) || a == u by {
                    let k = choose|k: int| 0 <= k < i + 1 && #[trigger] nr@.take(i as int + 1)[k] == a;
                    if k < i {
                        assert(nr@.take(i as int)[k] == a);
                    }
                }
                assert forall|b: Vertex| m.contains_key(b) implies ml@.contains(b) by {
                    assert(ml@.to_set().contains(b));
                }
            }
            i = i + 1;
        }
        proof {
            assert(nr@.take(nr@.len() as int) =~= nr@);
            assert forall|a: Vertex| v.n_in_r@.contains(a) implies nr@.contains(a) by {
                assert(nr@.to_set().contains(a));
            }
        }
        let mkeys = map_keys(&v.m_from_r);
        let mut i: usize = 0;
        while i < mkeys.len()
            invariant
                self.engine_ok(self.l@, self.r@, self.l@, self.r@, del),
                self.l@.contains(v.id),
                self.adm_data@[v.id] == *v,
                mkeys@.to_set() == v.m_from_r@.dom(),
                0 <= i <= mkeys.len(),
                self.view_ok(*v, aug),
                self.covers(*v, aug, |a: Vertex, b: Vertex| true),
                forall|y: Vertex, w: Vertex|
                    #![trigger v.can_add_spec(w), self.adm_data@[y].n_in_l@.contains(w)]
                    mkeys@.take(i as int).contains(y) && self.adm_data@[y].n_in_l@.contains(w)
                        && v.can_add_spec(w) ==> aug.s@.contains(y),
            decreases mkeys.len() - i,
        {
            let y = mkeys[i];
            assert(v.m_from_r@.contains_key(y)) by {
                assert(mkeys@.to_set().contains(mkeys@[i as int]));
            }
            assert(self.r@.contains(y)) by {
                assert(v.m_from_l@.contains_key(v.m_from_r@[y]));
            }
            assert(self.vertex_ok(y, self.l@, self.r@, self.l@, self.r@, del));
            let ys = set_elements(&self.adm_data.get(&y).unwrap().n_in_l);
            let mut j: usize = 0;
            while j < ys.len()
                invariant
                    self.engine_ok(self.l@, self.r@, self.l@, self.r@, del),
                    self.l@.contains(v.id),
                    self.adm_data@[v.id] == *v,
                    v.m_from_r@.contains_key(y),
                    self.r@.contains(y),
                    ys@.to_set() == self.adm_data@[y].n_in_l@,
                    0 <= j <= ys.len(),
                    self.view_ok(*v, aug),
                    self.covers(*v, aug, |a: Vertex, b: Vertex| true),
                    0 <= i < mkeys.len(),
                    y == mkeys@[i as int],
                    forall|y2: Vertex, w: Vertex|
                        #![trigger v.can_add_spec(w), self.adm_data@[y2].n_in_l@.contains(w)]
                        mkeys@.take(i as int).contains(y2) && self.adm_data@[y2].n_in_l@.contains(w)
                            && v.can_add_spec(w) ==> aug.s@.contains(y2),
                    forall|k: int| 0 <= k < j && v.can_add_spec(#[trigger] ys@[k]) ==> aug.s@.contains(y),
                decreases ys.len() - j,
            {
                let w = ys[j];
                if v.can_add_vertex_in_l_to_m(&w) {
                    proof {
                        assert(ys@.to_set().contains(ys@[j as int]));
                        assert(self.vertex_ok(y, self.l@, self.r@, self.l@, self.r@, del));
                        assert(self.adj()[y].contains(w));
                        assert(is_edge_to(*self.graph, w, y));
                    }
                    let ghost aug0 = aug;
                    aug.s.insert(y);
                    aug.out.insert(y, w);
                    proof {
                        assert forall|a: Vertex| #[trigger] aug.s@.contains(a) implies {
                            &&& v.m_from_r@.contains_key(a)
                            &&& aug.out@.contains_key(a)
                            &&& v.can_add_spec(aug.out@[a])
                            &&& self.l@.contains(aug.out@[a])
                            &&& self.adj()[aug.out@[a]].contains(a)
                        } by {
                            if a != y {
                                assert(aug0.s@.contains(a));
                            }
                        }
                        assert forall|a: Vertex| #[trigger] aug.t@.contains(a) implies a != y by {
                            assert(v.m_from_l@.contains_key(a));
                            assert(self.vertex_ok(v.id, self.l@, self.r@, self.l@, self.r@, del));
                        }
                        assert forall|a: Vertex| #[trigger] aug.t@.contains(a) implies {
                            &&& v.m_from_l@.contains_key(a)
                            &&& aug.out@.contains_key(a)
                            &&& !v.m_from_r@.contains_key(aug.out@[a])
                            &&& v.n_in_r@.contains(aug.out@[a])
                            &&& self.r@.contains(aug.out@[a])
                            &&& self.adj()[a].contains(aug.out@[a])
                        } by {
                            assert(aug0.t@.contains(a));
                            assert(a != y);
                            assert(aug.out@[a] == aug0.out@[a]);
                        }
                        assert forall|a: Vertex, b: Vertex| #[trigger] aug.edge(a, b) implies aug0.edge(a, b) by {}
                        assert(aug.edges == aug0.edges);
                        assert(aug.t == aug0.t);
                        assert(self.covers(*v, aug, |a: Vertex, b: Vertex| true)) by {
                            let m = v.m_from_l@;
                            let mr = v.m_from_r@;
                            assert forall|a: Vertex, b: Vertex|
                                #![trigger aug.edge(a, b)]
                                v.n_in_r@.contains(a) && m.contains_key(b) && m[b] == a
                                    implies aug.edge(a, b) by {
                                assert(aug0.edge(a, b));
                            }
                            assert forall|a: Vertex, b: Vertex|
                                #![trigger aug.edge(a, b)]
                                m.contains_key(a) && v.n_in_r@.contains(b) && mr.contains_key(b)
                                    && b != m[a] && self.adj()[a].contains(b) implies aug.edge(
                                a,
                                b,
                            ) by {
                                assert(aug0.edge(a, b));
                            }
                        }
                    }
                }
                j = j + 1;
            }
            proof {
                assert forall|y2: Vertex, w: Vertex|
                    #![trigger v.can_add_spec(w), self.adm_data@[y2].n_in_l@.contains(w)]
                    mkeys@.take(i as int + 1).contains(y2) && self.adm_data@[y2].n_in_l@.contains(w)
                        && v.can_add_spec(w) implies aug.s@.contains(y2) by {
                    if !mkeys@.take(i as int).contains(y2) {
                        let k = choose|k: int| 0 <= k < i + 1 && #[trigger] mkeys@.take(i as int + 1)[k] == y2;
                        if k < i {
                            assert(mkeys@.take(i as int)[k] == y2);
                        }
                        assert(y2 == y);
                        assert(ys@.to_set().contains(w));
                        let kk = choose|kk: int| 0 <= kk < ys@.len() && ys@[kk] == w;
                        assert(v.can_add_spec(ys@[kk]));
                    }
                }
            }
            i = i + 1;
        }
        proof {
            let m = v.m_from_l@;
            let mr = v.m_from_r@;
            assert(v.wf());
            assert(mkeys@.take(mkeys@.len() as int) =~= mkeys@);
            assert forall|a: Vertex, b: Vertex| #[trigger] self.view_edge(*v, a, b) implies aug.edge(
                a,
                b,
            ) by {
                {
                    if v.n_in_r@.contains(a) && mr.contains_key(a) && b == mr[a] {
                        assert(m.contains_key(b) && m[b] == a);
                    }
                }
            }
            assert forall|y: Vertex| #[trigger] aug.s@.contains(y) <==> self.view_start(*v, y) by {
                if aug.s@.contains(y) {
                    assert(v.can_add_spec(aug.out@[y]));
                }
                if self.view_start(*v, y) {
                    let w = choose|w: Vertex|
                        self.adm_data@[y].n_in_l@.contains(w) && #[trigger] v.can_add_spec(w);
                    assert(mkeys@.to_set().contains(y));
                }
            }
            assert forall|x: Vertex| #[trigger] aug.t@.contains(x) <==> self.view_target(*v, x) by {
                if aug.t@.contains(x) {
                    assert(self.adj()[x].contains(aug.out@[x]));
                }
                if self.view_target(*v, x) {
                    let y = choose|y: Vertex|
                        v.n_in_r@.contains(y) && !mr.contains_key(y) && #[trigger] self.adj()[x].contains(y);
                }
            }
        }
        aug
    }

    /// The vertices whose matching has been deleted.
    pub open spec fn deleted_set(&self) -> Set<Vertex> {
        self.adm_data@.dom().filter(|u: Vertex| self.adm_data@[u].deleted_m)
    }

    /// The engine is consistent with its partition, and only vertices of R
    /// have their matching deleted.
    pub open spec fn checks_ready(&self) -> bool {
        &&& self.engine_ok(self.l@, self.r@, self.l@, self.r@, self.deleted_set())
        &&& self.deleted_set().subset_of(self.r@)
    }

    /// Along a path from a start to a target of the search problem built for
    /// `d`, the vertices at even places are matched vertices of R, each
    /// followed by its partner, and those at odd places are matched vertices
    /// of L, each followed by another matched vertex of R next to it.
    proof fn lemma_alternates(&self, d: AdmData, aug: AugmentingPath, p: Seq<Vertex>, i: int)
        requires
            self.checks_ready(),
            self.l@.contains(d.id),
            self.adm_data@[d.id] == d,
            self.view_ok(d, aug),
            aug.is_walk(p),
            aug.s@.contains(p[0]),
            aug.t@.contains(p.last()),
            0 <= i < p.len(),
        ensures
            i % 2 == 0 ==> i + 1 < p.len(),
            i % 2 == 0 ==> d.m_from_r@.contains_key(p[i]) && d.m_from_r@[p[i]] == p[i + 1],
            i % 2 == 1 ==> d.m_from_l@.contains_key(p[i]),
            i % 2 == 1 && i + 1 < p.len() ==> {
                &&& d.m_from_r@.contains_key(p[i + 1])
                &&& p[i + 1] != d.m_from_l@[p[i]]
                &&& self.adj()[p[i]].contains(p[i + 1])
            },
        decreases i,
    {
        let del = self.deleted_set();
        assert(self.vertex_ok(d.id, self.l@, self.r@, self.l@, self.r@, del));
        let m = d.m_from_l@;
        let mr = d.m_from_r@;
        if i > 0 {
            self.lemma_alternates(d, aug, p, i - 1);
        }
        if i % 2 == 0 {
            assert(mr.contains_key(p[i])) by {
                if i == 0 {
                    assert(aug.s@.contains(p[0]));
                }
            }
            assert(self.r@.contains(p[i])) by {
                assert(m.contains_key(mr[p[i]]));
            }
            if i + 1 == p.len() {
                assert(m.contains_key(p.last()));
                assert(self.l@.contains(p[i]));
            }
            assert(aug.edge(p[i], p[i + 1]));
            if m.contains_key(p[i]) {
                assert(self.l@.contains(p[i]));
            }
        } else {
            assert(m.contains_key(p[i]));
            if i + 1 < p.len() {
                assert(aug.edge(p[i], p[i + 1]));
                assert(self.l@.contains(p[i]));
                if mr.contains_key(p[i]) {
                    assert(m.contains_key(mr[p[i]]));
                    assert(self.r@.contains(p[i]));
                }
            }
        }
    }

    /// Whether `d` has a local augmenting path depends on the graph and on the
    /// neighbours in L of the vertices matched by `d` only.
    proof fn lemma_same_local(&self, other: Self, d: AdmData, q: Seq<Vertex>)
        requires
            self.graph == other.graph,
            forall|y: Vertex| #[trigger]
                d.m_from_r@.contains_key(y) ==> self.adm_data@[y].n_in_l@
                    == other.adm_data@[y].n_in_l@,
        ensures
            self.local_augmenting(d, q) == other.local_augmenting(d, q),
    {
        if q.len() >= 1 && d.m_from_r@.contains_key(q[0]) {
            assert(self.adm_data@[q[0]].n_in_l@ == other.adm_data@[q[0]].n_in_l@);
            assert(self.view_start(d, q[0]) == other.view_start(d, q[0]));
        }
        assert(self.adj() == other.adj());
        assert forall|a: Vertex, b: Vertex| #[trigger]
            self.view_edge(d, a, b) == other.view_edge(d, a, b) by {}
        if q.len() >= 1 {
            assert(self.view_target(d, q.last()) == other.view_target(d, q.last()));
            if !d.m_from_r@.contains_key(q[0]) {
                assert(!self.view_start(d, q[0]) && !other.view_start(d, q[0]));
            }
        }
        if self.local_augmenting(d, q) {
            assert forall|i: int| 0 <= i < q.len() - 1 implies #[trigger] other.view_edge(
                d,
                q[i],
                q[i + 1],
            ) by {
                assert(self.view_edge(d, q[i], q[i + 1]));
            }
        }
        if other.local_augmenting(d, q) {
            assert forall|i: int| 0 <= i < q.len() - 1 implies #[trigger] self.view_edge(
                d,
                q[i],
                q[i + 1],
            ) by {
                assert(other.view_edge(d, q[i], q[i + 1]));
            }
        }
    }

    /// In a search problem that is exactly the local alternating graph of
    /// `d`, and whose start-to-target paths qualify, the augmenting paths are
    /// the local augmenting paths of `d`.
    proof fn lemma_exact_view_paths(&self, d: AdmData, aug: AugmentingPath, q: Seq<Vertex>)
        requires
            self.view_exact(d, aug),
            aug.walks_qualify(),
        ensures
            aug.is_augmenting(q) <==> self.local_augmenting(d, q),
    {
        if self.local_augmenting(d, q) {
            assert forall|i: int| 0 <= i < q.len() - 1 implies #[trigger] aug.edge(q[i], q[i + 1]) by {
                assert(self.view_edge(d, q[i], q[i + 1]));
            }
            assert(aug.is_walk(q));
        }
        if aug.is_augmenting(q) {
            assert forall|i: int| 0 <= i < q.len() - 1 implies #[trigger] self.view_edge(
                d,
                q[i],
                q[i + 1],
            ) by {
                assert(aug.edge(q[i], q[i + 1]));
            }
        }
    }

    /// In the search problem built for `d`, every path from a start to a
    /// target has even length, and its ends have outside partners.
    proof fn lemma_view_walks_qualify(&self, d: AdmData, aug: AugmentingPath)
        requires
            self.checks_ready(),
            self.l@.contains(d.id),
            self.adm_data@[d.id] == d,
            self.view_ok(d, aug),
        ensures
            aug.walks_qualify(),
    {
        assert forall|p: Seq<Vertex>|
            #![trigger aug.is_walk(p)]
            aug.is_walk(p) && p.len() >= 2 && aug.s@.contains(p[0]) && aug.t@.contains(p.last())
                implies p.len() % 2 == 0 && aug.out@.contains_key(p[0]) && aug.out@.contains_key(
            p.last(),
        ) by {
            self.lemma_alternates(d, aug, p, p.len() - 1);
        }
    }

    /// The change along an augmenting path of the search problem built for
    /// `d` fits `d`'s matching, grows it by one pair, and leaves each pair
    /// running from L to a neighbour in R of both ends.
    pub proof fn lemma_augmenting_path_fits(&self, d: AdmData, aug: AugmentingPath, p: Seq<Vertex>)
        requires
            self.checks_ready(),
            self.l@.contains(d.id),
            self.adm_data@[d.id] == d,
            self.view_ok(d, aug),
            aug.is_augmenting(p),
        ensures
            d.fits_maps(aug.removed_by(p), aug.added_by(p)),
            aug.added_by(p).dom().len() == aug.removed_by(p).dom().len() + 1,
            forall|x: Vertex| #[trigger]
                d.applied_maps(aug.removed_by(p), aug.added_by(p)).contains_key(x) ==> {
                    let y = d.applied_maps(aug.removed_by(p), aug.added_by(p))[x];
                    &&& self.l@.contains(x)
                    &&& self.r@.contains(y)
                    &&& d.n_in_r@.contains(y)
                    &&& self.adj()[x].contains(y)
                },
    {
        let del = self.deleted_set();
        assert(self.vertex_ok(d.id, self.l@, self.r@, self.l@, self.r@, del));
        assert forall|i: int| 0 <= i < p.len() implies #[trigger] alternates_at(
            d.m_from_l@,
            d.m_from_r@,
            p,
            i,
        ) && (i % 2 == 1 && i + 1 < p.len() ==> self.adj()[p[i]].contains(p[i + 1])) by {
            self.lemma_alternates(d, aug, p, i);
        }
        let first = p[0];
        let last = p.last();
        assert(aug.s@.contains(first) && aug.t@.contains(last));
        lemma_delta_fits(d, aug, p);
        let m = d.m_from_l@;
        let mr = d.m_from_r@;
        let n = p.len();
        let rem = aug.removed_by(p);
        let add = aug.added_by(p);
        let res = d.applied_maps(rem, add);
        assert forall|x: Vertex| #[trigger] res.contains_key(x) implies {
            &&& self.l@.contains(x)
            &&& self.r@.contains(res[x])
            &&& d.n_in_r@.contains(res[x])
            &&& self.adj()[x].contains(res[x])
        } by {
            if add.contains_key(x) {
                if x == aug.out@[first] {
                    assert(alternates_at(m, mr, p, 0));
                    assert(m.contains_key(mr[first]));
                } else if x == last {
                } else {
                    let i = choose|i: int|
                        0 <= i < n - 1 && i % 2 == 1 && #[trigger] p[i] == x && add[x] == p[i + 1];
                    assert(alternates_at(m, mr, p, i));
                    assert(m.contains_key(mr[p[i + 1]]));
                }
            } else {
                assert(m.remove_keys(rem.dom()).contains_key(x));
            }
        }
    }
}

/// `d1` is the state `d0` of a neighbour of `v` after `v` moved to R: when
/// its matching is deleted or it is `v` itself, the matching is unchanged;
/// otherwise it gains one pair `w -> v` for some `w` of `cands` other than `v`
/// that could be added, or stays unchanged when there is no such `w`.
pub open spec fn n1_repaired(d0: AdmData, d1: AdmData, v: Vertex, cands: Set<Vertex>) -> bool {
    if d0.deleted_m || d0.id == v {
        d1.m_from_l@ == d0.m_from_l@
    } else {
        ||| exists|w: Vertex|
            cands.contains(w) && w != v && #[trigger] d0.can_add_spec(w) && d1.m_from_l@
                == d0.m_from_l@.insert(w, v)
        ||| (forall|w: Vertex| cands.contains(w) && w != v ==> !#[trigger] d0.can_add_spec(w))
            && d1.m_from_l@ == d0.m_from_l@
    }
}

/// `z` is a vertex of `cands` other than `v` that the state `d0` could add to
/// its matching once the pair holding `v` is gone.
pub open spec fn l2_addable(d0: AdmData, v: Vertex, cands: Set<Vertex>, z: Vertex) -> bool {
    &&& cands.contains(z)
    &&& z != v
    &&& !d0.m_from_l@.remove(v).contains_key(z)
    &&& !d0.n_in_l@.contains(z)
    &&& z != d0.id
}

/// `d1` is `d0` with the pair `v -> x` of its matching replaced by a pair
/// `z -> x` for some `z` of `cands` that could be added, or just removed
/// when there is no such `z`.
pub open spec fn l2_replaced(d0: AdmData, d1: AdmData, v: Vertex, cands: Set<Vertex>) -> bool {
    let x = d0.m_from_l@[v];
    let m = d0.m_from_l@.remove(v);
    ||| exists|z: Vertex| #[trigger] l2_addable(d0, v, cands, z) && d1.m_from_l@ == m.insert(z, x)
    ||| (forall|z: Vertex| !#[trigger] l2_addable(d0, v, cands, z)) && d1.m_from_l@ == m
}

/// What the second-neighbour update did to the state `d0`: nothing when its
/// matching does not hold `v`, else the replacement that `l2_replaced` says.
pub open spec fn l2_done(d0: AdmData, d1: AdmData, v: Vertex, states: Map<Vertex, AdmData>) -> bool {
    if d0.m_from_l@.contains_key(v) {
        l2_replaced(d0, d1, v, states[d0.m_from_l@[v]].n_in_l@)
    } else {
        d1 == d0
    }
}

/// Between two steps the engine keeps, for every vertex `u` with state `d`:
/// its neighbours split into those in L (`n_in_l`) and those in R (`n_in_r`);
/// the two matching maps are inverse to each other; each matched pair `x -> y`
/// runs from a vertex `x` of L, other than `u` and not a neighbour of `u`, to a
/// vertex `y` of R that is a neighbour of both `u` and `x`; and the matching is
/// deleted, and empty, exactly when `u` is in R.
pub proof fn lemma_engine_invariants(e: AdmGraph)
    requires
        e.wf(),
    ensures
        e.l@.disjoint(e.r@),
        e.l@.union(e.r@) == e.vertices(),
        forall|u: Vertex| #[trigger]
            e.vertices().contains(u) ==> {
                let d = e.adm_data@[u];
                &&& d.id == u
                &&& d.n_in_l@.union(d.n_in_r@) == e.adj()[u]
                &&& d.n_in_l@.disjoint(d.n_in_r@)
                &&& d.n_in_l@.subset_of(e.l@)
                &&& d.n_in_r@.subset_of(e.r@)
                &&& inverse_maps(d.m_from_l@, d.m_from_r@)
                &&& forall|x: Vertex| #[trigger]
                    d.m_from_l@.contains_key(x) ==> {
                        &&& e.l@.contains(x)
                        &&& x != u
                        &&& !d.n_in_l@.contains(x)
                        &&& e.r@.contains(d.m_from_l@[x])
                        &&& d.n_in_r@.contains(d.m_from_l@[x])
                        &&& e.adj()[x].contains(d.m_from_l@[x])
                    }
                &&& (d.deleted_m <==> e.r@.contains(u))
                &&& d.deleted_m ==> d.m_from_l@.is_empty() && d.m_from_r@.is_empty()
            },
{
    assert forall|u: Vertex| #[trigger] e.vertices().contains(u) implies {
        let d = e.adm_data@[u];
        &&& d.n_in_l@.union(d.n_in_r@) == e.adj()[u]
        &&& d.deleted_m ==> d.m_from_r@.is_empty()
    } by {
        let d = e.adm_data@[u];
        assert(e.vertex_ok(u, e.l@, e.r@, e.l@, e.r@, e.r@));
        assert forall|w: Vertex| e.adj()[u].contains(w) implies e.vertices().contains(w) by {
            assert(is_edge_to(*e.graph, w, u));
        }
        assert(d.n_in_l@.union(d.n_in_r@) =~= e.adj()[u]);
        if d.deleted_m {
            assert forall|y: Vertex| !d.m_from_r@.contains_key(y) by {
                if d.m_from_r@.contains_key(y) {
                    assert(d.m_from_l@.contains_key(d.m_from_r@[y]));
                }
            }
            assert(d.m_from_r@ =~= Map::empty());
        }
    }
    assert forall|u: Vertex| #[trigger] e.vertices().contains(u) implies e.vertex_ok(
        u,
        e.l@,
        e.r@,
        e.l@,
        e.r@,
        e.r@,
    ) by {}
}

/// At place `i` of `p` the path alternates: a matched vertex of R followed by
/// its partner at even places, a matched vertex of L followed by another
/// matched vertex of R at odd places.
pub open spec fn alternates_at(
    m: Map<Vertex, Vertex>,
    mr: Map<Vertex, Vertex>,
    p: Seq<Vertex>,
    i: int,
) -> bool {
    &&& i % 2 == 0 ==> mr.contains_key(p[i]) && mr[p[i]] == p[i + 1]
    &&& i % 2 == 1 ==> m.contains_key(p[i])
    &&& i % 2 == 1 && i + 1 < p.len() ==> mr.contains_key(p[i + 1]) && p[i + 1] != m[p[i]]
}

/// The change along an alternating path from a start whose outside partner
/// could join the matching to a target whose outside partner is free fits the
/// matching and grows it by one pair.
proof fn lemma_delta_fits(d: AdmData, aug: AugmentingPath, p: Seq<Vertex>)
    requires
        d.wf(),
        !d.deleted_m,
        aug.is_augmenting(p),
        forall|i: int| 0 <= i < p.len() ==> #[trigger] alternates_at(d.m_from_l@, d.m_from_r@, p, i),
        d.can_add_spec(aug.out@[p[0]]),
        !d.m_from_r@.contains_key(aug.out@[p.last()]),
    ensures
        d.fits_maps(aug.removed_by(p), aug.added_by(p)),
        aug.added_by(p).dom().len() == aug.removed_by(p).dom().len() + 1,
        forall|x: Vertex| #[trigger]
            aug.added_by(p).contains_key(x) ==> {
                ||| (x == aug.out@[p[0]] && aug.added_by(p)[x] == p[0])
                ||| (x == p.last() && aug.added_by(p)[x] == aug.out@[p.last()])
                ||| exists|i: int|
                    0 <= i < p.len() - 1 && i % 2 == 1 && #[trigger] p[i] == x && aug.added_by(p)[x]
                        == p[i + 1]
            },
{
    let m = d.m_from_l@;
    let mr = d.m_from_r@;
    let n = p.len();
    let rem = aug.removed_by(p);
    let add = aug.added_by(p);
    let kept = m.remove_keys(rem.dom());
    let first = p[0];
    let last = p[n - 1];
    let inner = p.subrange(1, n - 1);
    let pairs = chunk_pairs(inner);
    lemma_chunk_pairs_rev(p);
    assert forall|a: int, b: int| 0 <= a < inner.len() && 0 <= b < inner.len() && a != b implies inner[a] != inner[b] by {
        assert(inner[a] == p[a + 1] && inner[b] == p[b + 1]);
    }
    lemma_chunk_pairs(inner);
    let o_first = aug.out@[first];
    let o_last = aug.out@[last];
    assert(!m.contains_key(o_first));
    assert(!mr.contains_key(o_last));
    assert(add == pairs.insert(last, o_last).insert(o_first, first));
    // every key of `pairs` is a matched vertex of L at an odd place before the last
    assert forall|x: Vertex| #[trigger] pairs.contains_key(x) implies exists|i: int|
        0 <= i < n - 1 && i % 2 == 1 && #[trigger] p[i] == x && pairs[x] == p[i + 1] by {
        let j = choose|j: int| 0 <= j < inner.len() && j % 2 == 0 && inner[j] == x;
        assert(p[j + 1] == x);
        assert(pairs[inner[j]] == inner[j + 1]);
    }
    assert(!pairs.contains_key(last)) by {
        if pairs.contains_key(last) {
            let i = choose|i: int| 0 <= i < n - 1 && i % 2 == 1 && #[trigger] p[i] == last && pairs[last] == p[i + 1];
        }
    }
    assert(alternates_at(m, mr, p, n - 1));
    assert(m.contains_key(last));
    assert(o_first != last);
    assert(!pairs.contains_key(o_first)) by {
        if pairs.contains_key(o_first) {
            let i = choose|i: int| 0 <= i < n - 1 && i % 2 == 1 && #[trigger] p[i] == o_first && pairs[o_first] == p[i + 1];
            assert(alternates_at(m, mr, p, i));
        }
    }
    // what `add` maps each of its keys to
    assert forall|x: Vertex| #[trigger] add.contains_key(x) implies {
        ||| (x == o_first && add[x] == first)
        ||| (x == last && add[x] == o_last)
        ||| exists|i: int| 0 <= i < n - 1 && i % 2 == 1 && #[trigger] p[i] == x && add[x] == p[i + 1]
    } by {
        if x != o_first && x != last {
            assert(pairs.contains_key(x));
        }
    }
    // the pairs that stay are not touched by the path
    assert forall|z: Vertex| #[trigger] kept.contains_key(z) implies {
        &&& m.contains_key(z)
        &&& kept[z] == m[z]
        &&& forall|i: int| 0 <= i < n && i % 2 == 0 ==> m[z] != p[i]
    } by {
        assert forall|i: int| 0 <= i < n && i % 2 == 0 implies m[z] != p[i] by {
            if m[z] == p[i] {
                assert(alternates_at(m, mr, p, i));
                assert(mr[p[i]] == z);
                assert(rem.contains_key(p[i + 1]));
            }
        }
    }
    assert(d.fits_maps(rem, add)) by {
        assert forall|x: Vertex| #[trigger] rem.contains_key(x) implies m.contains_key(x) && m[x]
            == rem[x] by {
            let i = choose|i: int| 0 <= i < n && i % 2 == 1 && #[trigger] p[i] == x;
            assert(alternates_at(m, mr, p, i - 1));
            assert(mr[p[i - 1]] == p[i]);
        }
        assert forall|x: Vertex| #[trigger] add.contains_key(x) implies !kept.contains_key(x)
            && !d.n_in_l@.contains(x) && x != d.id by {
            if x != o_first && x != last {
                let i = choose|i: int| 0 <= i < n - 1 && i % 2 == 1 && #[trigger] p[i] == x && add[x] == p[i + 1];
                assert(rem.contains_key(p[i]));
                assert(m.contains_key(x));
            } else if x == last {
                assert(rem.contains_key(p[n - 1]));
            }
        }
        assert forall|x1: Vertex, x2: Vertex|
            #![trigger add[x1], add[x2]]
            add.contains_key(x1) && add.contains_key(x2) && x1 != x2 implies add[x1] != add[x2] by {
            assert(alternates_at(m, mr, p, 0));
            if x1 != o_first && x1 != last {
                let i = choose|i: int| 0 <= i < n - 1 && i % 2 == 1 && #[trigger] p[i] == x1 && add[x1] == p[i + 1];
                assert(alternates_at(m, mr, p, i));
                if x2 != o_first && x2 != last {
                    let k = choose|k: int| 0 <= k < n - 1 && k % 2 == 1 && #[trigger] p[k] == x2 && add[x2] == p[k + 1];
                    assert(i != k);
                    assert(p[i + 1] != p[k + 1]);
                } else if x2 == o_first {
                    assert(p[i + 1] != p[0]);
                }
            }
            if x2 != o_first && x2 != last {
                let k = choose|k: int| 0 <= k < n - 1 && k % 2 == 1 && #[trigger] p[k] == x2 && add[x2] == p[k + 1];
                assert(alternates_at(m, mr, p, k));
                if x1 == o_first {
                    assert(p[k + 1] != p[0]);
                }
            }
        }
        assert forall|x: Vertex, z: Vertex|
            #![trigger add[x], kept[z]]
            add.contains_key(x) && kept.contains_key(z) implies kept[z] != add[x] by {
            assert(mr.contains_key(m[z]));
            if x != o_first && x != last {
                let i = choose|i: int| 0 <= i < n - 1 && i % 2 == 1 && #[trigger] p[i] == x && add[x] == p[i + 1];
            }
        }
    }
    // sizes
    assert(add.dom() == pairs.dom().insert(last).insert(o_first));
    assert(add.dom().len() == pairs.dom().len() + 2);
    assert(rem.dom().len() == n / 2);
}

} // verus!
