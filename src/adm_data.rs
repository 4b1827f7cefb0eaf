//! The incremental state that each vertex keeps during an ordering run.
use crate::augmenting_path::MatchingEdges;
use crate::sets::map_keys;
use graphbench::graph::Vertex;
use std::collections::{HashMap, HashSet};
use vstd::prelude::*;

verus! {

broadcast use vstd::std_specs::hash::group_hash_axioms;

/// `a` and `b` are inverse maps of each other.
pub open spec fn inverse_maps(a: Map<Vertex, Vertex>, b: Map<Vertex, Vertex>) -> bool {
    &&& forall|x: Vertex| #[trigger] a.contains_key(x) ==> b.contains_key(a[x]) && b[a[x]] == x
    &&& forall|y: Vertex| #[trigger] b.contains_key(y) ==> a.contains_key(b[y]) && a[b[y]] == y
}

/// The state of one vertex: its neighbours in L and in R, and a matching from
/// vertices of L to vertices of R, each pair a route of length two from the
/// vertex into L through R.
pub struct AdmData {
    pub id: Vertex,
    pub n_in_l: HashSet<Vertex>,
    pub n_in_r: HashSet<Vertex>,
    pub deleted_m: bool,
    /// From a matched vertex in L to its partner in R.
    pub m_from_l: HashMap<Vertex, Vertex>,
    /// From a matched vertex in R to its partner in L.
    pub m_from_r: HashMap<Vertex, Vertex>,
}

impl AdmData {
    /// The vertex could join the matching on its L side.
    pub open spec fn can_add_spec(&self, x: Vertex) -> bool {
        &&& !self.m_from_l@.contains_key(x)
        &&& !self.n_in_l@.contains(x)
        &&& x != self.id
    }

    /// `|N_L| + |M|`: how many disjoint routes into L the vertex still has.
    pub open spec fn budget(&self) -> nat {
        self.n_in_l@.len() + self.m_from_l@.len()
    }

    /// The two matching maps are inverse, no neighbour lies both in L and R,
    /// every matched L vertex is a non-neighbour other than the vertex itself,
    /// and a deleted matching is empty.
    pub open spec fn wf(&self) -> bool {
        &&& inverse_maps(self.m_from_l@, self.m_from_r@)
        &&& self.n_in_l@.disjoint(self.n_in_r@)
        &&& forall|x: Vertex| #[trigger]
            self.m_from_l@.contains_key(x) ==> !self.n_in_l@.contains(x) && x != self.id
        &&& self.deleted_m ==> self.m_from_l@.is_empty()
    }

    /// The matching after the pairs `rem` are removed and the pairs `add` added.
    pub open spec fn applied_maps(&self, rem: Map<Vertex, Vertex>, add: Map<Vertex, Vertex>) -> Map<
        Vertex,
        Vertex,
    > {
        self.m_from_l@.remove_keys(rem.dom()).union_prefer_right(add)
    }

    /// The matching after `e` is applied: the removed pairs go, the added ones come.
    pub open spec fn applied(&self, e: &MatchingEdges) -> Map<Vertex, Vertex> {
        self.applied_maps(e.e_remove@, e.e_add@)
    }

    /// `rem` holds pairs of the matching and `add` pairs on vertices that are
    /// free once `rem` is gone, so that what results is again a matching of
    /// this vertex.
    pub open spec fn fits_maps(&self, rem: Map<Vertex, Vertex>, add: Map<Vertex, Vertex>) -> bool {
        let m = self.m_from_l@;
        let kept = m.remove_keys(rem.dom());
        &&& !self.deleted_m
        &&& forall|x: Vertex| #[trigger] rem.contains_key(x) ==> m.contains_key(x) && m[x] == rem[x]
        &&& forall|x: Vertex| #[trigger]
            add.contains_key(x) ==> !kept.contains_key(x) && !self.n_in_l@.contains(x) && x
                != self.id
        &&& forall|x1: Vertex, x2: Vertex|
            #![trigger add[x1], add[x2]]
            add.contains_key(x1) && add.contains_key(x2) && x1 != x2 ==> add[x1] != add[x2]
        &&& forall|x: Vertex, z: Vertex|
            #![trigger add[x], kept[z]]
            add.contains_key(x) && kept.contains_key(z) ==> kept[z] != add[x]
    }

    /// `e` fits the matching, as `fits_maps` says.
    pub open spec fn fits(&self, e: &MatchingEdges) -> bool {
        self.fits_maps(e.e_remove@, e.e_add@)
    }

    /// The state of `v` at the start: all its neighbours in L, nothing matched.
    pub fn new(v: Vertex, v_neighbours: HashSet<Vertex>) -> (r: Self)
        ensures
            r.id == v,
            r.n_in_l@ == v_neighbours@,
            r.n_in_r@.is_empty(),
            !r.deleted_m,
            r.m_from_l@.is_empty(),
            r.m_from_r@.is_empty(),
            r.wf(),
    {
        AdmData {
            id: v,
            n_in_l: v_neighbours,
            n_in_r: HashSet::new(),
            deleted_m: false,
            m_from_l: HashMap::new(),
            m_from_r: HashMap::new(),
        }
    }

    /// Once the vertex itself is in R its matching is no longer needed.
    pub fn delete_m(&mut self)
        requires
            old(self).wf(),
        ensures
            final(self).wf(),
            final(self).deleted_m,
            final(self).m_from_l@.is_empty(),
            final(self).m_from_r@.is_empty(),
            final(self).id == old(self).id,
            final(self).n_in_l@ == old(self).n_in_l@,
            final(self).n_in_r@ == old(self).n_in_r@,
    {
        self.m_from_l = HashMap::new();
        self.m_from_r = HashMap::new();
        self.deleted_m = true;
    }

    /// Removes the pair whose L side is `v`, and returns its partner in R.
    pub fn remove_v_from_m(&mut self, v: Vertex) -> (r: Option<Vertex>)
        requires
            old(self).wf(),
        ensures
            final(self).wf(),
            final(self).id == old(self).id,
            final(self).deleted_m == old(self).deleted_m,
            final(self).n_in_l@ == old(self).n_in_l@,
            final(self).n_in_r@ == old(self).n_in_r@,
            old(self).m_from_l@.contains_key(v) ==> {
                &&& r == Some(old(self).m_from_l@[v])
                &&& final(self).m_from_l@ == old(self).m_from_l@.remove(v)
                &&& final(self).m_from_r@ == old(self).m_from_r@.remove(old(self).m_from_l@[v])
            },
            !old(self).m_from_l@.contains_key(v) ==> {
                &&& r is None
                &&& final(self).m_from_l@ == old(self).m_from_l@
                &&& final(self).m_from_r@ == old(self).m_from_r@
            },
    {
        match self.m_from_l.remove(&v) {
            None => None,
            Some(u) => {
                self.m_from_r.remove(&u);
                Some(u)
            },
        }
    }

    /// The neighbour `v` has moved from L to R.
    pub fn move_v_in_l_to_r(&mut self, v: &Vertex)
        requires
            old(self).wf(),
        ensures
            final(self).wf(),
            final(self).n_in_l@ == old(self).n_in_l@.remove(*v),
            final(self).n_in_r@ == old(self).n_in_r@.insert(*v),
            final(self).id == old(self).id,
            final(self).deleted_m == old(self).deleted_m,
            final(self).m_from_l@ == old(self).m_from_l@,
            final(self).m_from_r@ == old(self).m_from_r@,
    {
        self.n_in_l.remove(v);
        self.n_in_r.insert(*v);
    }

    /// Adds the pair from `v_in_l` to `u_in_r` to the matching.
    pub fn add_edges_to_m(&mut self, v_in_l: Vertex, u_in_r: Vertex)
        requires
            old(self).wf(),
            !old(self).deleted_m,
            old(self).can_add_spec(v_in_l),
            !old(self).m_from_r@.contains_key(u_in_r),
        ensures
            final(self).wf(),
            final(self).m_from_l@ == old(self).m_from_l@.insert(v_in_l, u_in_r),
            final(self).m_from_r@ == old(self).m_from_r@.insert(u_in_r, v_in_l),
            final(self).id == old(self).id,
            final(self).deleted_m == old(self).deleted_m,
            final(self).n_in_l@ == old(self).n_in_l@,
            final(self).n_in_r@ == old(self).n_in_r@,
    {
        self.m_from_r.insert(u_in_r, v_in_l);
        self.m_from_l.insert(v_in_l, u_in_r);
    }

    /// Applies the change that an augmenting path found: removes the pairs of
    /// `e_remove`, then adds those of `e_add`.
    pub fn update_m(&mut self, edges: &MatchingEdges)
        requires
            old(self).wf(),
            old(self).fits(edges),
        ensures
            final(self).wf(),
            final(self).m_from_l@ == old(self).applied(edges),
            final(self).m_from_l@.len() == old(self).m_from_l@.len() - edges.e_remove@.len()
                + edges.e_add@.len(),
            final(self).id == old(self).id,
            final(self).deleted_m == old(self).deleted_m,
            final(self).n_in_l@ == old(self).n_in_l@,
            final(self).n_in_r@ == old(self).n_in_r@,
    {
        let ghost m0 = self.m_from_l@;
        let ghost mr0 = self.m_from_r@;
        let rem = map_keys(&edges.e_remove);
        let mut i: usize = 0;
        while i < rem.len()
            invariant
                old(self).wf(),
                old(self).fits(edges),
                m0 == old(self).m_from_l@,
                rem@.to_set() == edges.e_remove@.dom(),
                rem@.no_duplicates(),
                rem@.len() == edges.e_remove@.dom().len(),
                0 <= i <= rem.len(),
                self.m_from_l@ == m0.remove_keys(rem@.take(i as int).to_set()),
                self.m_from_l@.len() == m0.len() - i,
                inverse_maps(self.m_from_l@, self.m_from_r@),
                self.id == old(self).id,
                self.deleted_m == old(self).deleted_m,
                self.n_in_l@ == old(self).n_in_l@,
                self.n_in_r@ == old(self).n_in_r@,
            decreases rem.len() - i,
        {
            let x = rem[i];
            assert(edges.e_remove@.contains_key(x)) by {
                assert(rem@.to_set().contains(rem@[i as int]));
            }
            let y = *edges.e_remove.get(&x).unwrap();
            proof {
                assert(!rem@.take(i as int).contains(x)) by {
                    if rem@.take(i as int).contains(x) {
                        let j = choose|j: int| 0 <= j < i && rem@.take(i as int)[j] == x;
                        assert(rem@[j] == rem@[i as int]);
                    }
                }
                assert(self.m_from_l@.contains_key(x));
                assert(rem@.take(i as int + 1) =~= rem@.take(i as int).push(x));
                rem@.take(i as int).lemma_push_to_set_commute(x);
            }
            self.m_from_l.remove(&x);
            self.m_from_r.remove(&y);
            proof {
                assert(self.m_from_l@ =~= m0.remove_keys(rem@.take(i as int + 1).to_set()));
                assert(inverse_maps(self.m_from_l@, self.m_from_r@));
            }
            i = i + 1;
        }
        proof {
            assert(rem@.take(rem@.len() as int) =~= rem@);
        }
        let ghost kept = self.m_from_l@;
        assert(kept == m0.remove_keys(edges.e_remove@.dom()));
        let add = map_keys(&edges.e_add);
        let mut j: usize = 0;
        while j < add.len()
            invariant
                old(self).wf(),
                old(self).fits(edges),
                m0 == old(self).m_from_l@,
                kept == m0.remove_keys(edges.e_remove@.dom()),
                add@.to_set() == edges.e_add@.dom(),
                add@.no_duplicates(),
                add@.len() == edges.e_add@.dom().len(),
                0 <= j <= add.len(),
                self.m_from_l@ == kept.union_prefer_right(
                    edges.e_add@.restrict(add@.take(j as int).to_set()),
                ),
                self.m_from_l@.len() == kept.len() + j,
                inverse_maps(self.m_from_l@, self.m_from_r@),
                self.id == old(self).id,
                self.deleted_m == old(self).deleted_m,
                self.n_in_l@ == old(self).n_in_l@,
                self.n_in_r@ == old(self).n_in_r@,
            decreases add.len() - j,
        {
            let x = add[j];
            assert(edges.e_add@.contains_key(x)) by {
                assert(add@.to_set().contains(add@[j as int]));
            }
            let y = *edges.e_add.get(&x).unwrap();
            proof {
                assert(!add@.take(j as int).contains(x)) by {
                    if add@.take(j as int).contains(x) {
                        let k = choose|k: int| 0 <= k < j && add@.take(j as int)[k] == x;
                        assert(add@[k] == add@[j as int]);
                    }
                }
                assert(!self.m_from_l@.contains_key(x));
                assert(!self.m_from_r@.contains_key(y)) by {
                    if self.m_from_r@.contains_key(y) {
                        let z = self.m_from_r@[y];
                        assert(self.m_from_l@.contains_key(z));
                        if kept.contains_key(z) && !add@.take(j as int).contains(z) {
                            assert(kept[z] != edges.e_add@[x]);
                        } else {
                            assert(add@.take(j as int).to_set().contains(z));
                            assert(edges.e_add@.contains_key(z));
                            assert(edges.e_add@[z] != edges.e_add@[x]);
                        }
                    }
                }
                assert(add@.take(j as int + 1) =~= add@.take(j as int).push(x));
                add@.take(j as int).lemma_push_to_set_commute(x);
            }
            self.m_from_r.insert(y, x);
            self.m_from_l.insert(x, y);
            proof {
                assert(self.m_from_l@ =~= kept.union_prefer_right(
                    edges.e_add@.restrict(add@.take(j as int + 1).to_set()),
                ));
                assert(inverse_maps(self.m_from_l@, self.m_from_r@));
            }
            j = j + 1;
        }
        proof {
            assert(add@.take(add@.len() as int) =~= add@);
            assert(edges.e_add@.restrict(add@.to_set()) =~= edges.e_add@);
            assert(self.m_from_l@ =~= old(self).applied(edges));
        }
    }

    /// The first vertex of `cands`, other than `skip`, that could join the
    /// matching on its L side.
    pub fn first_addable(&self, cands: &Vec<Vertex>, skip: Vertex) -> (r: Option<Vertex>)
        ensures
            r matches Some(w) ==> cands@.contains(w) && w != skip && self.can_add_spec(w),
            r is None ==> forall|w: Vertex|
                cands@.contains(w) && w != skip ==> !self.can_add_spec(w),
    {
        let mut j: usize = 0;
        while j < cands.len()
            invariant
                0 <= j <= cands.len(),
                forall|k: int| 0 <= k < j && cands@[k] != skip ==> !self.can_add_spec(cands@[k]),
            decreases cands.len() - j,
        {
            let w = cands[j];
            if w != skip && self.can_add_vertex_in_l_to_m(&w) {
                return Some(w);
            }
            j = j + 1;
        }
        None
    }

    /// The local budget `|N_L| + |M|` is at most `p`.
    pub fn is_maximal_matching_size_p(&self, p: usize) -> (r: bool)
        ensures
            r == (self.budget() <= p),
    {
        let m = self.m_from_l.len();
        m <= p && self.n_in_l.len() <= p - m
    }

    /// `v` is neither matched, nor a neighbour in L, nor the vertex itself.
    pub fn can_add_vertex_in_l_to_m(&self, v: &Vertex) -> (r: bool)
        ensures
            r == self.can_add_spec(*v),
    {
        !(self.m_from_l.contains_key(v) || self.n_in_l.contains(v) || *v == self.id)
    }
}

} // verus!
