//! A search for one augmenting path in the local matching structure of a vertex.
use crate::sets::{map_keys, set_elements};
use graphbench::graph::Vertex;
use std::collections::{HashMap, HashSet};
use vstd::prelude::*;

verus! {

broadcast use vstd::std_specs::hash::group_hash_axioms;

/// The change that an augmenting path makes to a matching.
///
/// Both maps go from a vertex of L to its partner in R: `e_remove` holds the
/// matching edges that the path consumes, `e_add` the edges that replace them.
pub struct MatchingEdges {
    pub e_add: HashMap<Vertex, Vertex>,
    pub e_remove: HashMap<Vertex, Vertex>,
}

/// The pairs `q[0] -> q[1]`, `q[2] -> q[3]`, ... of consecutive elements.
pub open spec fn chunk_pairs(q: Seq<Vertex>) -> Map<Vertex, Vertex>
    decreases q.len(),
{
    if q.len() < 2 {
        Map::empty()
    } else {
        chunk_pairs(q.subrange(2, q.len() as int)).insert(q[0], q[1])
    }
}

/// The pairs `q[1] -> q[0]`, `q[3] -> q[2]`, ...: the matching edges that a path
/// `[s, l, r, l, ..., r, l]` runs along, keyed by their L side.
pub open spec fn chunk_pairs_rev(q: Seq<Vertex>) -> Map<Vertex, Vertex>
    decreases q.len(),
{
    if q.len() < 2 {
        Map::empty()
    } else {
        chunk_pairs_rev(q.subrange(2, q.len() as int)).insert(q[1], q[0])
    }
}

/// On a sequence of even length with no element twice, `chunk_pairs` maps each
/// element at an even index to the next one, and has nothing else.
pub proof fn lemma_chunk_pairs(q: Seq<Vertex>)
    requires
        q.len() % 2 == 0,
        q.no_duplicates(),
    ensures
        forall|i: int|
            0 <= i < q.len() && i % 2 == 0 ==> #[trigger] chunk_pairs(q).contains_key(q[i])
                && chunk_pairs(q)[q[i]] == q[i + 1],
        forall|x: Vertex| #[trigger]
            chunk_pairs(q).contains_key(x) ==> exists|i: int|
                0 <= i < q.len() && i % 2 == 0 && q[i] == x,
        chunk_pairs(q).dom().finite(),
        chunk_pairs(q).dom().len() == q.len() / 2,
    decreases q.len(),
{
    if q.len() >= 2 {
        let rest = q.subrange(2, q.len() as int);
        assert forall|a: int, b: int| 0 <= a < rest.len() && 0 <= b < rest.len() && a != b implies rest[a] != rest[b] by {
            assert(rest[a] == q[a + 2] && rest[b] == q[b + 2]);
        }
        lemma_chunk_pairs(rest);
        let m = chunk_pairs(q);
        assert(m == chunk_pairs(rest).insert(q[0], q[1]));
        assert(!chunk_pairs(rest).contains_key(q[0])) by {
            if chunk_pairs(rest).contains_key(q[0]) {
                let i = choose|i: int| 0 <= i < rest.len() && i % 2 == 0 && rest[i] == q[0];
                assert(q[i + 2] == q[0]);
            }
        }
        assert forall|i: int| 0 <= i < q.len() && i % 2 == 0 implies #[trigger] m.contains_key(q[i])
            && m[q[i]] == q[i + 1] by {
            if i >= 2 {
                assert(rest[i - 2] == q[i]);
                assert(chunk_pairs(rest).contains_key(rest[i - 2]));
                assert(q[i] != q[0]);
            }
        }
        assert forall|x: Vertex| #[trigger] m.contains_key(x) implies exists|i: int|
            0 <= i < q.len() && i % 2 == 0 && q[i] == x by {
            if x != q[0] {
                let i = choose|i: int| 0 <= i < rest.len() && i % 2 == 0 && rest[i] == x;
                assert(q[i + 2] == x);
            }
        }
    }
}

/// On a sequence of even length with no element twice, `chunk_pairs_rev` maps
/// each element at an odd index to the one before, and has nothing else.
pub proof fn lemma_chunk_pairs_rev(q: Seq<Vertex>)
    requires
        q.len() % 2 == 0,
        q.no_duplicates(),
    ensures
        forall|i: int|
            0 <= i < q.len() && i % 2 == 1 ==> #[trigger] chunk_pairs_rev(q).contains_key(q[i])
                && chunk_pairs_rev(q)[q[i]] == q[i - 1],
        forall|x: Vertex| #[trigger]
            chunk_pairs_rev(q).contains_key(x) ==> exists|i: int|
                0 <= i < q.len() && i % 2 == 1 && q[i] == x,
        chunk_pairs_rev(q).dom().finite(),
        chunk_pairs_rev(q).dom().len() == q.len() / 2,
    decreases q.len(),
{
    if q.len() >= 2 {
        let rest = q.subrange(2, q.len() as int);
        assert forall|a: int, b: int| 0 <= a < rest.len() && 0 <= b < rest.len() && a != b implies rest[a] != rest[b] by {
            assert(rest[a] == q[a + 2] && rest[b] == q[b + 2]);
        }
        lemma_chunk_pairs_rev(rest);
        let m = chunk_pairs_rev(q);
        assert(m == chunk_pairs_rev(rest).insert(q[1], q[0]));
        assert(!chunk_pairs_rev(rest).contains_key(q[1])) by {
            if chunk_pairs_rev(rest).contains_key(q[1]) {
                let i = choose|i: int| 0 <= i < rest.len() && i % 2 == 1 && rest[i] == q[1];
                assert(q[i + 2] == q[1]);
            }
        }
        assert forall|i: int| 0 <= i < q.len() && i % 2 == 1 implies #[trigger] m.contains_key(q[i])
            && m[q[i]] == q[i - 1] by {
            if i >= 3 {
                assert(rest[i - 2] == q[i]);
                assert(chunk_pairs_rev(rest).contains_key(rest[i - 2]));
                assert(q[i] != q[1]);
            }
        }
        assert forall|x: Vertex| #[trigger] m.contains_key(x) implies exists|i: int|
            0 <= i < q.len() && i % 2 == 1 && q[i] == x by {
            if x != q[1] {
                let i = choose|i: int| 0 <= i < rest.len() && i % 2 == 1 && rest[i] == x;
                assert(q[i + 2] == x);
            }
        }
    }
}

/// Some element of `nbrs` that is not in `visited`, if there is one.
fn first_unvisited(nbrs: &HashSet<Vertex>, visited: &HashSet<Vertex>) -> (r: Option<Vertex>)
    ensures
        r matches Some(w) ==> nbrs@.contains(w) && !visited@.contains(w),
        r is None ==> nbrs@.subset_of(visited@),
{
    let elems = set_elements(nbrs);
    let mut i: usize = 0;
    while i < elems.len()
        invariant
            elems@.to_set() == nbrs@,
            0 <= i <= elems.len(),
            forall|k: int| 0 <= k < i ==> visited@.contains(#[trigger] elems@[k]),
        decreases elems.len() - i,
    {
        if !visited.contains(&elems[i]) {
            assert(elems@.to_set().contains(elems@[i as int]));
            return Some(elems[i]);
        }
        i = i + 1;
    }
    assert forall|w: Vertex| nbrs@.contains(w) implies visited@.contains(w) by {
        assert(elems@.to_set().contains(w));
        let k = choose|k: int| 0 <= k < elems@.len() && elems@[k] == w;
    }
    None
}

/// The search problem handed over by the engine for one vertex `id`: starts
/// `s`, targets `t`, the outside partner `out` of each start and target, and
/// the directed edges of the local alternating graph.
pub struct AugmentingPath {
    pub id: Vertex,
    pub s: HashSet<Vertex>,
    pub t: HashSet<Vertex>,
    pub out: HashMap<Vertex, Vertex>,
    pub edges: HashMap<Vertex, HashSet<Vertex>>,
}

impl AugmentingPath {
    /// There is an edge from `a` to `b`.
    pub open spec fn edge(&self, a: Vertex, b: Vertex) -> bool {
        self.edges@.contains_key(a) && self.edges@[a]@.contains(b)
    }

    /// `p` follows the edges, with no vertex twice.
    pub open spec fn is_walk(&self, p: Seq<Vertex>) -> bool {
        &&& p.no_duplicates()
        &&& forall|i: int| 0 <= i < p.len() - 1 ==> #[trigger] self.edge(p[i], p[i + 1])
    }

    /// `p` is a path from a start to a target of even length, whose two ends
    /// have an outside partner.
    pub open spec fn is_augmenting(&self, p: Seq<Vertex>) -> bool {
        &&& p.len() >= 2
        &&& p.len() % 2 == 0
        &&& self.is_walk(p)
        &&& self.s@.contains(p[0])
        &&& self.t@.contains(p.last())
        &&& self.out@.contains_key(p[0])
        &&& self.out@.contains_key(p.last())
    }

    /// Every path from a start to a target has even length, and its two ends
    /// have an outside partner.
    pub open spec fn walks_qualify(&self) -> bool {
        forall|p: Seq<Vertex>|
            #![trigger self.is_walk(p)]
            self.is_walk(p) && p.len() >= 2 && self.s@.contains(p[0]) && self.t@.contains(p.last())
                ==> p.len() % 2 == 0 && self.out@.contains_key(p[0]) && self.out@.contains_key(
                p.last(),
            )
    }

    /// The matching edges that the path `p` gives up.
    pub open spec fn removed_by(&self, p: Seq<Vertex>) -> Map<Vertex, Vertex> {
        chunk_pairs_rev(p)
    }

    /// The matching edges that the path `p` brings in: the inner pairs, the
    /// target with its outside partner, and the start's outside partner with
    /// the start.
    pub open spec fn added_by(&self, p: Seq<Vertex>) -> Map<Vertex, Vertex> {
        chunk_pairs(p.subrange(1, p.len() - 1)).insert(p.last(), self.out@[p.last()]).insert(
            self.out@[p[0]],
            p[0],
        )
    }

    /// An empty search problem for the vertex `v`.
    pub fn new(v: Vertex) -> (r: Self)
        ensures
            r.id == v,
            r.s@.is_empty(),
            r.t@.is_empty(),
            r.out@.is_empty(),
            r.edges@.is_empty(),
    {
        AugmentingPath {
            id: v,
            s: HashSet::new(),
            t: HashSet::new(),
            out: HashMap::new(),
            edges: HashMap::new(),
        }
    }

    /// A search needs at least one start and one target.
    pub fn should_do_augmenting_path(&self) -> (r: bool)
        ensures
            r == (!self.s@.is_empty() && !self.t@.is_empty()),
    {
        !self.s.is_empty() && !self.t.is_empty()
    }

    /// Adds the edge from `a` to `b`.
    pub fn add_edge(&mut self, a: Vertex, b: Vertex)
        ensures
            forall|x: Vertex, y: Vertex|
                #[trigger] final(self).edge(x, y) <==> old(self).edge(x, y) || (x == a && y == b),
            final(self).id == old(self).id,
            final(self).s@ == old(self).s@,
            final(self).t@ == old(self).t@,
            final(self).out@ == old(self).out@,
    {
        let mut set = match self.edges.remove(&a) {
            Some(set) => set,
            None => HashSet::new(),
        };
        set.insert(b);
        self.edges.insert(a, set);
    }

    /// Every vertex that an edge leads to, together with `v`.
    fn reachable_bound(&self, v: Vertex) -> (all: HashSet<Vertex>)
        ensures
            all@.finite(),
            all@.contains(v),
            forall|a: Vertex, b: Vertex| #[trigger] self.edge(a, b) ==> all@.contains(b),
    {
        let mut all: HashSet<Vertex> = HashSet::new();
        all.insert(v);
        let keys = map_keys(&self.edges);
        let mut i: usize = 0;
        while i < keys.len()
            invariant
                keys@.to_set() == self.edges@.dom(),
                0 <= i <= keys.len(),
                all@.finite(),
                all@.contains(v),
                forall|k: int, b: Vertex|
                    0 <= k < i && #[trigger] self.edge(keys@[k], b) ==> all@.contains(b),
            decreases keys.len() - i,
        {
            let k = keys[i];
            assert(self.edges@.contains_key(k)) by {
                assert(keys@.to_set().contains(keys@[i as int]));
            }
            let nbrs = set_elements(self.edges.get(&k).unwrap());
            let mut j: usize = 0;
            while j < nbrs.len()
                invariant
                    keys@.to_set() == self.edges@.dom(),
                    0 <= i < keys.len(),
                    k == keys@[i as int],
                    self.edges@.contains_key(k),
                    nbrs@.to_set() == self.edges@[k]@,
                    0 <= j <= nbrs.len(),
                    all@.finite(),
                    all@.contains(v),
                    forall|kk: int, b: Vertex|
                        0 <= kk < i && #[trigger] self.edge(keys@[kk], b) ==> all@.contains(b),
                    forall|jj: int| 0 <= jj < j ==> all@.contains(#[trigger] nbrs@[jj]),
                decreases nbrs.len() - j,
            {
                all.insert(nbrs[j]);
                j = j + 1;
            }
            proof {
                assert forall|kk: int, b: Vertex|
                    0 <= kk < i + 1 && #[trigger] self.edge(keys@[kk], b) implies all@.contains(
                    b,
                ) by {
                    if kk == i {
                        assert(nbrs@.to_set().contains(b));
                        let jj = choose|jj: int| 0 <= jj < nbrs@.len() && nbrs@[jj] == b;
                    }
                }
            }
            i = i + 1;
        }
        proof {
            assert forall|a: Vertex, b: Vertex| #[trigger] self.edge(a, b) implies all@.contains(b) by {
                assert(keys@.to_set().contains(a));
                let k = choose|k: int| 0 <= k < keys@.len() && keys@[k] == a;
                assert(self.edge(keys@[k], b));
            }
        }
        all
    }

    /// Depth-first search from `v` along the edges, stopping at the first target
    /// that it reaches.
    fn dfs(&self, v: Vertex) -> (r: Option<Vec<Vertex>>)
        ensures
            r matches Some(p) ==> {
                &&& p@.len() >= 2
                &&& p@[0] == v
                &&& self.t@.contains(p@.last())
                &&& self.is_walk(p@)
                &&& forall|i: int| 0 < i < p@.len() - 1 ==> !self.t@.contains(#[trigger] p@[i])
            },
            r is None ==> forall|p: Seq<Vertex>|
                #![trigger self.is_walk(p)]
                self.is_walk(p) && p.len() >= 2 && p[0] == v ==> !self.t@.contains(p.last()),
    {
        let all = self.reachable_bound(v);
        let mut path: Vec<Vertex> = vec![v];
        let mut visited: HashSet<Vertex> = HashSet::new();
        visited.insert(v);
        while path.len() > 0
            invariant
                all@.finite(),
                all@.contains(v),
                forall|a: Vertex, b: Vertex| #[trigger] self.edge(a, b) ==> all@.contains(b),
                visited@.subset_of(all@),
                path@.len() > 0 ==> path@[0] == v,
                self.is_walk(path@),
                forall|i: int| 0 <= i < path@.len() ==> visited@.contains(#[trigger] path@[i]),
                visited@.contains(v),
                forall|x: Vertex, y: Vertex|
                    visited@.contains(x) && !path@.contains(x) && #[trigger] self.edge(x, y)
                        ==> visited@.contains(y),
                forall|x: Vertex| #[trigger] visited@.contains(x) && x != v ==> !self.t@.contains(x),
            decreases all@.len() - visited@.len(), path@.len(),
        {
            proof {
                vstd::set_lib::lemma_len_subset(visited@, all@);
            }
            let u = path[path.len() - 1];
            let next = match self.edges.get(&u) {
                Some(nbrs) => first_unvisited(nbrs, &visited),
                None => None,
            };
            match next {
                Some(w) => {
                    let ghost old_path = path@;
                    let ghost old_visited = visited@;
                    path.push(w);
                    visited.insert(w);
                    proof {
                        assert forall|x: Vertex, y: Vertex|
                            visited@.contains(x) && !path@.contains(x) && #[trigger] self.edge(x, y)
                                implies visited@.contains(y) by {
                            assert(x != w) by {
                                assert(path@[path@.len() - 1] == w);
                            }
                            if old_path.contains(x) {
                                let k = choose|k: int| 0 <= k < old_path.len() && old_path[k] == x;
                                assert(path@[k] == x);
                            }
                        }
                        assert(self.edge(u, w));
                        assert forall|i: int| 0 <= i < path@.len() - 1 implies #[trigger] self.edge(
                            path@[i],
                            path@[i + 1],
                        ) by {
                            if i < old_path.len() - 1 {
                                assert(self.edge(old_path[i], old_path[i + 1]));
                            }
                        }
                        assert forall|i: int, j: int|
                            0 <= i < path@.len() && 0 <= j < path@.len() && i != j implies path@[i]
                            != path@[j] by {
                            if i < old_path.len() && j < old_path.len() {
                                assert(old_path[i] != old_path[j]);
                            }
                        }
                        vstd::set_lib::lemma_len_subset(visited@, all@);
                    }
                    if self.t.contains(&w) {
                        proof {
                            assert forall|i: int| 0 < i < path@.len() - 1 implies !self.t@.contains(
                                #[trigger] path@[i],
                            ) by {
                                assert(path@[i] == old_path[i]);
                                assert(visited@.contains(old_path[i]));
                                assert(old_path[i] != old_path[0]);
                            }
                        }
                        return Some(path);
                    }
                },
                None => {
                    let ghost old_path = path@;
                    path.pop();
                    proof {
                        assert forall|x: Vertex, y: Vertex|
                            visited@.contains(x) && !path@.contains(x) && #[trigger] self.edge(x, y)
                                implies visited@.contains(y) by {
                            if x != u {
                                if old_path.contains(x) {
                                    let k = choose|k: int| 0 <= k < old_path.len() && old_path[k] == x;
                                    if k < old_path.len() - 1 {
                                        assert(path@[k] == x);
                                    }
                                }
                            }
                        }
                        assert forall|i: int| 0 <= i < path@.len() - 1 implies #[trigger] self.edge(
                            path@[i],
                            path@[i + 1],
                        ) by {
                            assert(self.edge(old_path[i], old_path[i + 1]));
                        }
                        assert forall|i: int, j: int|
                            0 <= i < path@.len() && 0 <= j < path@.len() && i != j implies path@[i]
                            != path@[j] by {
                            assert(old_path[i] != old_path[j]);
                        }
                    }
                },
            }
        }
        proof {
            assert forall|p: Seq<Vertex>|
                #![trigger self.is_walk(p)]
                self.is_walk(p) && p.len() >= 2 && p[0] == v implies !self.t@.contains(p.last()) by {
                self.lemma_walk_stays_in(visited@, p, p.len() - 1);
                assert(p[0] != p[p.len() - 1]);
            }
        }
        None
    }

    /// A walk that starts in a set closed under the edges stays in it.
    proof fn lemma_walk_stays_in(&self, closed: Set<Vertex>, p: Seq<Vertex>, i: int)
        requires
            self.is_walk(p),
            0 <= i < p.len(),
            closed.contains(p[0]),
            forall|x: Vertex, y: Vertex| closed.contains(x) && #[trigger] self.edge(x, y) ==> closed.contains(y),
        ensures
            closed.contains(p[i]),
        decreases i,
    {
        if i > 0 {
            let j = i - 1;
            self.lemma_walk_stays_in(closed, p, j);
            assert(self.edge(p[j], p[j + 1]));
        }
    }

    /// The change to the matching along an augmenting path.
    fn get_new_matching_edges(&self, path: Vec<Vertex>) -> (r: MatchingEdges)
        requires
            path@.len() >= 2,
            path@.len() % 2 == 0,
            self.out@.contains_key(path@[0]),
            self.out@.contains_key(path@.last()),
        ensures
            r.e_remove@ == self.removed_by(path@),
            r.e_add@ == self.added_by(path@),
    {
        let n = path.len();
        let mut e_remove: HashMap<Vertex, Vertex> = HashMap::new();
        let mut i: usize = n;
        while i >= 2
            invariant
                n == path@.len(),
                n % 2 == 0,
                0 <= i <= n,
                i % 2 == 0,
                e_remove@ == chunk_pairs_rev(path@.subrange(i as int, n as int)),
            decreases i,
        {
            i = i - 2;
            e_remove.insert(path[i + 1], path[i]);
            assert(path@.subrange(i as int, n as int).subrange(2, n - i) =~= path@.subrange(
                i + 2,
                n as int,
            ));
        }
        assert(path@.subrange(0, n as int) =~= path@);
        let ghost inner = path@.subrange(1, n - 1);
        let mut e_add: HashMap<Vertex, Vertex> = HashMap::new();
        let mut j: usize = n - 2;
        while j >= 2
            invariant
                n == path@.len(),
                n % 2 == 0,
                n >= 2,
                inner == path@.subrange(1, n - 1),
                0 <= j <= n - 2,
                j % 2 == 0,
                e_add@ == chunk_pairs(inner.subrange(j as int, n - 2)),
            decreases j,
        {
            j = j - 2;
            e_add.insert(path[j + 1], path[j + 2]);
            assert(inner.subrange(j as int, n - 2).subrange(2, n - 2 - j) =~= inner.subrange(
                j + 2,
                n - 2,
            ));
        }
        assert(inner.subrange(0, n - 2) =~= inner);
        let first = path[0];
        let last = path[n - 1];
        e_add.insert(last, *self.out.get(&last).unwrap());
        e_add.insert(*self.out.get(&first).unwrap(), first);
        MatchingEdges { e_add, e_remove }
    }

    /// Looks for an augmenting path from each start in turn, and returns the
    /// change that the first one found makes to the matching.
    pub fn find_augmenting_path(&self) -> (r: Option<MatchingEdges>)
        ensures
            !(!self.s@.is_empty() && !self.t@.is_empty()) ==> r is None,
            r matches Some(e) ==> exists|p: Seq<Vertex>|
                {
                    &&& #[trigger] self.is_augmenting(p)
                    &&& e.e_remove@ == self.removed_by(p)
                    &&& e.e_add@ == self.added_by(p)
                },
            r is None && self.walks_qualify() ==> forall|p: Seq<Vertex>|
                !#[trigger] self.is_augmenting(p),
    {
        if !self.should_do_augmenting_path() {
            return None;
        }
        let starts = set_elements(&self.s);
        let mut i: usize = 0;
        while i < starts.len()
            invariant
                starts@.to_set() == self.s@,
                0 <= i <= starts.len(),
                self.walks_qualify() ==> forall|k: int, p: Seq<Vertex>|
                    #![trigger starts@[k], self.is_walk(p)]
                    0 <= k < i && self.is_walk(p) && p.len() >= 2 && p[0] == starts@[k]
                        ==> !self.t@.contains(p.last()),
            decreases starts.len() - i,
        {
            let v = starts[i];
            assert(self.s@.contains(v)) by {
                assert(starts@.to_set().contains(starts@[i as int]));
            }
            match self.dfs(v) {
                None => {},
                Some(path) => {
                    let n = path.len();
                    if n % 2 == 0 && self.out.contains_key(&path[0]) && self.out.contains_key(
                        &path[n - 1],
                    ) {
                        let ghost p = path@;
                        let m = self.get_new_matching_edges(path);
                        assert(self.is_augmenting(p));
                        return Some(m);
                    }
                    assert(!self.walks_qualify());
                },
            }
            i = i + 1;
        }
        proof {
            if self.walks_qualify() {
                assert forall|p: Seq<Vertex>| !#[trigger] self.is_augmenting(p) by {
                    if self.is_augmenting(p) {
                        assert(starts@.to_set().contains(p[0]));
                        let k = choose|k: int| 0 <= k < starts@.len() && starts@[k] == p[0];
                    }
                }
            }
        }
        None
    }
}

} // verus!
