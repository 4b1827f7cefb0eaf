//! Listing the contents of hash sets and hash maps as vectors.
use std::collections::{HashMap, HashSet};
use vstd::prelude::*;
use vstd::std_specs::iter::IteratorSpec;

verus! {

broadcast use vstd::std_specs::hash::group_hash_axioms;

/// The elements of `s`, each once, in the set's iteration order.
pub fn set_elements(s: &HashSet<u32>) -> (r: Vec<u32>)
    ensures
        r@.to_set() == s@,
        r@.no_duplicates(),
        r@.len() == s@.len(),
{
    let mut r: Vec<u32> = Vec::new();
    let ghost elems = s.iter().remaining().unref();
    for x in it: s.iter()
        invariant
            r@ == it.seq().unref().take(it.index() as int),
            it.seq().unref() == elems,
            elems.to_set() == s@,
            it.seq().no_duplicates(),
            it.seq().len() == s@.len(),
    {
        r.push(*x);
    }
    assert(r@ =~= elems);
    r
}

/// The keys of `m`, each once, in the map's iteration order.
pub fn map_keys<V>(m: &HashMap<u32, V>) -> (r: Vec<u32>)
    ensures
        r@.to_set() == m@.dom(),
        r@.no_duplicates(),
        r@.len() == m@.dom().len(),
{
    let mut r: Vec<u32> = Vec::new();
    let ghost keys = m.keys().remaining().unref();
    for k in it: m.keys()
        invariant
            r@ == it.seq().unref().take(it.index() as int),
            it.seq().unref() == keys,
            keys.to_set() == m@.dom(),
            keys.no_duplicates(),
            keys.len() == m@.dom().len(),
    {
        r.push(*k);
    }
    assert(r@ =~= keys);
    r
}

/// The set of the elements of `v`.
pub fn set_of(v: &Vec<u32>) -> (r: HashSet<u32>)
    ensures
        r@ == v@.to_set(),
        r@.finite(),
{
    let mut r: HashSet<u32> = HashSet::new();
    let mut i: usize = 0;
    while i < v.len()
        invariant
            0 <= i <= v.len(),
            r@ == v@.take(i as int).to_set(),
        decreases v.len() - i,
    {
        proof {
            assert(v@.take(i as int + 1) =~= v@.take(i as int).push(v@[i as int]));
            v@.take(i as int).lemma_push_to_set_commute(v@[i as int]);
        }
        r.insert(v[i]);
        i = i + 1;
    }
    proof {
        assert(v@.take(v@.len() as int) =~= v@);
        vstd::seq_lib::seq_to_set_is_finite(v@);
    }
    r
}

/// The first element that iterating over `s` yields, if `s` has one.
pub fn any_element(s: &HashSet<u32>) -> (r: Option<u32>)
    ensures
        r matches Some(x) ==> s@.contains(x),
        r is None ==> s@.is_empty(),
{
    let ghost elems = s.iter().remaining().unref();
    for x in it: s.iter()
        invariant
            it.seq().unref() == elems,
            elems.to_set() == s@,
            it.index() == 0,
    {
        assert(elems.to_set().contains(elems[0]));
        return Some(*x);
    }
    proof {
        if s@.len() > 0 {
            let x = s@.choose();
            assert(elems.to_set().contains(x));
        }
    }
    None
}

} // verus!
