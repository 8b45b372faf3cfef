use vstd::prelude::*;
use std::collections::HashMap;
use vstd::std_specs::hash::obeys_key_model;
use vstd::std_specs::iter::IteratorSpec;

verus! {

broadcast use vstd::std_specs::hash::group_hash_axioms;

/// The values of a map, each once, in the order the map hands them out.
pub fn map_values<K, V: Copy>(m: &HashMap<K, V>) -> (r: Vec<V>)
    requires
        obeys_key_model::<K>(),
    ensures
        r@.to_set() == m@.values(),
        r@.len() == m@.dom().len(),
{
    let mut r: Vec<V> = Vec::new();
    let values = m.values();
    let ghost all = values.remaining();
    for v in it: values
        invariant
            r@ == it.seq().take(it.index() as int).unref(),
            it.seq() == all,
    {
        r.push(*v);
    }
    assert(r@ == all.unref());
    r
}

/// Two sequences with the same elements, counted with repeats, have the same length.
pub proof fn lemma_same_len<A>(s: Seq<A>, t: Seq<A>)
    requires
        s.to_multiset() == t.to_multiset(),
    ensures
        s.len() == t.len(),
{
    s.to_multiset_ensures();
    t.to_multiset_ensures();
}

} // verus!
