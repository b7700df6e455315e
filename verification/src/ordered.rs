//! Walking an ordered map by its keys.

use std::collections::BTreeMap;
use vstd::prelude::*;
use vstd::std_specs::btree::increasing_seq;
use vstd::std_specs::cmp::OrdSpec;
use vstd::std_specs::iter::IteratorSpec;

verus! {

broadcast use {vstd::std_specs::btree::group_btree_axioms, vstd::laws_cmp::group_laws_cmp};

/// Whether `keys` lists exactly the keys of `map`, each once, smallest
/// first.
pub open spec fn keys_in_order<V>(keys: Seq<u32>, map: Map<u32, V>) -> bool {
    &&& forall|i: int| 0 <= i < keys.len() ==> map.contains_key(#[trigger] keys[i])
    &&& forall|k: u32| map.contains_key(k) ==> keys.contains(k)
    &&& forall|i: int, j: int| 0 <= i < j < keys.len() ==> keys[i] < keys[j]
}

/// The keys of `map` below `bound`, each once, smallest first.
pub open spec fn keys_below<V>(map: Map<u32, V>, bound: int) -> Seq<u32>
    decreases bound,
{
    if bound <= 0 {
        Seq::empty()
    } else {
        let smaller = keys_below(map, bound - 1);
        if bound <= 0x1_0000_0000 && map.contains_key((bound - 1) as u32) {
            smaller.push((bound - 1) as u32)
        } else {
            smaller
        }
    }
}

/// The keys of `map`, each once, smallest first.
pub open spec fn ordered_ids<V>(map: Map<u32, V>) -> Seq<u32> {
    keys_below(map, 0x1_0000_0000)
}

/// The keys below a bound are keys of the map, all of them, in order.
proof fn lemma_keys_below<V>(map: Map<u32, V>, bound: int)
    requires
        0 <= bound <= 0x1_0000_0000,
    ensures
        forall|i: int|
            0 <= i < keys_below(map, bound).len() ==> map.contains_key(
                #[trigger] keys_below(map, bound)[i],
            ) && keys_below(map, bound)[i] < bound,
        forall|k: u32| map.contains_key(k) && k < bound ==> keys_below(map, bound).contains(k),
        forall|i: int, j: int|
            0 <= i < j < keys_below(map, bound).len() ==> keys_below(map, bound)[i] < keys_below(
                map,
                bound,
            )[j],
    decreases bound,
{
    if bound > 0 {
        lemma_keys_below(map, bound - 1);
        let smaller = keys_below(map, bound - 1);
        let all = keys_below(map, bound);
        let last = (bound - 1) as u32;
        assert forall|k: u32| map.contains_key(k) && k < bound implies all.contains(k) by {
            if k < bound - 1 {
                assert(smaller.contains(k));
                let i = choose|i: int| 0 <= i < smaller.len() && smaller[i] == k;
                assert(all[i] == k);
            } else {
                assert(all[all.len() - 1] == k);
            }
        }
    }
}

/// Every map has its keys listed in order.
pub proof fn lemma_ordered_ids<V>(map: Map<u32, V>)
    ensures
        keys_in_order(ordered_ids(map), map),
{
    lemma_keys_below(map, 0x1_0000_0000);
}

/// Two lists of a map's keys in order agree at every index.
proof fn lemma_in_order_agree<V>(a: Seq<u32>, b: Seq<u32>, map: Map<u32, V>, i: int)
    requires
        keys_in_order(a, map),
        keys_in_order(b, map),
        0 <= i < a.len(),
    ensures
        i < b.len(),
        a[i] == b[i],
    decreases i,
{
    assert(map.contains_key(a[i]));
    assert(b.contains(a[i]));
    let q = choose|q: int| 0 <= q < b.len() && b[q] == a[i];
    if q < i {
        assert(map.contains_key(b[q]));
        assert(a.contains(b[q]));
        let back = choose|back: int| 0 <= back < a.len() && a[back] == b[q];
        if back < q {
            lemma_in_order_agree(a, b, map, back);
        } else if back > q {
            lemma_in_order_agree(b, a, map, q);
        }
    } else {
        assert(map.contains_key(b[i]));
        assert(a.contains(b[i]));
        let p = choose|p: int| 0 <= p < a.len() && a[p] == b[i];
        if p < i {
            lemma_in_order_agree(a, b, map, p);
        }
    }
}

/// A map has one list of its keys in order.
pub proof fn lemma_in_order_unique<V>(a: Seq<u32>, b: Seq<u32>, map: Map<u32, V>)
    requires
        keys_in_order(a, map),
        keys_in_order(b, map),
    ensures
        a == b,
{
    if a.len() > 0 {
        lemma_in_order_agree(a, b, map, a.len() - 1);
    }
    if b.len() > 0 {
        lemma_in_order_agree(b, a, map, b.len() - 1);
    }
    assert forall|i: int| 0 <= i < a.len() implies a[i] == b[i] by {
        lemma_in_order_agree(a, b, map, i);
    }
    assert(a =~= b);
}

/// The keys of `map`, smallest first.
pub fn sorted_keys<V>(map: &BTreeMap<u32, V>) -> (keys: Vec<u32>)
    ensures
        keys@ == ordered_ids(map@),
        keys_in_order(keys@, map@),
        keys@.len() == map@.dom().len(),
{
    let mut keys: Vec<u32> = Vec::new();
    let ghost all = map.keys().remaining();
    assert(all.unref().to_set() == map@.dom());
    assert(increasing_seq(all));
    assert forall|i: int, j: int| 0 <= i < j < all.len() implies *all[i] < *all[j] by {
        assert(OrdSpec::cmp_spec(&all[i], &all[j]) is Less);
    }
    for key in it: map.keys()
        invariant
            it.seq() == all,
            keys@.len() == it.index(),
            forall|i: int| 0 <= i < keys@.len() ==> keys@[i] == *it.seq()[i],
    {
        keys.push(*key);
    }
    assert(keys@ =~= all.unref());
    proof {
        assert(keys_in_order(keys@, map@));
        lemma_ordered_ids(map@);
        lemma_in_order_unique(keys@, ordered_ids(map@), map@);
    }
    keys
}


/// Puts `value` under `key`, in place of what was there.
pub fn put<V>(map: &mut BTreeMap<u32, V>, key: u32, value: V)
    ensures
        final(map)@ == old(map)@.insert(key, value),
{
    map.insert(key, value);
}

/// Puts `value` under the small key `key`, in place of what was there.
pub fn put_level<V>(map: &mut BTreeMap<u8, V>, key: u8, value: V)
    ensures
        final(map)@ == old(map)@.insert(key, value),
{
    map.insert(key, value);
}

/// What lies under `key`, if anything does.
pub fn look_up<'a, V>(map: &'a BTreeMap<u32, V>, key: u32) -> (found: Option<&'a V>)
    ensures
        found is Some <==> map@.contains_key(key),
        found matches Some(value) ==> *value == map@[key],
{
    map.get(&key)
}

/// Takes out what lies under `key`, if anything does.
pub fn take_out<V>(map: &mut BTreeMap<u32, V>, key: u32) -> (taken: Option<V>)
    ensures
        final(map)@ == old(map)@.remove(key),
        taken is Some <==> old(map)@.contains_key(key),
        taken matches Some(value) ==> value == old(map)@[key],
{
    map.remove(&key)
}


/// How many keys `map` holds.
pub fn count<V>(map: &BTreeMap<u32, V>) -> (n: usize)
    ensures
        n == map@.len(),
        map@.dom().finite(),
{
    map.len()
}

} // verus!
