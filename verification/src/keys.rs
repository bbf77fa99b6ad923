//! Walking the keys of an ordered map from the smallest on.

use std::collections::BTreeMap;
use vstd::prelude::*;
use vstd::std_specs::btree::increasing_seq;
use vstd::std_specs::cmp::OrdSpec;
use vstd::std_specs::iter::IteratorSpec;

verus! {

/// A sequence of keys that the map's order calls increasing increases as
/// numbers.
proof fn lemma_increasing_keys(keys: Seq<&u64>)
    requires
        increasing_seq(keys),
    ensures
        forall|i: int, j: int| 0 <= i < j < keys.len() ==> *keys[i] < *keys[j],
{
    broadcast use vstd::laws_cmp::group_laws_cmp;
    broadcast use vstd::std_specs::btree::group_btree_axioms;

    assert(vstd::laws_cmp::obeys_cmp::<&u64>());
    assert forall|i: int, j: int| 0 <= i < j < keys.len() implies *keys[i] < *keys[j] by {
        assert((&keys[i]).cmp_spec(&keys[j]) is Less);
    }
}

/// The smallest key of the map, if it has any.
pub(crate) fn first_key<V>(stored: &BTreeMap<u64, V>) -> (first: Option<u64>)
    ensures
        match first {
            Some(k) => stored@.contains_key(k) && forall|other: u64|
                stored@.contains_key(other) ==> k <= other,
            None => forall|other: u64| !stored@.contains_key(other),
        },
{
    let ghost all: Seq<&u64> = stored.keys().remaining();
    proof {
        lemma_increasing_keys(all);
    }
    for k in it: stored.keys()
        invariant
            it.index() == 0,
            it.seq() == all,
            all.unref().to_set() == stored@.dom(),
            forall|i: int, j: int| 0 <= i < j < all.len() ==> *all[i] < *all[j],
    {
        proof {
            assert(all.unref()[0] == *k);
            assert(all.unref().to_set().contains(*k));
            assert forall|other: u64| stored@.contains_key(other) implies *k <= other by {
                assert(all.unref().to_set().contains(other));
                let j = choose|j: int| 0 <= j < all.unref().len() && all.unref()[j] == other;
                assert(*all[j] == other);
            }
        }
        return Some(*k);
    }
    proof {
        assert forall|other: u64| !stored@.contains_key(other) by {
            if stored@.contains_key(other) {
                assert(all.unref().to_set().contains(other));
            }
        }
    }
    None
}

/// The keys of the map that are at most `bound`, in increasing order.
pub(crate) fn keys_up_to<V>(stored: &BTreeMap<u64, V>, bound: u64) -> (keys: Vec<u64>)
    ensures
        forall|i: int, j: int| 0 <= i < j < keys@.len() ==> keys@[i] < keys@[j],
        forall|i: int|
            0 <= i < keys@.len() ==> stored@.contains_key(#[trigger] keys@[i]) && keys@[i] <= bound,
        forall|k: u64| stored@.contains_key(k) && k <= bound ==> keys@.contains(k),
{
    let mut keys: Vec<u64> = Vec::new();
    let ghost all: Seq<&u64> = stored.keys().remaining();
    proof {
        lemma_increasing_keys(all);
    }
    for k in it: stored.keys()
        invariant_except_break
            keys@.len() == it.index(),
        invariant
            it.seq() == all,
            all.unref().to_set() == stored@.dom(),
            forall|i: int, j: int| 0 <= i < j < all.len() ==> *all[i] < *all[j],
            forall|i: int| 0 <= i < keys@.len() ==> keys@[i] == *all[i],
            forall|i: int| 0 <= i < keys@.len() ==> keys@[i] <= bound,
        ensures
            keys@.len() <= all.len(),
            forall|i: int| keys@.len() <= i < all.len() ==> *all[i] > bound,
    {
        if *k <= bound {
            keys.push(*k);
        } else {
            break;
        }
    }
    proof {
        assert forall|i: int, j: int| 0 <= i < j < keys@.len() implies keys@[i] < keys@[j] by {
            assert(keys@[i] == *all[i] && keys@[j] == *all[j]);
        }
        assert forall|i: int| 0 <= i < keys@.len() implies stored@.contains_key(
            #[trigger] keys@[i],
        ) by {
            assert(all.unref()[i] == keys@[i]);
            assert(all.unref().to_set().contains(keys@[i]));
        }
        assert forall|k: u64| stored@.contains_key(k) && k <= bound implies keys@.contains(k) by {
            assert(all.unref().to_set().contains(k));
            let i = choose|i: int| 0 <= i < all.unref().len() && all.unref()[i] == k;
            assert(keys@[i] == k);
        }
    }
    keys
}

} // verus!
