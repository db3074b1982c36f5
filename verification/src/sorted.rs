//! Identifiers in rising order.

use std::collections::BTreeSet;
use vstd::laws_cmp::{group_laws_cmp, obeys_cmp};
use vstd::prelude::*;
use vstd::std_specs::btree::{group_btree_axioms, increasing_seq, spec_btree_keys_iter};
use vstd::std_specs::cmp::OrdSpec;
use vstd::std_specs::iter::IteratorSpec;

verus! {

/// Whether the numbers of `s` rise strictly.
pub open spec fn is_rising(s: Seq<usize>) -> bool {
    forall|i: int, j: int| 0 <= i < j < s.len() ==> s[i] < s[j]
}

/// The members of a list with one more entry at its end.
pub proof fn lemma_push_members(s: Seq<usize>, x: usize)
    ensures
        s.push(x).to_set() == s.to_set().insert(x),
{
    let t = s.push(x);
    assert forall|y: usize| t.to_set().contains(y) == s.to_set().insert(x).contains(y) by {
        if t.to_set().contains(y) {
            let k = choose|k: int| 0 <= k < t.len() && t[k] == y;
            if k < s.len() {
                assert(s[k] == y);
            }
        }
        if s.to_set().contains(y) {
            let k = choose|k: int| 0 <= k < s.len() && s[k] == y;
            assert(t[k] == y);
        }
        if y == x {
            assert(t[s.len() as int] == y);
        }
    }
    assert(t.to_set() =~= s.to_set().insert(x));
}

/// Adds `x` to `set`.
pub(crate) fn add_member(set: &mut BTreeSet<usize>, x: usize)
    ensures
        final(set)@ == old(set)@.insert(x),
{
    broadcast use {group_btree_axioms, group_laws_cmp};

    set.insert(x);
}

/// The members of `set` in rising order, which is the order in which a
/// `BTreeSet` hands them out.
pub(crate) fn in_order(set: &BTreeSet<usize>) -> (r: Vec<usize>)
    ensures
        is_rising(r@),
        r@.to_set() == set@,
{
    broadcast use {group_btree_axioms, group_laws_cmp};

    let mut r: Vec<usize> = Vec::new();
    let ghost keys = spec_btree_keys_iter(set).remaining();
    for k in it: set.iter()
        invariant
            it.seq() == keys,
            r@ == keys.unref().take(it.index()),
    {
        r.push(*k);
        assert(keys.unref()[it.index()] == *k);
        assert(keys.unref().take(it.index() + 1) =~= keys.unref().take(it.index()).push(*k));
    }
    proof {
        assert(r@ =~= keys.unref());
        assert(obeys_cmp::<usize>());
        assert(obeys_cmp::<&usize>());
        assert(increasing_seq(keys));
        assert forall|a: int, b: int| 0 <= a < b < r@.len() implies r@[a] < r@[b] by {
            assert(OrdSpec::cmp_spec(&keys[a], &keys[b]) is Less);
        }
    }
    r
}

} // verus!
