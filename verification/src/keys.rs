use vstd::prelude::*;
use vstd::std_specs::btree::{increasing_seq, key_obeys_cmp_spec};
use vstd::std_specs::cmp::OrdSpec;

verus! {

broadcast use {vstd::laws_cmp::group_laws_cmp, vstd::std_specs::btree::group_btree_axioms};

/// `u16` keys follow the order that the B-tree collections assume.
pub proof fn lemma_u16_keys_ordered()
    ensures
        key_obeys_cmp_spec::<u16>(),
{
}

/// A sequence of `u16` keys that a B-tree calls increasing is strictly increasing.
pub proof fn lemma_u16_increasing(ks: Seq<u16>)
    requires
        increasing_seq(ks),
    ensures
        forall|i: int, j: int| 0 <= i < j < ks.len() ==> ks[i] < ks[j],
{
    assert forall|i: int, j: int| 0 <= i < j < ks.len() implies ks[i] < ks[j] by {
        assert(ks[i].cmp_spec(&ks[j]) is Less);
    }
}

} // verus!
