//! Facts about the order in which a `BTreeMap` hands out `i32` keys.
use vstd::prelude::*;
use vstd::laws_cmp::obeys_cmp;
use vstd::std_specs::btree::{axiom_increasing_seq_meaning, increasing_seq};
use vstd::std_specs::cmp::OrdSpec;

verus! {

/// Keys that `BTreeMap` reports as increasing are strictly increasing integers.
pub proof fn lemma_increasing_keys(keys: Seq<i32>)
    requires
        increasing_seq(keys),
    ensures
        forall|a: int, b: int| 0 <= a < b < keys.len() ==> keys[a] < keys[b],
{
    broadcast use axiom_increasing_seq_meaning;

    assert(obeys_cmp::<i32>());
    assert forall|a: int, b: int| 0 <= a < b < keys.len() implies keys[a] < keys[b] by {
        assert(keys[a].cmp_spec(&keys[b]) is Less);
    }
}

} // verus!
