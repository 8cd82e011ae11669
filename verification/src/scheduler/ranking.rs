//! Reading the smallest entry of an ordered set of ranked nodes.
use std::collections::BTreeSet;
use vstd::prelude::*;
use vstd::std_specs::btree::{increasing_seq, spec_btree_keys_iter};
use vstd::std_specs::cmp::OrdSpec;
use vstd::std_specs::iter::IteratorSpec;

use super::model::{is_least, lighter};

verus! {

proof fn lemma_seq_less<T: Ord>(s: Seq<T>, i: int, j: int)
    requires
        vstd::laws_cmp::obeys_cmp::<T>(),
        increasing_seq(s),
        0 <= i < j < s.len(),
    ensures
        s[i].cmp_spec(&s[j]) is Less,
{
    vstd::std_specs::btree::axiom_increasing_seq_meaning(s);
}

/// The node ids an ordered set yields come in increasing order.
pub proof fn lemma_ascending(s: Seq<&u128>, i: int, j: int)
    requires
        increasing_seq(s),
        0 <= i < j < s.len(),
    ensures
        *s[i] < *s[j],
{
    assert(vstd::laws_cmp::obeys_cmp::<u128>());
    assert(vstd::laws_cmp::obeys_cmp::<&u128>());
    lemma_seq_less(s, i, j);
}

/// The least loaded entry of `s`, by load and then by node id.
pub fn least_entry(s: &BTreeSet<(u64, u128)>) -> (r: Option<(u64, u128)>)
    ensures
        r is None <==> !(exists|x: (u64, u128)| s@.contains(x)),
        r matches Some(x) ==> is_least(s@, x),
{
    let ghost rem = spec_btree_keys_iter(s).remaining();
    proof {
        vstd::std_specs::btree::axiom_spec_btree_keys_iter(s);
    }
    for x in it: s.iter()
        invariant
            it.seq() == rem,
            it.index() == 0,
            rem.unref().to_set() == s@,
            increasing_seq(rem),
    {
        let v = *x;
        proof {
            assert(rem.unref()[0] == v);
            assert(s@.contains(v));
            assert forall|y: (u64, u128)| s@.contains(y) implies lighter(v, y) by {
                assert(rem.unref().contains(y));
                let j = choose|j: int| 0 <= j < rem.unref().len() && rem.unref()[j] == y;
                if j > 0 {
                    assert(vstd::laws_cmp::obeys_cmp::<(u64, u128)>());
                    assert(vstd::laws_cmp::obeys_cmp::<&(u64, u128)>());
                    lemma_seq_less(rem, 0, j);
                }
            }
        }
        return Some(v);
    }
    proof {
        assert(rem.len() == 0);
        assert(rem.unref() =~= Seq::empty());
        assert forall|x: (u64, u128)| !s@.contains(x) by {
            assert(!rem.unref().contains(x));
        }
    }
    None
}

} // verus!
