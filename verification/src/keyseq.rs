use std::collections::BTreeMap;
use std::collections::BTreeSet;
use vstd::prelude::*;
use vstd::std_specs::cmp::OrdSpec;
use vstd::std_specs::iter::IteratorSpec;

verus! {

broadcast use vstd::std_specs::btree::group_btree_axioms, vstd::laws_cmp::group_laws_cmp;

/// A sequence of identifiers in strictly increasing order.
pub open spec fn strictly_sorted(s: Seq<u64>) -> bool {
    forall|i: int, j: int| 0 <= i < j < s.len() ==> s[i] < s[j]
}

/// Two entries of an increasing key sequence compare as less. Stated
/// generically so that the comparison stays a trait-level call, which is
/// the form the key-ordering axiom speaks about.
proof fn pairwise_less<K: Ord>(s: Seq<K>, i: int, j: int)
    requires
        vstd::laws_cmp::obeys_cmp::<K>(),
        vstd::std_specs::btree::increasing_seq(s),
        0 <= i < j < s.len(),
    ensures
        s[i].cmp_spec(&s[j]) is Less,
{
    vstd::std_specs::btree::axiom_increasing_seq_meaning::<K>(s);
}

/// A strictly increasing sequence repeats nothing.
pub proof fn lemma_sorted_no_dup(s: Seq<u64>)
    requires
        strictly_sorted(s),
    ensures
        s.no_duplicates(),
{
    assert forall|i: int, j: int|
        0 <= i < s.len() && 0 <= j < s.len() && i != j implies s[i] != s[j] by {
        if i < j {
            assert(s[i] < s[j]);
        } else {
            assert(s[j] < s[i]);
        }
    }
}

/// The keys of a map, collected in increasing order.
pub fn keys_vec<V>(m: &BTreeMap<u64, V>) -> (r: Vec<u64>)
    ensures
        strictly_sorted(r@),
        r@.no_duplicates(),
        r@.to_set() == m@.dom(),
        r@.len() == m@.dom().len(),
{
    proof {
        assert(vstd::laws_cmp::obeys_cmp::<&u64>());
    }
    let ghost ks = vstd::std_specs::btree::spec_keys_iter(m).remaining();
    let mut r: Vec<u64> = Vec::new();
    for k in it: m.keys()
        invariant
            it.seq() == ks,
            r@.len() == it.index(),
            forall|n: int| 0 <= n < r@.len() ==> r@[n] == *ks[n],
    {
        r.push(*k);
    }
    proof {
        assert(r@ =~= ks.unref());
        assert forall|i: int, j: int| 0 <= i < j < r@.len() implies r@[i] < r@[j] by {
            pairwise_less::<&u64>(ks, i, j);
        }
        assert(r@.to_set() =~= m@.dom());
        lemma_sorted_no_dup(r@);
    }
    r
}

/// The members of a set, collected in increasing order.
pub fn set_vec(s: &BTreeSet<u64>) -> (r: Vec<u64>)
    ensures
        strictly_sorted(r@),
        r@.no_duplicates(),
        r@.to_set() == s@,
        r@.len() == s@.len(),
{
    proof {
        assert(vstd::laws_cmp::obeys_cmp::<&u64>());
    }
    let ghost ks = vstd::std_specs::btree::spec_btree_keys_iter(s).remaining();
    let mut r: Vec<u64> = Vec::new();
    for k in it: s.iter()
        invariant
            it.seq() == ks,
            r@.len() == it.index(),
            forall|n: int| 0 <= n < r@.len() ==> r@[n] == *ks[n],
    {
        r.push(*k);
    }
    proof {
        assert(r@ =~= ks.unref());
        assert forall|i: int, j: int| 0 <= i < j < r@.len() implies r@[i] < r@[j] by {
            pairwise_less::<&u64>(ks, i, j);
        }
        assert(r@.to_set() =~= s@);
        lemma_sorted_no_dup(r@);
    }
    r
}

} // verus!
