//! Counting distinct things.

use vstd::prelude::*;
use vstd::set_lib::{lemma_int_range, lemma_len_subset, lemma_subset_equality, set_int_range};

verus! {

/// Distinct numbers from 0 up to `n` are at most `n`, and if they are `n`
/// they are all of them.
pub proof fn lemma_pigeonhole(t: Seq<int>, n: int)
    requires
        n >= 0,
        t.no_duplicates(),
        forall|i: int| 0 <= i < t.len() ==> 0 <= #[trigger] t[i] < n,
    ensures
        t.len() <= n,
        t.len() == n ==> forall|v: int| 0 <= v < n ==> t.contains(v),
{
    let s = t.to_set();
    let r = set_int_range(0, n);
    lemma_int_range(0, n);
    t.unique_seq_to_set();
    assert(s.subset_of(r)) by {
        assert forall|a: int| s.contains(a) implies r.contains(a) by {
            let i = choose|i: int| 0 <= i < t.len() && t[i] == a;
        }
    }
    lemma_len_subset(s, r);
    if t.len() == n {
        vstd::set_lib::lemma_set_subset_finite(r, s);
        lemma_subset_equality(s, r);
        assert forall|v: int| 0 <= v < n implies t.contains(v) by {
            assert(r.contains(v));
            assert(s.contains(v));
        }
    }
}

} // verus!
