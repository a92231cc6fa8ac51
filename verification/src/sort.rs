//! A verified insertion sort for signature vectors.

use vstd::prelude::*;
use vstd::relations::{sorted_by, total_ordering};
use vstd::seq_lib::lemma_sorted_unique;
use crate::model::leq64;

verus! {

/// `<=` on `u64` is a total ordering.
pub proof fn lemma_leq64_total_ordering()
    ensures
        total_ordering(leq64()),
{
}

/// Swapping two positions keeps the multiset of elements.
proof fn lemma_swap_multiset(s: Seq<u64>, i: int, j: int)
    requires
        0 <= i < j < s.len(),
    ensures
        s.update(i, s[j]).update(j, s[i]).to_multiset() == s.to_multiset(),
{
    broadcast use vstd::seq_lib::group_to_multiset_ensures;
    broadcast use vstd::multiset::group_multiset_axioms;

    let s1 = s.update(i, s[j]);
    let s2 = s1.update(j, s[i]);
    assert(s.to_multiset().contains(s[i]));
    assert(s1[j] == s[j]);
    assert(s1.to_multiset() =~= s.to_multiset().remove(s[i]).insert(s[j]));
    assert(s2.to_multiset() =~= s1.to_multiset().remove(s1[j]).insert(s[i]));
    assert(s2.to_multiset() =~= s.to_multiset());
}

/// Sort ascending.  The result is exactly the specification-level sort of
/// the original contents.
#[verifier::loop_isolation(false)]
pub fn sort_u64(v: &mut Vec<u64>)
    ensures
        final(v)@.len() == old(v)@.len(),
        final(v)@.to_multiset() == old(v)@.to_multiset(),
        sorted_by(final(v)@, leq64()),
        final(v)@ == old(v)@.sort_by(leq64()),
{
    let n = v.len();
    let mut i: usize = 1;
    while i < n
        invariant
            1 <= i,
            i <= n || n == 0,
            n == v@.len(),
            v@.to_multiset() == old(v)@.to_multiset(),
            forall|a: int, b: int| 0 <= a < b < i ==> v@[a] <= v@[b],
        decreases n - i,
    {
        let mut j: usize = i;
        while j > 0 && v[j - 1] > v[j]
            invariant
                0 <= j <= i < n,
                n == v@.len(),
                v@.to_multiset() == old(v)@.to_multiset(),
                forall|a: int, b: int| 0 <= a < b <= i && b != j ==> v@[a] <= v@[b],
            decreases j,
        {
            let x = v[j - 1];
            let y = v[j];
            proof {
                lemma_swap_multiset(v@, j - 1, j as int);
            }
            v.set(j - 1, y);
            v.set(j, x);
            j = j - 1;
        }
        proof {
            assert forall|a: int, b: int| 0 <= a < b < i + 1 implies v@[a] <= v@[b] by {
                if b == j && j > 0 {
                    assert(v@[j - 1] <= v@[j as int]);
                    if a < j - 1 {
                        assert(v@[a] <= v@[j - 1]);
                    }
                }
            }
        }
        i = i + 1;
    }
    proof {
        assert(sorted_by(v@, leq64())) by {
            assert forall|a: int, b: int| 0 <= a <= b < v@.len() implies leq64()(v@[a], v@[b]) by {
                if a < b {
                    assert(v@[a] <= v@[b]);
                }
            }
        }
        lemma_leq64_total_ordering();
        old(v)@.lemma_sort_by_ensures(leq64());
        lemma_sorted_unique(v@, old(v)@.sort_by(leq64()), leq64());
        assert(v@ =~= old(v)@.sort_by(leq64()));
    }
}

} // verus!
