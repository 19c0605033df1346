//! Orderedness and permutation notions shared by the steppers.

use vstd::prelude::*;

verus! {

/// The sequence is non-decreasing.
pub open spec fn is_sorted(s: Seq<u16>) -> bool {
    forall|i: int, j: int| 0 <= i < j < s.len() ==> s[i] <= s[j]
}

/// Every adjacent pair among the first `n + 1` entries is in order:
/// `s[i] <= s[i + 1]` for all `i < n`.
pub open spec fn pairwise_sorted_to(s: Seq<u16>, n: int) -> bool {
    forall|i: int| 0 <= i < n ==> #[trigger] s[i] <= s[i + 1]
}

/// `s` with the entries at positions `i` and `j` exchanged.
pub open spec fn swapped_at(s: Seq<u16>, i: int, j: int) -> Seq<u16> {
    s.update(i, s[j]).update(j, s[i])
}

/// Adjacent orderedness of a prefix gives full orderedness of that prefix.
pub proof fn lemma_pairwise_sorted_prefix(s: Seq<u16>, n: int)
    requires
        0 <= n < s.len(),
        pairwise_sorted_to(s, n),
    ensures
        forall|i: int, j: int| 0 <= i < j <= n ==> s[i] <= s[j],
    decreases n,
{
    if n > 0 {
        lemma_pairwise_sorted_prefix(s, n - 1);
        assert forall|i: int, j: int| 0 <= i < j <= n implies s[i] <= s[j] by {
            if j == n {
                assert(s[n - 1] <= s[n]);
                if i < n - 1 {
                    assert(s[i] <= s[n - 1]);
                }
            }
        }
    }
}

/// Exchanging two entries leaves the multiset of entries unchanged.
pub proof fn lemma_swap_multiset(s: Seq<u16>, i: int, j: int)
    requires
        0 <= i < s.len(),
        0 <= j < s.len(),
    ensures
        swapped_at(s, i, j).to_multiset() == s.to_multiset(),
{
    broadcast use vstd::seq_lib::group_to_multiset_ensures;

    if i == j {
        assert(swapped_at(s, i, j) =~= s);
    } else {
        let t = s.update(i, s[j]);
        assert(t.to_multiset() == s.to_multiset().insert(s[j]).remove(s[i]));
        assert(t[j] == s[j]);
        assert(t.update(j, s[i]).to_multiset() == t.to_multiset().insert(s[i]).remove(t[j]));
        assert(t.to_multiset().insert(s[i]).remove(s[j]) =~= s.to_multiset());
    }
}

} // verus!
