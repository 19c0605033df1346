//! Bubble-sort stepper: one `step()` performs one full comparison pass.

use vstd::prelude::*;
use crate::order::is_sorted;
use crate::order::pairwise_sorted_to;
use crate::order::swapped_at;
use crate::order::lemma_pairwise_sorted_prefix;
use crate::order::lemma_swap_multiset;

verus! {

/// One comparison of a bubble pass: if the entries at `i` and `i + 1` are out
/// of order, exchange them.
pub open spec fn compare_swap_at(s: Seq<u16>, i: int) -> Seq<u16> {
    if s[i] > s[i + 1] {
        swapped_at(s, i, i + 1)
    } else {
        s
    }
}

/// The sequence after the first `n` comparisons of one bubble pass: the pairs
/// at `(0, 1)` up to `(n - 1, n)` are visited in order, each out-of-order pair
/// being exchanged as it is met.
pub open spec fn bubble_pass(s: Seq<u16>, n: nat) -> Seq<u16>
    decreases n,
{
    if n == 0 {
        s
    } else {
        compare_swap_at(bubble_pass(s, (n - 1) as nat), n - 1)
    }
}

/// Every entry strictly after position `l` is at least as large as every entry
/// before it: the tail beyond `l` is already in its final place.
pub open spec fn tail_in_place(s: Seq<u16>, l: int) -> bool {
    forall|i: int, j: int| 0 <= i < j < s.len() && l < j ==> s[i] <= s[j]
}

/// A pass only rearranges entries up to its last compared position: the length,
/// the entries beyond position `n`, and the multiset of entries are unchanged.
proof fn lemma_pass_frame(s: Seq<u16>, n: nat)
    requires
        n < s.len(),
    ensures
        bubble_pass(s, n).len() == s.len(),
        forall|j: int| n < j < s.len() ==> bubble_pass(s, n)[j] == s[j],
        bubble_pass(s, n).to_multiset() == s.to_multiset(),
    decreases n,
{
    if n > 0 {
        lemma_pass_frame(s, (n - 1) as nat);
        let t = bubble_pass(s, (n - 1) as nat);
        if t[n - 1] > t[n as int] {
            lemma_swap_multiset(t, n - 1, n as int);
        }
    }
}

/// After `n` comparisons, the entry at position `n` is the largest seen so far.
proof fn lemma_pass_max(s: Seq<u16>, n: nat)
    requires
        n < s.len(),
    ensures
        forall|k: int| 0 <= k <= n ==> bubble_pass(s, n)[k] <= bubble_pass(s, n)[n as int],
    decreases n,
{
    if n > 0 {
        lemma_pass_max(s, (n - 1) as nat);
        lemma_pass_frame(s, (n - 1) as nat);
    }
}

/// A pass never raises an entry above a bound that held of the whole prefix.
proof fn lemma_pass_bounded(s: Seq<u16>, n: nat, b: u16)
    requires
        n < s.len(),
        forall|k: int| 0 <= k <= n ==> s[k] <= b,
    ensures
        forall|k: int| 0 <= k <= n ==> bubble_pass(s, n)[k] <= b,
    decreases n,
{
    if n > 0 {
        lemma_pass_bounded(s, (n - 1) as nat, b);
        lemma_pass_frame(s, (n - 1) as nat);
        let t = bubble_pass(s, (n - 1) as nat);
        assert(t[n as int] == s[n as int]);
        assert forall|k: int| 0 <= k <= n implies bubble_pass(s, n)[k] <= b by {
            if t[n - 1] > t[n as int] {
                assert(bubble_pass(s, n) == swapped_at(t, n - 1, n as int));
            }
        }
    }
}

/// A pass over an already pairwise-ordered prefix changes nothing.
proof fn lemma_pass_of_sorted(s: Seq<u16>, n: nat)
    requires
        n < s.len(),
        pairwise_sorted_to(s, n as int),
    ensures
        bubble_pass(s, n) == s,
    decreases n,
{
    if n > 0 {
        lemma_pass_of_sorted(s, (n - 1) as nat);
    }
}

/// What one full pass establishes, given that the tail beyond the pass bound
/// was already in place: the pass keeps the entries and either leaves a
/// pairwise-ordered prefix untouched (the data was sorted) or brings the
/// position at the bound into its final place.
proof fn lemma_pass_establishes(s: Seq<u16>, l: int)
    requires
        0 <= l < s.len(),
        tail_in_place(s, l),
    ensures
        bubble_pass(s, l as nat).len() == s.len(),
        bubble_pass(s, l as nat).to_multiset() == s.to_multiset(),
        pairwise_sorted_to(s, l) ==> bubble_pass(s, l as nat) == s && is_sorted(s),
        !pairwise_sorted_to(s, l) ==> tail_in_place(bubble_pass(s, l as nat), l - 1),
        is_sorted(s) ==> pairwise_sorted_to(s, l),
{
    lemma_pass_frame(s, l as nat);
    if pairwise_sorted_to(s, l) {
        lemma_pass_of_sorted(s, l as nat);
        lemma_pairwise_sorted_prefix(s, l);
        assert forall|i: int, j: int| 0 <= i < j < s.len() implies s[i] <= s[j] by {
            if j <= l {
                assert(s[i] <= s[j]);
            }
        }
    } else {
        lemma_pass_max(s, l as nat);
        let t = bubble_pass(s, l as nat);
        assert forall|p: int, j: int|
            0 <= p < j < t.len() && (l - 1) < j implies t[p] <= t[j] by {
            if j > l {
                assert(t[j] == s[j]);
                if p > l {
                    assert(s[p] <= s[j]);
                } else {
                    assert(forall|k: int| 0 <= k <= l ==> s[k] <= s[j]);
                    lemma_pass_bounded(s, l as nat, s[j]);
                }
            }
        }
    }
}

/// Bubble-sort as a resumable state machine. `swap_limit` bounds the adjacent
/// pairs still eligible for comparison in the next pass; any value above
/// `data.len()` marks the completed state.
pub struct BubbleSort {
    /// The bar heights being sorted in place.
    pub data: Vec<u16>,
    /// Index bound of the next pass; above `data.len()` once completed.
    pub swap_limit: usize,
    /// The heights the stepper was constructed with.
    pub initial: Ghost<Seq<u16>>,
}

impl BubbleSort {
    /// The terminal state: stepping is a no-op and the data is sorted.
    pub open spec fn complete(self) -> bool {
        self.swap_limit > self.data@.len()
    }

    /// Well-formedness: the data is a permutation of the initial heights, a
    /// completed stepper holds sorted data, and a running one has a valid pass
    /// bound with the tail beyond it already in place.
    pub open spec fn wf(self) -> bool {
        &&& self.data@.len() < usize::MAX
        &&& self.data@.to_multiset() == self.initial@.to_multiset()
        &&& self.complete() ==> is_sorted(self.data@)
        &&& !self.complete() ==> self.swap_limit < self.data@.len() && tail_in_place(
            self.data@,
            self.swap_limit as int,
        )
    }

    /// An upper bound on how many further `step()` calls can occur before the
    /// stepper completes; at construction it is at most `data.len()`.
    pub open spec fn remaining(self) -> nat {
        if self.complete() {
            0
        } else {
            (self.swap_limit + 1) as nat
        }
    }

    /// Takes ownership of the heights. Lengths 0 and 1 are treated as already
    /// completed, so no bound arithmetic is performed on them. The length must
    /// leave headroom for the out-of-range sentinel, which every real vector
    /// has.
    pub fn init(data: Vec<u16>) -> (s: Self)
        requires
            data@.len() < usize::MAX,
        ensures
            s.wf(),
            s.data@ == data@,
            s.initial@ == data@,
            s.complete() <==> data@.len() <= 1,
            data@.len() <= 1 ==> s.swap_limit == data@.len() + 1,
            data@.len() > 1 ==> s.swap_limit == data@.len() - 1,
            s.remaining() <= data@.len(),
    {
        let ghost d = data@;
        if data.len() <= 1 {
            let limit = data.len() + 1;
            BubbleSort { data, swap_limit: limit, initial: Ghost(d) }
        } else {
            let limit = data.len() - 1;
            BubbleSort { data, swap_limit: limit, initial: Ghost(d) }
        }
    }

    /// Reports whether the stepper has reached its terminal state.
    pub fn has_completed(&self) -> (r: bool)
        ensures
            r == self.complete(),
    {
        self.swap_limit > self.data.len()
    }

    /// The exact transition relation of one `step()` call: the successor is
    /// well-formed and holds the same entries; a completed state is left
    /// unchanged; a running one receives one full pass, which completes the
    /// stepper at once when it swaps nothing (in particular on sorted data)
    /// and otherwise lowers the pass bound by one, with `remaining()` strictly
    /// decreasing.
    pub open spec fn steps_to(pre: Self, post: Self) -> bool {
        &&& post.wf()
        &&& post.initial == pre.initial
        &&& post.data@.to_multiset() == pre.data@.to_multiset()
        &&& pre.complete() ==> post.data@ == pre.data@ && post.swap_limit == pre.swap_limit
            && post.complete()
        &&& !pre.complete() ==> {
            let s = pre.data@;
            let l = pre.swap_limit as int;
            &&& post.data@ == bubble_pass(s, l as nat)
            &&& (pairwise_sorted_to(s, l) ==> post.data@ == s && post.complete())
            &&& (!pairwise_sorted_to(s, l) ==> post.swap_limit == l - 1)
            &&& post.remaining() < pre.remaining()
        }
        &&& !pre.complete() && is_sorted(pre.data@) ==> post.complete() && post.data@ == pre.data@
    }

    /// One unit of work: a full comparison pass over the eligible pairs. A
    /// pass that swaps nothing completes the stepper at once (early exit), so
    /// an already-sorted input completes after a single step; a completed
    /// stepper is left exactly as it is. `steps_to` spells the transition out.
    pub fn step(&mut self)
        requires
            old(self).wf(),
        ensures
            Self::steps_to(*old(self), *final(self)),
    {
        let len = self.data.len();
        if self.swap_limit < len {
            let ghost s0 = self.data@;
            let limit = self.swap_limit;
            let mut swapped = false;
            let mut i: usize = 0;
            while i < limit
                invariant
                    i <= limit,
                    limit < s0.len(),
                    self.data@.len() == s0.len(),
                    self.data@ == bubble_pass(s0, i as nat),
                    swapped <==> !pairwise_sorted_to(s0, i as int),
                    self.swap_limit == limit,
                    self.initial == old(self).initial,
                decreases limit - i,
            {
                proof {
                    if !swapped {
                        lemma_pass_of_sorted(s0, i as nat);
                    }
                }
                let a = self.data[i];
                let b = self.data[i + 1];
                if a > b {
                    self.data[i] = b;
                    self.data[i + 1] = a;
                    swapped = true;
                }
                proof {
                    assert(self.data@ =~= compare_swap_at(bubble_pass(s0, i as nat), i as int));
                }
                i += 1;
            }
            proof {
                lemma_pass_establishes(s0, limit as int);
            }
            if !swapped {
                self.swap_limit = len + 1;
            } else {
                self.swap_limit = limit - 1;
            }
        }
    }
}

/// Sortedness on completion: once a well-formed stepper reports completion,
/// its data is non-decreasing.
pub proof fn lemma_complete_sorted(b: BubbleSort)
    requires
        b.wf(),
        b.complete(),
    ensures
        is_sorted(b.data@),
{
}

/// Permutation invariant: at every well-formed state, the data holds exactly
/// the entries the stepper was constructed with.
pub proof fn lemma_permutation(b: BubbleSort)
    requires
        b.wf(),
    ensures
        b.data@.to_multiset() == b.initial@.to_multiset(),
{
}

/// The states at positions `k` and `k + 1` of the chain are linked by
/// `step()`'s transition relation.
pub open spec fn chain_linked(chain: Seq<BubbleSort>, k: int) -> bool {
    BubbleSort::steps_to(chain[k], chain[k + 1])
}

/// Step-count bound: along any chain of states linked by `step()`'s transition
/// relation, completion is reached within `remaining()` calls. Since `init`
/// ensures `remaining() <= data.len()`, a freshly constructed stepper has
/// completed after at most `data.len()` calls to `step()`.
pub proof fn lemma_step_count_bound(chain: Seq<BubbleSort>)
    requires
        chain.len() > 0,
        chain[0].wf(),
        forall|k: int| 0 <= k < chain.len() - 1 ==> #[trigger] chain_linked(chain, k),
        chain[0].remaining() < chain.len(),
    ensures
        chain.last().complete(),
    decreases chain.len(),
{
    if chain.len() > 1 {
        let sub = chain.subrange(1, chain.len() as int);
        assert(chain_linked(chain, 0));
        assert forall|k: int| 0 <= k < sub.len() - 1 implies #[trigger] chain_linked(sub, k) by {
            assert(chain_linked(chain, k + 1));
            assert(sub[k] == chain[k + 1]);
            assert(sub[k + 1] == chain[k + 2]);
        }
        lemma_step_count_bound(sub);
        assert(chain.last() == sub.last());
    }
}

} // verus!
