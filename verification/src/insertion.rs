//! Insertion-sort stepper: one `step()` performs a single pairwise
//! comparison-and-maybe-swap, a finer granularity than the other steppers.

use vstd::prelude::*;
use crate::order::is_sorted;
use crate::order::swapped_at;
use crate::order::lemma_swap_multiset;

verus! {

/// The state of an unfinished insertion: among the first `m` entries, every
/// pair not involving position `c` is in order, and the migrating entry at `c`
/// is no larger than anything between it and position `m`.
pub open spec fn insertion_inv(s: Seq<u16>, m: int, c: int) -> bool {
    &&& forall|i: int, j: int| 0 <= i < j < m && i != c && j != c ==> s[i] <= s[j]
    &&& forall|j: int| c < j < m ==> s[c] <= s[j]
}

/// `1 + 2 + ... + n`.
pub open spec fn sum_to(n: nat) -> nat
    decreases n,
{
    if n == 0 {
        0
    } else {
        n + sum_to((n - 1) as nat)
    }
}

proof fn lemma_sum_to_monotone(a: nat, b: nat)
    requires
        a <= b,
    ensures
        sum_to(a) <= sum_to(b),
    decreases b,
{
    if a < b {
        lemma_sum_to_monotone(a, (b - 1) as nat);
    }
}

proof fn lemma_sum_to_bound(n: nat)
    requires
        n >= 2,
    ensures
        1 + sum_to(n) <= n * n,
    decreases n,
{
    if n == 2 {
        assert(sum_to(0) == 0);
        assert(sum_to(1) == 1);
        assert(sum_to(2) == 3);
    } else {
        lemma_sum_to_bound((n - 1) as nat);
        assert((n - 1) * (n - 1) == n * n - 2 * n + 1) by (nonlinear_arith);
    }
}

/// Once the migrating entry is in order with its left neighbour (or has
/// reached the front), the whole prefix below `m` is sorted.
proof fn lemma_settled_prefix_sorted(s: Seq<u16>, m: int, c: int)
    requires
        0 <= c <= m <= s.len(),
        insertion_inv(s, m, c),
        c == 0 || (c < s.len() && s[c] >= s[c - 1]),
    ensures
        forall|i: int, j: int| 0 <= i < j < m ==> s[i] <= s[j],
{
    assert forall|i: int, j: int| 0 <= i < j < m implies s[i] <= s[j] by {
        if j == c && 0 <= i < c - 1 {
            assert(s[i] <= s[c - 1]);
        }
    }
}

/// Insertion-sort as a resumable state machine. `last_sorted` is the length of
/// the prefix considered done; `current_index` is the cursor of the entry
/// walking backward into that prefix. Complete once `last_sorted` exceeds the
/// length.
pub struct InsertionSort {
    /// The bar heights being sorted in place.
    pub data: Vec<u16>,
    /// Length of the prefix considered done; above `data.len()` once completed.
    pub last_sorted: usize,
    /// Cursor of the entry currently walking backward into the sorted prefix.
    pub current_index: usize,
    /// The heights the stepper was constructed with.
    pub initial: Ghost<Seq<u16>>,
}

impl InsertionSort {
    /// The terminal state: stepping is a no-op and the data is sorted.
    pub open spec fn complete(self) -> bool {
        self.last_sorted > self.data@.len()
    }

    /// Well-formedness: the data is a permutation of the initial heights, a
    /// completed stepper holds sorted data, and a running one has its cursors
    /// in range with the migration invariant holding.
    pub open spec fn wf(self) -> bool {
        &&& self.data@.len() < usize::MAX
        &&& self.data@.to_multiset() == self.initial@.to_multiset()
        &&& self.complete() ==> is_sorted(self.data@)
        &&& !self.complete() ==> {
            &&& 1 <= self.last_sorted <= self.data@.len()
            &&& self.current_index <= self.last_sorted
            &&& self.current_index < self.data@.len()
            &&& insertion_inv(self.data@, self.last_sorted as int, self.current_index as int)
        }
    }

    /// An upper bound on how many further `step()` calls can occur before the
    /// stepper completes; at construction it is at most `data.len()` squared.
    pub open spec fn remaining(self) -> nat {
        if self.complete() {
            0
        } else {
            (self.current_index + 1 + sum_to(self.data@.len() as nat) - sum_to(
                self.last_sorted as nat,
            )) as nat
        }
    }

    /// Takes ownership of the heights. Lengths 0 and 1 are treated as already
    /// completed, so the cursor never reads past the end. The length must
    /// leave headroom for the out-of-range sentinel, which every real vector
    /// has.
    pub fn init(data: Vec<u16>) -> (s: Self)
        requires
            data@.len() < usize::MAX,
        ensures
            s.wf(),
            s.data@ == data@,
            s.initial@ == data@,
            s.complete() <==> data@.len() <= 1,
            data@.len() <= 1 ==> s.last_sorted == data@.len() + 1,
            data@.len() > 1 ==> s.last_sorted == 1 && s.current_index == 1,
            s.remaining() <= data@.len() * data@.len(),
    {
        let ghost d = data@;
        if data.len() <= 1 {
            let sentinel = data.len() + 1;
            InsertionSort { data, last_sorted: sentinel, current_index: 0, initial: Ghost(d) }
        } else {
            proof {
                lemma_sum_to_bound(data@.len() as nat);
                assert(sum_to(0) == 0);
                assert(sum_to(1) == 1);
            }
            InsertionSort { data, last_sorted: 1, current_index: 1, initial: Ghost(d) }
        }
    }

    /// Reports whether the stepper has reached its terminal state.
    pub fn has_completed(&self) -> (r: bool)
        ensures
            r == self.complete(),
    {
        self.last_sorted > self.data.len()
    }

    /// The inner unit of work: one comparison of the migrating entry with its
    /// left neighbour. Swaps and moves the cursor left if they are out of
    /// order; otherwise reports the entry as settled.
    pub fn _step(&mut self) -> (settled: bool)
        requires
            old(self).wf(),
            !old(self).complete(),
        ensures
            final(self).wf(),
            !final(self).complete(),
            final(self).initial == old(self).initial,
            final(self).last_sorted == old(self).last_sorted,
            final(self).data@.to_multiset() == old(self).data@.to_multiset(),
            ({
                let s = old(self).data@;
                let c = old(self).current_index as int;
                if c > 0 && s[c] < s[c - 1] {
                    !settled && final(self).data@ == swapped_at(s, c, c - 1) && final(self).current_index == c - 1
                } else {
                    settled && final(self).data@ == s && final(self).current_index == c
                }
            }),
            settled ==> forall|i: int, j: int|
                0 <= i < j < old(self).last_sorted ==> final(self).data@[i] <= final(self).data@[j],
    {
        let c = self.current_index;
        let ghost s0 = self.data@;
        let ghost m = self.last_sorted as int;
        if c > 0 {
            let cur = self.data[c];
            let prev = self.data[c - 1];
            if cur < prev {
                self.data[c - 1] = cur;
                self.data[c] = prev;
                self.current_index = c - 1;
                proof {
                    lemma_swap_multiset(s0, c as int, c as int - 1);
                    assert(self.data@ =~= swapped_at(s0, c as int, c as int - 1));
                    let t = self.data@;
                    assert forall|i: int, j: int|
                        0 <= i < j < m && i != c - 1 && j != c - 1 implies t[i] <= t[j] by {
                        if j == c && 0 <= i < c - 1 {
                            assert(s0[i] <= s0[c - 1]);
                        }
                        if i == c && j > c {
                            assert(s0[c - 1] <= s0[j]);
                        }
                    }
                    assert(insertion_inv(t, m, c as int - 1));
                }
                false
            } else {
                proof {
                    lemma_settled_prefix_sorted(s0, m, c as int);
                }
                true
            }
        } else {
            proof {
                lemma_settled_prefix_sorted(s0, m, 0);
            }
            true
        }
    }

    /// The exact transition relation of one `step()` call: the successor is
    /// well-formed and holds the same entries; a completed state is left
    /// unchanged; a running one has its migrating entry either swapped one
    /// place left (when out of order with its neighbour) or settled, growing
    /// the done prefix and restarting the cursor at its end, with
    /// `remaining()` strictly decreasing.
    pub open spec fn steps_to(pre: Self, post: Self) -> bool {
        &&& post.wf()
        &&& post.initial == pre.initial
        &&& post.data@.to_multiset() == pre.data@.to_multiset()
        &&& pre.complete() ==> post.data@ == pre.data@ && post.last_sorted == pre.last_sorted
            && post.current_index == pre.current_index && post.complete()
        &&& !pre.complete() ==> {
            let s = pre.data@;
            let c = pre.current_index as int;
            let m = pre.last_sorted;
            &&& (c > 0 && s[c] < s[c - 1]) ==> post.data@ == swapped_at(s, c, c - 1)
                && post.last_sorted == m && post.current_index == c - 1
            &&& !(c > 0 && s[c] < s[c - 1]) ==> post.data@ == s && post.last_sorted == m + 1
                && post.current_index == m
            &&& post.remaining() < pre.remaining()
        }
    }

    /// One unit of work: one inner comparison; when the migrating entry
    /// settles, the done prefix grows by one and the cursor restarts at its
    /// end. A completed stepper is left exactly as it is. `steps_to` spells
    /// the transition out.
    pub fn step(&mut self)
        requires
            old(self).wf(),
        ensures
            Self::steps_to(*old(self), *final(self)),
    {
        let ghost len = self.data@.len() as int;
        if self.last_sorted <= self.data.len() {
            let ghost m0 = self.last_sorted as int;
            proof {
                lemma_sum_to_monotone(m0 as nat, len as nat);
            }
            if self._step() {
                self.last_sorted = self.last_sorted + 1;
                self.current_index = self.last_sorted - 1;
                proof {
                    if self.last_sorted > self.data.len() {
                        assert(is_sorted(self.data@));
                    } else {
                        assert(insertion_inv(self.data@, m0 + 1, m0));
                        lemma_sum_to_monotone((m0 + 1) as nat, len as nat);
                    }
                    assert(sum_to((m0 + 1) as nat) == m0 + 1 + sum_to(m0 as nat));
                }
            }
        }
    }
}

/// Sortedness on completion: once a well-formed stepper reports completion,
/// its data is non-decreasing.
pub proof fn lemma_complete_sorted(s: InsertionSort)
    requires
        s.wf(),
        s.complete(),
    ensures
        is_sorted(s.data@),
{
}

/// Permutation invariant: at every well-formed state, the data holds exactly
/// the entries the stepper was constructed with.
pub proof fn lemma_permutation(s: InsertionSort)
    requires
        s.wf(),
    ensures
        s.data@.to_multiset() == s.initial@.to_multiset(),
{
}

/// The states at positions `k` and `k + 1` of the chain are linked by
/// `step()`'s transition relation.
pub open spec fn chain_linked(chain: Seq<InsertionSort>, k: int) -> bool {
    InsertionSort::steps_to(chain[k], chain[k + 1])
}

/// Step-count bound: along any chain of states linked by `step()`'s transition
/// relation, completion is reached within `remaining()` calls. Since `init`
/// ensures `remaining() <= data.len() * data.len()`, a freshly constructed
/// stepper has completed after at most `data.len()` squared calls to `step()`
/// — the finer single-comparison granularity needs the quadratic bound.
pub proof fn lemma_step_count_bound(chain: Seq<InsertionSort>)
    requires
        chain.len() > 0,
        chain[0].wf(),
        forall|k: int| 0 <= k < chain.len() - 1 ==> #[trigger] chain_linked(chain, k),
        chain[0].remaining() < chain.len(),
    ensures
        chain.last().complete(),
    decreases chain.len(),
{
    if chain.len() > 1 {
        let sub = chain.subrange(1, chain.len() as int);
        assert(chain_linked(chain, 0));
        assert forall|k: int| 0 <= k < sub.len() - 1 implies #[trigger] chain_linked(sub, k) by {
            assert(chain_linked(chain, k + 1));
            assert(sub[k] == chain[k + 1]);
            assert(sub[k + 1] == chain[k + 2]);
        }
        lemma_step_count_bound(sub);
        assert(chain.last() == sub.last());
    } else if !chain[0].complete() {
        lemma_sum_to_monotone(chain[0].last_sorted as nat, chain[0].data@.len() as nat);
    }
}

} // verus!
