//! Selection-sort stepper: one `step()` places one element in its final
//! position.

use vstd::prelude::*;
use crate::order::is_sorted;
use crate::order::swapped_at;
use crate::order::lemma_swap_multiset;

verus! {

/// The index the scan over `[lo, hi)` settles on: the first position holding
/// the minimum of that range.
pub open spec fn min_index_in(s: Seq<u16>, lo: int, hi: int) -> int
    decreases hi - lo,
{
    if hi <= lo + 1 {
        lo
    } else {
        let m = min_index_in(s, lo, hi - 1);
        if s[m] > s[hi - 1] {
            hi - 1
        } else {
            m
        }
    }
}

/// The settled index lies in the range and holds a minimal entry of it.
proof fn lemma_min_index_in(s: Seq<u16>, lo: int, hi: int)
    requires
        0 <= lo < hi <= s.len(),
    ensures
        lo <= min_index_in(s, lo, hi) < hi,
        forall|k: int| lo <= k < hi ==> s[min_index_in(s, lo, hi)] <= #[trigger] s[k],
    decreases hi - lo,
{
    if hi > lo + 1 {
        lemma_min_index_in(s, lo, hi - 1);
    }
}

/// Every entry of the prefix `[0, k)` is no larger than anything that follows
/// it: the prefix is sorted and already in its final place.
pub open spec fn prefix_in_place(s: Seq<u16>, k: int) -> bool {
    forall|i: int, j: int| 0 <= i < k && i < j < s.len() ==> s[i] <= s[j]
}

/// Selection-sort as a resumable state machine. `selected` is the next
/// position to fix; the stepper is complete once only the last position is
/// left, which then already holds the largest entry.
pub struct SelectionSort {
    /// The bar heights being sorted in place.
    pub data: Vec<u16>,
    /// The next position to receive the minimum of the unsorted tail.
    pub selected: usize,
    /// The heights the stepper was constructed with.
    pub initial: Ghost<Seq<u16>>,
}

impl SelectionSort {
    /// The terminal state: stepping is a no-op and the data is sorted.
    /// Completion is reached exactly when `selected` names the last position;
    /// only the empty dataset, which has no last position, needs its own
    /// clause. A length-1 dataset is complete from the start because
    /// `selected` begins at 0.
    pub open spec fn complete(self) -> bool {
        self.data@.len() == 0 || self.selected == self.data@.len() - 1
    }

    /// Well-formedness: the data is a permutation of the initial heights, a
    /// completed stepper holds sorted data, and a running one has fixed the
    /// prefix below `selected` in its final place.
    pub open spec fn wf(self) -> bool {
        &&& self.data@.to_multiset() == self.initial@.to_multiset()
        &&& self.complete() ==> is_sorted(self.data@)
        &&& !self.complete() ==> self.selected + 1 < self.data@.len() && prefix_in_place(
            self.data@,
            self.selected as int,
        )
    }

    /// An upper bound on how many further `step()` calls can occur before the
    /// stepper completes; at construction it is at most `data.len()`.
    pub open spec fn remaining(self) -> nat {
        if self.complete() {
            0
        } else {
            (self.data@.len() - 1 - self.selected) as nat
        }
    }

    /// Takes ownership of the heights; lengths 0 and 1 are complete at once.
    pub fn init(data: Vec<u16>) -> (s: Self)
        ensures
            s.wf(),
            s.data@ == data@,
            s.initial@ == data@,
            s.complete() <==> data@.len() <= 1,
            s.selected == 0,
            s.remaining() <= data@.len(),
    {
        let ghost d = data@;
        SelectionSort { data, selected: 0, initial: Ghost(d) }
    }

    /// Reports whether the stepper has reached its terminal state.
    pub fn has_completed(&self) -> (r: bool)
        ensures
            r == self.complete(),
    {
        self.data.len() == 0 || self.selected == self.data.len() - 1
    }

    /// The exact transition relation of one `step()` call: the successor is
    /// well-formed and holds the same entries; a completed state is left
    /// unchanged; a running one has the first minimum of the unsorted tail
    /// swapped into position `selected`, which then advances, with
    /// `remaining()` strictly decreasing.
    pub open spec fn steps_to(pre: Self, post: Self) -> bool {
        &&& post.wf()
        &&& post.initial == pre.initial
        &&& post.data@.to_multiset() == pre.data@.to_multiset()
        &&& pre.complete() ==> post.data@ == pre.data@ && post.selected == pre.selected
            && post.complete()
        &&& !pre.complete() ==> {
            let s = pre.data@;
            let sel = pre.selected as int;
            let m = min_index_in(s, sel, s.len() as int);
            &&& post.data@ == swapped_at(s, sel, m)
            &&& post.selected == sel + 1
            &&& post.remaining() < pre.remaining()
        }
    }

    /// One unit of work: scan the unsorted tail for its first minimum, swap it
    /// into position `selected`, and advance `selected`. A completed stepper
    /// is left exactly as it is. `steps_to` spells the transition out.
    pub fn step(&mut self)
        requires
            old(self).wf(),
        ensures
            Self::steps_to(*old(self), *final(self)),
    {
        let len = self.data.len();
        if len > 1 && self.selected < len - 1 {
            let ghost s0 = self.data@;
            let sel = self.selected;
            let mut index_of_min: usize = sel;
            let mut index: usize = sel + 1;
            while index < len
                invariant
                    sel < index <= len,
                    sel <= index_of_min < index,
                    len == s0.len(),
                    self.data@ == s0,
                    index_of_min == min_index_in(s0, sel as int, index as int),
                    self.selected == sel,
                    self.initial == old(self).initial,
                decreases len - index,
            {
                if self.data[index_of_min] > self.data[index] {
                    index_of_min = index;
                }
                index += 1;
            }
            let low = self.data[index_of_min];
            let high = self.data[sel];
            self.data[index_of_min] = high;
            self.data[sel] = low;
            self.selected = sel + 1;
            proof {
                lemma_min_index_in(s0, sel as int, len as int);
                lemma_swap_multiset(s0, sel as int, index_of_min as int);
                assert(self.data@ =~= swapped_at(s0, sel as int, index_of_min as int));
                let t = self.data@;
                assert forall|i: int, j: int|
                    0 <= i < sel + 1 && i < j < t.len() implies t[i] <= t[j] by {
                    if i < sel {
                        assert(s0[i] <= t[j]);
                    }
                }
                if self.complete() {
                    assert(is_sorted(t));
                }
            }
        }
    }
}

/// Sortedness on completion: once a well-formed stepper reports completion,
/// its data is non-decreasing.
pub proof fn lemma_complete_sorted(s: SelectionSort)
    requires
        s.wf(),
        s.complete(),
    ensures
        is_sorted(s.data@),
{
}

/// Permutation invariant: at every well-formed state, the data holds exactly
/// the entries the stepper was constructed with.
pub proof fn lemma_permutation(s: SelectionSort)
    requires
        s.wf(),
    ensures
        s.data@.to_multiset() == s.initial@.to_multiset(),
{
}

/// The states at positions `k` and `k + 1` of the chain are linked by
/// `step()`'s transition relation.
pub open spec fn chain_linked(chain: Seq<SelectionSort>, k: int) -> bool {
    SelectionSort::steps_to(chain[k], chain[k + 1])
}

/// Step-count bound: along any chain of states linked by `step()`'s transition
/// relation, completion is reached within `remaining()` calls. Since `init`
/// ensures `remaining() <= data.len()`, a freshly constructed stepper has
/// completed after at most `data.len()` calls to `step()` (one fewer than the
/// length, in fact, for a non-empty dataset).
pub proof fn lemma_step_count_bound(chain: Seq<SelectionSort>)
    requires
        chain.len() > 0,
        chain[0].wf(),
        forall|k: int| 0 <= k < chain.len() - 1 ==> #[trigger] chain_linked(chain, k),
        chain[0].remaining() < chain.len(),
    ensures
        chain.last().complete(),
    decreases chain.len(),
{
    if chain.len() > 1 {
        let sub = chain.subrange(1, chain.len() as int);
        assert(chain_linked(chain, 0));
        assert forall|k: int| 0 <= k < sub.len() - 1 implies #[trigger] chain_linked(sub, k) by {
            assert(chain_linked(chain, k + 1));
            assert(sub[k] == chain[k + 1]);
            assert(sub[k + 1] == chain[k + 2]);
        }
        lemma_step_count_bound(sub);
        assert(chain.last() == sub.last());
    }
}

} // verus!
