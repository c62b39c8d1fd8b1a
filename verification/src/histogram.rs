//! Per-pixel visit counters and their commutative reduction.
//!
//! Each worker of a trajectory-density pass owns one `VisitHistogram`; after
//! the pass the partial histograms are summed element-wise.  The reduction
//! has no ordering requirement: `lemma_merge_order_independent` proves that
//! summing the same histograms in any permutation yields the same buffer.

use vstd::prelude::*;
use vstd::seq_lib::group_to_multiset_ensures;

verus! {

/// A 2-D array of visit counters, one per output pixel, flattened row-major.
#[derive(Clone, Debug)]
pub struct VisitHistogram {
    pub width: usize,
    pub height: usize,
    pub counts: Vec<u64>,
}

/// The counters as unbounded integers.
pub open spec fn counts_int(s: Seq<u64>) -> Seq<int> {
    s.map_values(|c: u64| c as int)
}

/// Element-wise sum of two equal-length buffers.
pub open spec fn sum2(a: Seq<int>, b: Seq<int>) -> Seq<int>
    recommends
        a.len() == b.len(),
{
    Seq::new(a.len(), |i: int| a[i] + b[i])
}

/// The total, over a list of buffers, of the counter at cell `i`.
pub open spec fn cell_total(hs: Seq<Seq<int>>, i: int) -> int
    decreases hs.len(),
{
    if hs.len() == 0 {
        0
    } else {
        hs[0][i] + cell_total(hs.drop_first(), i)
    }
}

/// Element-wise sum of a list of buffers of length `len`.
pub open spec fn sum_all(hs: Seq<Seq<int>>, len: nat) -> Seq<int>
    decreases hs.len(),
{
    if hs.len() == 0 {
        Seq::new(len, |i: int| 0)
    } else {
        sum2(hs[0], sum_all(hs.drop_first(), len))
    }
}

/// The element-wise sum carries the per-cell totals.
pub proof fn lemma_sum_all_cells(hs: Seq<Seq<int>>, len: nat)
    requires
        forall|k: int| 0 <= k < hs.len() ==> #[trigger] hs[k].len() == len,
    ensures
        sum_all(hs, len).len() == len,
        forall|i: int| 0 <= i < len ==> #[trigger] sum_all(hs, len)[i] == cell_total(hs, i),
    decreases hs.len(),
{
    if hs.len() > 0 {
        assert(forall|k: int|
            0 <= k < hs.drop_first().len() ==> #[trigger] hs.drop_first()[k].len() == len);
        lemma_sum_all_cells(hs.drop_first(), len);
    }
}

/// Appending one buffer adds its counter to the total at every cell.
pub proof fn lemma_cell_total_push(hs: Seq<Seq<int>>, e: Seq<int>, i: int)
    ensures
        cell_total(hs.push(e), i) == cell_total(hs, i) + e[i],
    decreases hs.len(),
{
    if hs.len() == 0 {
        assert(hs.push(e)[0] == e);
        assert(hs.push(e).drop_first() =~= hs);
    } else {
        lemma_cell_total_push(hs.drop_first(), e, i);
        assert(hs.push(e).drop_first() =~= hs.drop_first().push(e));
    }
}

/// Removing entry `j` splits the total at any cell.
proof fn lemma_cell_total_remove(hs: Seq<Seq<int>>, j: int, i: int)
    requires
        0 <= j < hs.len(),
    ensures
        cell_total(hs, i) == hs[j][i] + cell_total(hs.remove(j), i),
    decreases j,
{
    if j == 0 {
        assert(hs.remove(0) =~= hs.drop_first());
    } else {
        lemma_cell_total_remove(hs.drop_first(), j - 1, i);
        assert(hs.remove(j).drop_first() =~= hs.drop_first().remove(j - 1));
    }
}

/// Lists of buffers that are permutations of each other have the same total
/// at every cell.
proof fn lemma_cell_total_permuted(hs1: Seq<Seq<int>>, hs2: Seq<Seq<int>>, i: int)
    requires
        hs1.to_multiset() == hs2.to_multiset(),
    ensures
        cell_total(hs1, i) == cell_total(hs2, i),
    decreases hs1.len(),
{
    broadcast use group_to_multiset_ensures;

    if hs1.len() == 0 {
        assert(hs1.to_multiset().len() == hs1.len());
        assert(hs2.to_multiset().len() == hs2.len());
    } else {
        let e = hs1[0];
        assert(hs1.contains(e));
        assert(hs2.to_multiset().count(e) > 0);
        assert(hs2.contains(e));
        let j = choose|j: int| 0 <= j < hs2.len() && hs2[j] == e;
        lemma_cell_total_remove(hs2, j, i);
        assert(hs1.drop_first() =~= hs1.remove(0));
        assert(hs1.remove(0).to_multiset() =~= hs2.remove(j).to_multiset());
        lemma_cell_total_permuted(hs1.drop_first(), hs2.remove(j), i);
    }
}

/// Histogram reduction is order-independent: summing the same equal-sized
/// buffers in any permutation yields the identical final buffer.
pub proof fn lemma_merge_order_independent(hs1: Seq<Seq<int>>, hs2: Seq<Seq<int>>, len: nat)
    requires
        hs1.to_multiset() == hs2.to_multiset(),
        forall|k: int| 0 <= k < hs1.len() ==> #[trigger] hs1[k].len() == len,
    ensures
        sum_all(hs1, len) == sum_all(hs2, len),
{
    broadcast use group_to_multiset_ensures;

    assert forall|k: int| 0 <= k < hs2.len() implies #[trigger] hs2[k].len() == len by {
        assert(hs2.contains(hs2[k]));
        assert(hs1.to_multiset().count(hs2[k]) > 0);
        assert(hs1.contains(hs2[k]));
        let m = choose|m: int| 0 <= m < hs1.len() && hs1[m] == hs2[k];
        assert(hs1[m].len() == len);
    }
    lemma_sum_all_cells(hs1, len);
    lemma_sum_all_cells(hs2, len);
    assert forall|i: int| 0 <= i < len implies sum_all(hs1, len)[i] == sum_all(hs2, len)[i] by {
        lemma_cell_total_permuted(hs1, hs2, i);
    }
    assert(sum_all(hs1, len) =~= sum_all(hs2, len));
}

impl VisitHistogram {
    /// One counter per pixel.
    pub open spec fn wf(self) -> bool {
        self.counts@.len() == self.width * self.height
    }

    /// The counters as unbounded integers.
    pub open spec fn cells(self) -> Seq<int> {
        counts_int(self.counts@)
    }

    /// The flat index of pixel `(x, y)`.
    pub open spec fn cell_idx(self, x: int, y: int) -> int {
        y * self.width + x
    }

    /// A zeroed histogram of the given dimensions.
    pub fn new(width: usize, height: usize) -> (r: VisitHistogram)
        requires
            width * height <= usize::MAX,
        ensures
            r.wf(),
            r.width == width,
            r.height == height,
            r.cells() =~= Seq::new((width * height) as nat, |i: int| 0int),
    {
        let n: usize = width * height;
        let mut counts: Vec<u64> = Vec::new();
        let mut k: usize = 0;
        while k < n
            invariant
                k <= n,
                counts@.len() == k,
                forall|i: int| 0 <= i < k ==> counts@[i] == 0u64,
            decreases n - k,
        {
            counts.push(0);
            k = k + 1;
        }
        VisitHistogram { width, height, counts }
    }

    /// Count one visit to pixel `(x, y)`.
    pub fn bump(&mut self, x: usize, y: usize)
        requires
            old(self).wf(),
            x < old(self).width,
            y < old(self).height,
            old(self).cells()[old(self).cell_idx(x as int, y as int)] < u64::MAX,
        ensures
            final(self).wf(),
            final(self).width == old(self).width,
            final(self).height == old(self).height,
            final(self).cells() =~= old(self).cells().update(
                old(self).cell_idx(x as int, y as int),
                old(self).cells()[old(self).cell_idx(x as int, y as int)] + 1,
            ),
    {
        let n: usize = self.counts.len();
        proof {
            assert((y as int) * (self.width as int) + x < (self.width as int) * (self.height as int))
                by (nonlinear_arith)
                requires
                    0 <= x < self.width,
                    0 <= y < self.height,
            ;
            assert(n == (self.width as int) * (self.height as int));
        }
        let idx: usize = y * self.width + x;
        let c: u64 = self.counts[idx];
        self.counts.set(idx, c + 1);
    }

    /// Add every counter of `other` into this histogram.
    pub fn add_from(&mut self, other: &VisitHistogram)
        requires
            old(self).wf(),
            other.wf(),
            old(self).width == other.width,
            old(self).height == other.height,
            forall|i: int|
                0 <= i < old(self).cells().len() ==> #[trigger] old(self).cells()[i]
                    + other.cells()[i] <= u64::MAX,
        ensures
            final(self).wf(),
            final(self).width == old(self).width,
            final(self).height == old(self).height,
            final(self).cells() =~= sum2(old(self).cells(), other.cells()),
    {
        let n: usize = self.counts.len();
        let mut k: usize = 0;
        while k < n
            invariant
                k <= n,
                n == self.counts@.len(),
                n == old(self).counts@.len(),
                self.wf(),
                self.width == old(self).width,
                self.height == old(self).height,
                other.wf(),
                other.counts@.len() == n,
                forall|i: int|
                    0 <= i < n ==> #[trigger] old(self).cells()[i] + other.cells()[i] <= u64::MAX,
                forall|i: int|
                    0 <= i < k ==> #[trigger] self.counts@[i] as int == old(self).cells()[i]
                        + other.cells()[i],
                forall|i: int| k <= i < n ==> #[trigger] self.counts@[i] == old(self).counts@[i],
            decreases n - k,
        {
            proof {
                assert(old(self).cells()[k as int] == old(self).counts@[k as int] as int);
                assert(other.cells()[k as int] == other.counts@[k as int] as int);
                assert(old(self).cells()[k as int] + other.cells()[k as int] <= u64::MAX);
            }
            let a: u64 = self.counts[k];
            let b: u64 = other.counts[k];
            self.counts.set(k, a + b);
            k = k + 1;
        }
    }

    /// The largest counter, or zero for an empty histogram.
    pub fn max_count(&self) -> (r: u64)
        ensures
            forall|i: int| 0 <= i < self.cells().len() ==> #[trigger] self.cells()[i] <= r,
            self.cells().len() == 0 ==> r == 0,
            self.cells().len() > 0 ==> exists|i: int|
                0 <= i < self.cells().len() && self.cells()[i] == r,
    {
        let n: usize = self.counts.len();
        let mut best: u64 = 0;
        let mut k: usize = 0;
        if n == 0 {
            return 0;
        }
        while k < n
            invariant
                k <= n,
                n == self.counts@.len(),
                n > 0,
                forall|i: int| 0 <= i < k ==> #[trigger] self.counts@[i] <= best,
                k == 0 ==> best == 0,
                k > 0 ==> exists|i: int| 0 <= i < k && self.counts@[i] == best,
            decreases n - k,
        {
            let c: u64 = self.counts[k];
            if c > best {
                best = c;
            }
            k = k + 1;
        }
        proof {
            let i = choose|i: int| 0 <= i < n && self.counts@[i] == best;
            assert(self.cells()[i] == best as int);
            assert(forall|j: int| 0 <= j < n ==> #[trigger] self.cells()[j] == self.counts@[j] as int);
        }
        best
    }
}

} // verus!
