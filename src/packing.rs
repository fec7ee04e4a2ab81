//! Division of a fixed bit budget among channels.
//!
//! An error curve holds, for each bit count `b`, the quantization error of a
//! channel coded with `b` bits. Costs are non-negative integers in a fixed-point
//! unit chosen by the caller. Two curves merge into one whose entry `k` is the
//! least joint error over the ways of splitting `k` bits between the two, and
//! merging is repeated to cover any number of channels.
use vstd::prelude::*;

verus! {

/// Entry `i` of a curve, where an index past the end reads the last entry.
pub open spec fn clamped(f: Seq<u64>, i: int) -> int {
    if i < f.len() {
        f[i] as int
    } else {
        f[f.len() - 1] as int
    }
}

/// The largest bit count that a first curve of length `a` can take out of `k`.
pub open spec fn split_limit(k: int, a: int) -> int {
    if k < a - 1 {
        k
    } else {
        a - 1
    }
}

/// The smallest bit count that the first curve must take out of `k` so that the
/// second curve, of length `b`, takes at most its last index.
pub open spec fn split_low(k: int, b: int) -> int {
    if k - (b - 1) > 0 {
        k - (b - 1)
    } else {
        0
    }
}

/// Joint error of `i` bits on the first curve and `k - i` bits on the second.
pub open spec fn split_cost(f: Seq<u64>, s: Seq<u64>, k: int, i: int) -> int {
    f[i] as int + s[k - i] as int
}

/// The smallest `i` in `lo..=hi` whose split of `k` bits has the least joint error.
pub open spec fn best_split(f: Seq<u64>, s: Seq<u64>, k: int, lo: int, hi: int) -> int
    decreases hi - lo,
{
    if hi <= lo {
        lo
    } else {
        let b = best_split(f, s, k, lo, hi - 1);
        if split_cost(f, s, k, hi) < split_cost(f, s, k, b) {
            hi
        } else {
            b
        }
    }
}

/// Bits that the merge of `f` and `s` gives to the first curve at entry `k`: the
/// smallest share among the splits that stay within both curves with the least
/// joint error.
pub open spec fn first_share(f: Seq<u64>, s: Seq<u64>, k: int) -> int {
    best_split(f, s, k, split_low(k, s.len() as int), split_limit(k, f.len() as int))
}

/// Entry `k` of the merge of `f` and `s`.
pub open spec fn merged_cost(f: Seq<u64>, s: Seq<u64>, k: int) -> int {
    split_cost(f, s, k, first_share(f, s, k))
}

/// Every joint error of the two curves fits in a `u64`.
pub open spec fn sums_fit(f: Seq<u64>, s: Seq<u64>) -> bool {
    forall|i: int, j: int|
        0 <= i < f.len() && 0 <= j < s.len() ==> #[trigger] f[i] + #[trigger] s[j] <= u64::MAX
}

/// Sum of the bit counts of an allocation.
pub open spec fn total(a: Seq<usize>) -> int
    decreases a.len(),
{
    if a.len() == 0 {
        0
    } else {
        total(a.drop_last()) + a.last()
    }
}

/// One bit count per channel, each below the length of that channel's curve.
pub open spec fn allocation_within(a: Seq<usize>, lens: Seq<int>) -> bool {
    &&& a.len() == lens.len()
    &&& forall|c: int| 0 <= c < a.len() ==> #[trigger] a[c] < lens[c]
}

/// Errors from merging error curves.
#[derive(Debug, Clone, Copy, PartialEq, Eq, Structural)]
pub enum PackingError {
    /// Some entry of the merged curve cannot be split between the two curves: the
    /// merged curve is longer than the two lengths together less one.
    InsufficientBudget,
}

/// An error curve of `N` entries, with the allocation that realised each entry.
#[derive(Clone, Debug)]
pub struct ErrorFunction<const N: usize> {
    index: usize,
    function: Vec<u64>,
    /// `bits[k]` lists the bit counts, one per merged channel, that realise entry `k`.
    pub bits: Vec<Vec<usize>>,
}

impl<const N: usize> ErrorFunction<N> {
    /// The entries of the curve.
    pub closed spec fn costs(&self) -> Seq<u64> {
        self.function@
    }

    /// The number of entries that `push` has filled.
    pub closed spec fn filled(&self) -> nat {
        self.index as nat
    }

    /// The allocations, one per entry.
    pub closed spec fn allocations(&self) -> Seq<Seq<usize>> {
        self.bits@.map_values(|b: Vec<usize>| b@)
    }

    /// The allocations of every entry have one bit count per channel, below the
    /// length of that channel's curve.
    pub open spec fn allocations_within(&self, lens: Seq<int>) -> bool {
        forall|k: int|
            0 <= k < self.allocations().len() ==> allocation_within(
                #[trigger] self.allocations()[k],
                lens,
            )
    }

    /// The curve has `N > 0` entries, one allocation per entry, and at most `N`
    /// entries filled.
    pub closed spec fn wf(&self) -> bool {
        &&& N > 0
        &&& self.function@.len() == N
        &&& self.bits@.len() == N
        &&& self.index <= N
    }

    /// The bit counts of entry `k` add up to `k`, for every entry.
    pub open spec fn allocations_consistent(&self) -> bool {
        forall|k: int| 0 <= k < self.allocations().len() ==> total(#[trigger] self.allocations()[k]) == k
    }

    /// This curve is the complete merge of `first` and `second`.
    pub open spec fn merged_from<const A: usize, const B: usize>(
        &self,
        first: &ErrorFunction<A>,
        second: &ErrorFunction<B>,
    ) -> bool {
        &&& self.wf()
        &&& self.filled() == N
        &&& N + 1 <= A + B
        &&& forall|k: int|
            0 <= k < N ==> #[trigger] self.costs()[k] == merged_cost(
                first.costs(),
                second.costs(),
                k,
            )
        &&& forall|k: int|
            0 <= k < N ==> #[trigger] self.allocations()[k] == first.allocations()[first_share(
                first.costs(),
                second.costs(),
                k,
            )].push((k - first_share(first.costs(), second.costs(), k)) as usize)
    }

    /// A single-channel curve from its first `N` errors; entry `b` is realised by `b` bits.
    pub fn new(function: &[u64]) -> (r: ErrorFunction<N>)
        requires
            N > 0,
            function@.len() >= N,
        ensures
            r.wf(),
            r.filled() == 0,
            r.costs() == function@.subrange(0, N as int),
            r.allocations().len() == N,
            forall|k: int| 0 <= k < N ==> #[trigger] r.allocations()[k] == seq![k as usize],
            r.allocations_consistent(),
            r.allocations_within(seq![N as int]),
    {
        let mut costs: Vec<u64> = Vec::with_capacity(N);
        let mut bits: Vec<Vec<usize>> = Vec::with_capacity(N);
        let mut i: usize = 0;
        while i < N
            invariant
                i <= N,
                N <= function@.len(),
                costs@ == function@.subrange(0, i as int),
                bits@.len() == i,
                forall|k: int| 0 <= k < i ==> #[trigger] bits@[k]@ == seq![k as usize],
            decreases N - i,
        {
            costs.push(function[i]);
            bits.push(vec![i]);
            i = i + 1;
        }
        let r = ErrorFunction { index: 0, function: costs, bits };
        assert forall|k: int| 0 <= k < N implies #[trigger] r.allocations()[k] == seq![k as usize] by {
            assert(r.allocations()[k] == r.bits@[k]@);
        }
        assert forall|k: int| 0 <= k < r.allocations().len() implies total(
            #[trigger] r.allocations()[k],
        ) == k by {
            assert(r.allocations()[k] == r.bits@[k]@);
            assert(r.allocations()[k].drop_last() =~= Seq::<usize>::empty());
            assert(total(Seq::<usize>::empty()) == 0);
        }
        assert forall|k: int| 0 <= k < r.allocations().len() implies allocation_within(
            #[trigger] r.allocations()[k],
            seq![N as int],
        ) by {
            assert(r.allocations()[k] == r.bits@[k]@);
        }
        r
    }

    /// A curve to be filled by `push`: every entry holds `u64::MAX` until then.
    pub fn empty() -> (r: ErrorFunction<N>)
        requires
            N > 0,
        ensures
            r.wf(),
            r.filled() == 0,
            forall|k: int| 0 <= k < N ==> #[trigger] r.costs()[k] == u64::MAX,
            r.allocations().len() == N,
            forall|k: int| 0 <= k < N ==> #[trigger] r.allocations()[k] == seq![k as usize],
    {
        let mut costs: Vec<u64> = Vec::with_capacity(N);
        let mut bits: Vec<Vec<usize>> = Vec::with_capacity(N);
        let mut i: usize = 0;
        while i < N
            invariant
                i <= N,
                costs@.len() == i,
                bits@.len() == i,
                forall|k: int| 0 <= k < i ==> #[trigger] costs@[k] == u64::MAX,
                forall|k: int| 0 <= k < i ==> #[trigger] bits@[k]@ == seq![k as usize],
            decreases N - i,
        {
            costs.push(u64::MAX);
            bits.push(vec![i]);
            i = i + 1;
        }
        let r = ErrorFunction { index: 0, function: costs, bits };
        assert forall|k: int| 0 <= k < N implies #[trigger] r.allocations()[k] == seq![k as usize] by {
            assert(r.allocations()[k] == r.bits@[k]@);
        }
        r
    }

    /// What well-formedness gives a caller: `N` entries and `N` allocations.
    pub proof fn lemma_well_formed(&self)
        requires
            self.wf(),
        ensures
            N > 0,
            self.costs().len() == N,
            self.allocations().len() == N,
            self.filled() <= N,
    {
    }

    /// The number of entries.
    pub fn len(&self) -> (r: usize)
        requires
            self.wf(),
        ensures
            r == N,
            r == self.costs().len(),
            r == self.allocations().len(),
            self.filled() <= N,
    {
        self.function.len()
    }

    /// Whether the curve has no entries.
    pub fn is_empty(&self) -> (r: bool)
        requires
            self.wf(),
        ensures
            r == (self.costs().len() == 0),
    {
        self.function.len() == 0
    }

    /// Entry `index`, where an index past the end reads the last entry.
    pub fn get(&self, index: usize) -> (r: u64)
        requires
            self.wf(),
        ensures
            r as int == clamped(self.costs(), index as int),
    {
        if index < N {
            self.function[index]
        } else {
            self.function[N - 1]
        }
    }

    /// Fills entry `k`, the first unfilled one, with the least joint error of `first`
    /// and `second` over the splits of `k` bits that stay within both curves, the
    /// smallest share of the first curve winning ties; the allocation of that entry
    /// is the first curve's allocation at its share followed by the rest of the bits.
    /// Some split must exist: `k` is at most the sum of the two last indices.
    pub fn push<const A: usize, const B: usize>(
        &mut self,
        first: &ErrorFunction<A>,
        second: &ErrorFunction<B>,
    )
        requires
            old(self).wf(),
            old(self).filled() < N,
            old(self).filled() + 2 <= A + B,
            first.wf(),
            second.wf(),
            sums_fit(first.costs(), second.costs()),
        ensures
            final(self).wf(),
            final(self).filled() == old(self).filled() + 1,
            final(self).costs() == old(self).costs().update(
                old(self).filled() as int,
                merged_cost(first.costs(), second.costs(), old(self).filled() as int) as u64,
            ),
            final(self).allocations() == old(self).allocations().update(
                old(self).filled() as int,
                first.allocations()[first_share(
                    first.costs(),
                    second.costs(),
                    old(self).filled() as int,
                )].push(
                    (old(self).filled() - first_share(
                        first.costs(),
                        second.costs(),
                        old(self).filled() as int,
                    )) as usize,
                ),
            ),
    {
        let ghost f = first.costs();
        let ghost s = second.costs();
        let k = self.index;
        let limit: usize = if k < A - 1 {
            k
        } else {
            A - 1
        };
        let low: usize = if k > B - 1 {
            k - (B - 1)
        } else {
            0
        };
        let mut best: usize = low;
        let mut min: u64 = first.function[low] + second.function[k - low];
        let mut i: usize = low + 1;
        while i <= limit
            invariant
                first.wf(),
                second.wf(),
                f == first.costs(),
                s == second.costs(),
                sums_fit(f, s),
                limit == split_limit(k as int, A as int),
                low == split_low(k as int, B as int),
                low <= limit,
                limit <= k,
                limit < A,
                k - low < B,
                low + 1 <= i <= limit + 1,
                best == best_split(f, s, k as int, low as int, i - 1),
                low <= best < i,
                min as int == split_cost(f, s, k as int, best as int),
            decreases limit + 1 - i,
        {
            let error = first.function[i] + second.function[k - i];
            if error < min {
                min = error;
                best = i;
            }
            i = i + 1;
        }
        let src = &first.bits[best];
        let mut alloc: Vec<usize> = Vec::new();
        let mut j: usize = 0;
        while j < src.len()
            invariant
                j <= src@.len(),
                alloc@ == src@.subrange(0, j as int),
            decreases src@.len() - j,
        {
            alloc.push(src[j]);
            j = j + 1;
        }
        alloc.push(k - best);
        assert(alloc@ =~= first.allocations()[best as int].push((k - best) as usize));
        let ghost old_bits = self.bits@;
        self.function.set(k, min);
        self.bits.set(k, alloc);
        self.index = k + 1;
        assert forall|j: int| 0 <= j < N && j != k implies self.allocations()[j] == old(
            self,
        ).allocations()[j] by {
            assert(self.bits@[j] == old_bits[j]);
        }
        assert(self.allocations() =~= old(self).allocations().update(
            k as int,
            first.allocations()[best as int].push((k - best) as usize),
        ));
    }

    /// The entries of the curve.
    pub fn values(&self) -> (r: &[u64])
        ensures
            r@ == self.costs(),
    {
        self.function.as_slice()
    }
}

} // verus!

verus! {

/// Merges two error curves into one of `O` entries: entry `k` holds the least joint
/// error over the splits of `k` bits that stay within both curves. Fails when some
/// entry has no such split, that is when `O` exceeds the sum of the two lengths less
/// one.
pub fn merge_error_functions<const N: usize, const M: usize, const O: usize>(
    first: &ErrorFunction<N>,
    second: &ErrorFunction<M>,
) -> (r: Result<ErrorFunction<O>, PackingError>)
    requires
        O > 0,
        first.wf(),
        second.wf(),
        sums_fit(first.costs(), second.costs()),
    ensures
        r is Err <==> O + 1 > N + M,
        r is Err ==> r == Err::<ErrorFunction<O>, PackingError>(PackingError::InsufficientBudget),
        r matches Ok(m) ==> m.merged_from(first, second),
{
    if O >= N && O - N >= M {
        return Err(PackingError::InsufficientBudget);
    }
    let mut combined: ErrorFunction<O> = ErrorFunction::empty();
    let mut i: usize = 0;
    while i < O
        invariant
            first.wf(),
            second.wf(),
            sums_fit(first.costs(), second.costs()),
            combined.wf(),
            combined.filled() == i,
            i <= O,
            O + 1 <= N + M,
            forall|k: int|
                0 <= k < i ==> #[trigger] combined.costs()[k] == merged_cost(
                    first.costs(),
                    second.costs(),
                    k,
                ),
            forall|k: int|
                0 <= k < i ==> #[trigger] combined.allocations()[k] == first.allocations()[first_share(
                    first.costs(),
                    second.costs(),
                    k,
                )].push((k - first_share(first.costs(), second.costs(), k)) as usize),
        decreases O - i,
    {
        combined.push(first, second);
        i = i + 1;
    }
    Ok(combined)
}

/// The largest entry of a curve, zero for no entries.
fn largest(f: &[u64]) -> (r: u64)
    ensures
        forall|i: int| 0 <= i < f@.len() ==> #[trigger] f@[i] <= r,
        f@.len() == 0 ==> r == 0,
        f@.len() > 0 ==> exists|i: int| 0 <= i < f@.len() && #[trigger] f@[i] == r,
{
    let mut best: u64 = 0;
    let mut i: usize = 0;
    while i < f.len()
        invariant
            i <= f@.len(),
            forall|k: int| 0 <= k < i ==> #[trigger] f@[k] <= best,
            i == 0 ==> best == 0,
            i > 0 ==> exists|k: int| 0 <= k < i && #[trigger] f@[k] == best,
        decreases f@.len() - i,
    {
        if f[i] > best || i == 0 {
            best = f[i];
        }
        i = i + 1;
    }
    best
}

/// Whether every joint error of two curves fits in a `u64`, as merging them needs.
pub fn costs_fit(first: &[u64], second: &[u64]) -> (r: bool)
    ensures
        r == sums_fit(first@, second@),
{
    let a = largest(first);
    let b = largest(second);
    let r = a <= u64::MAX - b;
    proof {
        if !r {
            let i = choose|i: int| 0 <= i < first@.len() && #[trigger] first@[i] == a;
            let j = choose|j: int| 0 <= j < second@.len() && #[trigger] second@[j] == b;
            assert(first@[i] + second@[j] > u64::MAX);
        }
    }
    r
}

/// Within `lo..=hi`, the split chosen for `k` bits has the least joint error.
pub proof fn lemma_best_split_minimal(f: Seq<u64>, s: Seq<u64>, k: int, lo: int, hi: int)
    requires
        lo <= hi,
    ensures
        lo <= best_split(f, s, k, lo, hi) <= hi,
        forall|i: int|
            lo <= i <= hi ==> split_cost(f, s, k, best_split(f, s, k, lo, hi)) <= #[trigger] split_cost(
                f,
                s,
                k,
                i,
            ),
    decreases hi - lo,
{
    if hi > lo {
        lemma_best_split_minimal(f, s, k, lo, hi - 1);
    }
}

/// The share of the first curve at entry `k` of a merge stays within both curves.
proof fn lemma_first_share_in_range(f: Seq<u64>, s: Seq<u64>, k: int)
    requires
        f.len() > 0,
        s.len() > 0,
        0 <= k,
        k + 2 <= f.len() + s.len(),
    ensures
        0 <= first_share(f, s, k) < f.len(),
        0 <= k - first_share(f, s, k) < s.len(),
        forall|i: int|
            0 <= i < f.len() && 0 <= k - i < s.len() ==> merged_cost(f, s, k) <= #[trigger] split_cost(
                f,
                s,
                k,
                i,
            ),
{
    lemma_best_split_minimal(
        f,
        s,
        k,
        split_low(k, s.len() as int),
        split_limit(k, f.len() as int),
    );
}

/// Merging is optimal: entry `k` of the merge is the least `first[i] + second[j]`
/// over all `i + j == k` that index both curves.
pub proof fn lemma_merge_is_optimal<const N: usize, const M: usize, const O: usize>(
    first: &ErrorFunction<N>,
    second: &ErrorFunction<M>,
    merged: &ErrorFunction<O>,
    k: int,
)
    requires
        first.wf(),
        second.wf(),
        merged.merged_from(first, second),
        0 <= k < O,
    ensures
        forall|i: int, j: int|
            0 <= i < N && 0 <= j < M && i + j == k ==> merged.costs()[k] <= #[trigger] first.costs()[i]
                + #[trigger] second.costs()[j],
        exists|i: int, j: int|
            0 <= i < N && 0 <= j < M && i + j == k && merged.costs()[k] == #[trigger] first.costs()[i]
                + #[trigger] second.costs()[j],
{
    let f = first.costs();
    let s = second.costs();
    lemma_first_share_in_range(f, s, k);
    let b = first_share(f, s, k);
    assert forall|i: int, j: int|
        0 <= i < N && 0 <= j < M && i + j == k implies merged.costs()[k] <= #[trigger] f[i]
        + #[trigger] s[j] by {
        assert(split_cost(f, s, k, i) == f[i] + s[j]);
    }
    assert(split_cost(f, s, k, b) == f[b] + s[k - b]);
    assert(0 <= b < N && 0 <= k - b < M && b + (k - b) == k);
}

/// Allocations add up: when each allocation of the first curve sums to its index,
/// each allocation of the merge sums to its index too.
pub proof fn lemma_merge_allocations_consistent<const N: usize, const M: usize, const O: usize>(
    first: &ErrorFunction<N>,
    second: &ErrorFunction<M>,
    merged: &ErrorFunction<O>,
)
    requires
        first.wf(),
        second.wf(),
        first.allocations_consistent(),
        merged.merged_from(first, second),
    ensures
        merged.allocations_consistent(),
{
    let f = first.costs();
    let s = second.costs();
    assert forall|k: int| 0 <= k < merged.allocations().len() implies total(
        #[trigger] merged.allocations()[k],
    ) == k by {
        lemma_first_share_in_range(f, s, k);
        let b = first_share(f, s, k);
        let a = first.allocations()[b];
        assert(a.push((k - b) as usize).drop_last() =~= a);
        assert(total(a) == b);
    }
}

/// Allocations stay within the curves: when each allocation of the first curve
/// gives every channel less than its curve's length, so does each allocation of the
/// merge, the second curve being one more channel.
pub proof fn lemma_merge_allocations_within<const N: usize, const M: usize, const O: usize>(
    first: &ErrorFunction<N>,
    second: &ErrorFunction<M>,
    merged: &ErrorFunction<O>,
    lens: Seq<int>,
)
    requires
        first.wf(),
        second.wf(),
        first.allocations_within(lens),
        merged.merged_from(first, second),
    ensures
        merged.allocations_within(lens.push(M as int)),
{
    let f = first.costs();
    let s = second.costs();
    assert forall|k: int| 0 <= k < merged.allocations().len() implies allocation_within(
        #[trigger] merged.allocations()[k],
        lens.push(M as int),
    ) by {
        lemma_first_share_in_range(f, s, k);
        let b = first_share(f, s, k);
        let a = first.allocations()[b];
        assert(allocation_within(a, lens));
        let m = merged.allocations()[k];
        assert(m == a.push((k - b) as usize));
        assert forall|c: int| 0 <= c < m.len() implies #[trigger] m[c] < lens.push(M as int)[c] by {
            if c < a.len() {
                assert(m[c] == a[c]);
            }
        }
    }
}

} // verus!
