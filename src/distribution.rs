//! Empirical cumulative distributions of integer samples.
//!
//! A raw distribution pairs each sample value with its rank in ascending order.
//! Dropping duplicates keeps, for each value, the point with the largest
//! cumulative count, and normalizing scales both coordinates by the last point.
use vstd::prelude::*;

verus! {

broadcast use vstd::seq_lib::group_to_multiset_ensures;

/// `(x, y)` comes no later than `(u, v)` in lexicographic order.
pub open spec fn pair_le(a: (u64, u64), b: (u64, u64)) -> bool {
    a.0 < b.0 || (a.0 == b.0 && a.1 <= b.1)
}

/// The points are in ascending lexicographic order.
pub open spec fn sorted_points(d: Seq<(u64, u64)>) -> bool {
    forall|a: int, b: int| 0 <= a < b < d.len() ==> pair_le(#[trigger] d[a], #[trigger] d[b])
}

/// The values are in ascending order.
pub open spec fn sorted_values(s: Seq<u64>) -> bool {
    forall|a: int, b: int| 0 <= a < b < s.len() ==> #[trigger] s[a] <= #[trigger] s[b]
}

/// The sample values of a sequence of points.
pub open spec fn values_of(d: Seq<(u64, u64)>) -> Seq<u64> {
    d.map_values(|p: (u64, u64)| p.0)
}

/// The sample values strictly increase along the points.
pub open spec fn xs_strictly_increasing(d: Seq<(u64, u64)>) -> bool {
    forall|a: int, b: int| 0 <= a < b < d.len() ==> (#[trigger] d[a]).0 < (#[trigger] d[b]).0
}

/// The cumulative counts strictly increase along the points.
pub open spec fn ys_strictly_increasing(d: Seq<(u64, u64)>) -> bool {
    forall|a: int, b: int| 0 <= a < b < d.len() ==> (#[trigger] d[a]).1 < (#[trigger] d[b]).1
}

/// `new` holds, in ascending order of value, one point of `old` for each value of
/// `old`: the one with the largest cumulative count.
pub open spec fn keeps_largest_of_each_value(old: Seq<(u64, u64)>, new: Seq<(u64, u64)>) -> bool {
    &&& xs_strictly_increasing(new)
    &&& forall|k: int| 0 <= k < new.len() ==> old.contains(#[trigger] new[k])
    &&& forall|j: int, k: int|
        0 <= j < old.len() && 0 <= k < new.len() && (#[trigger] old[j]).0 == (#[trigger] new[k]).0
            ==> old[j].1 <= new[k].1
    &&& forall|j: int| 0 <= j < old.len() ==> has_value(new, #[trigger] old[j])
}

/// Relies on `slice::sort_unstable` on `u64`: the same values, in ascending order.
#[verifier::external_body]
fn sort_values(v: &mut Vec<u64>)
    ensures
        final(v)@.to_multiset() == old(v)@.to_multiset(),
        sorted_values(final(v)@),
{
    v.sort_unstable();
}

/// Relies on `slice::sort_unstable` on `(u64, u64)`: the same points, in ascending
/// order, tuples comparing lexicographically.
#[verifier::external_body]
fn sort_points(v: &mut Vec<(u64, u64)>)
    ensures
        final(v)@.to_multiset() == old(v)@.to_multiset(),
        sorted_points(final(v)@),
{
    v.sort_unstable();
}

/// `points` pairs each of the samples, in ascending order, with its rank counted
/// from one.
pub open spec fn ranks(samples: Seq<u64>, points: Seq<(u64, u64)>) -> bool {
    &&& points.len() == samples.len()
    &&& forall|i: int| 0 <= i < points.len() ==> (#[trigger] points[i]).1 == i + 1
    &&& sorted_values(values_of(points))
    &&& values_of(points).to_multiset() == samples.to_multiset()
}

/// Pairs each sample, in ascending order, with its rank counted from one. Fails on
/// no samples.
pub fn integrate_distribution(distribution: Vec<u64>) -> (r: Result<
    Vec<(u64, u64)>,
    DistributionError,
>)
    ensures
        r is Err <==> distribution@.len() == 0,
        r is Err ==> r == Err::<Vec<(u64, u64)>, DistributionError>(DistributionError::EmptyInput),
        r matches Ok(points) ==> ranks(distribution@, points@),
{
    if distribution.len() == 0 {
        return Err(DistributionError::EmptyInput);
    }
    let ghost samples = distribution@;
    let mut distribution = distribution;
    sort_values(&mut distribution);
    assert(distribution@.len() == samples.len()) by {
        assert(distribution@.to_multiset().len() == samples.to_multiset().len());
    }
    let n = distribution.len();
    let mut result: Vec<(u64, u64)> = Vec::with_capacity(n);
    let mut i: usize = 0;
    while i < n
        invariant
            n == distribution@.len(),
            i <= n,
            result@.len() == i,
            forall|k: int| 0 <= k < i ==> #[trigger] result@[k] == (distribution@[k], (k + 1) as u64),
        decreases n - i,
    {
        result.push((distribution[i], (i + 1) as u64));
        i = i + 1;
    }
    assert(values_of(result@) =~= distribution@);
    Ok(result)
}

/// Point `j` is the last of its run of equal values.
pub open spec fn run_end(w: Seq<(u64, u64)>, j: int) -> bool {
    j == w.len() - 1 || w[j].0 < w[j + 1].0
}

/// Some point of `out` has the value of `p`.
pub open spec fn has_value(out: Seq<(u64, u64)>, p: (u64, u64)) -> bool {
    holds_value(out, p.0)
}

/// Some point of `d` has the value `x`.
pub open spec fn holds_value(d: Seq<(u64, u64)>, x: u64) -> bool {
    exists|k: int| 0 <= k < d.len() && (#[trigger] d[k]).0 == x
}

/// Point `p` is the last of a run of equal values among the first `i` points of `w`.
pub open spec fn is_run_end_before(w: Seq<(u64, u64)>, p: (u64, u64), i: int) -> bool {
    exists|j: int| 0 <= j < i && #[trigger] w[j] == p && run_end(w, j)
}

/// The last point of each run of equal values of a sorted sequence.
fn last_of_runs(w: &Vec<(u64, u64)>) -> (out: Vec<(u64, u64)>)
    requires
        sorted_points(w@),
    ensures
        xs_strictly_increasing(out@),
        forall|k: int|
            0 <= k < out@.len() ==> is_run_end_before(w@, #[trigger] out@[k], w@.len() as int),
        forall|m: int| 0 <= m < w@.len() ==> has_value(out@, #[trigger] w@[m]),
{
    let n = w.len();
    let mut out: Vec<(u64, u64)> = Vec::new();
    let mut i: usize = 0;
    while i < n
        invariant
            n == w@.len(),
            sorted_points(w@),
            i <= n,
            xs_strictly_increasing(out@),
            out@.len() > 0 && i < n ==> out@.last().0 < w@[i as int].0,
            forall|k: int|
                0 <= k < out@.len() ==> is_run_end_before(w@, #[trigger] out@[k], i as int),
            forall|m: int|
                0 <= m < i ==> has_value(out@, #[trigger] w@[m]) || (i < n && w@[m].0
                    == w@[i as int].0),
        decreases n - i,
    {
        let p = w[i];
        if i + 1 < n {
            assert(pair_le(w@[i as int], w@[i + 1]));
        }
        if i + 1 == n || p.0 != w[i + 1].0 {
            let ghost prev = out@;
            out.push(p);
            assert(run_end(w@, i as int));
            assert forall|k: int| 0 <= k < out@.len() implies is_run_end_before(
                w@,
                #[trigger] out@[k],
                i + 1,
            ) by {
                if k < prev.len() {
                    assert(out@[k] == prev[k]);
                    assert(is_run_end_before(w@, prev[k], i as int));
                } else {
                    assert(w@[i as int] == out@[k]);
                }
            }
            assert forall|m: int| 0 <= m < i + 1 implies has_value(out@, #[trigger] w@[m]) || (i + 1
                < n && w@[m].0 == w@[i + 1].0) by {
                if m == i || w@[m].0 == w@[i as int].0 {
                    assert(out@[out@.len() - 1] == w@[i as int]);
                } else {
                    assert(has_value(prev, w@[m]));
                    let k = choose|k: int| 0 <= k < prev.len() && (#[trigger] prev[k]).0 == w@[m].0;
                    assert(out@[k] == prev[k]);
                }
            }
        }
        i = i + 1;
    }
    out
}

/// Keeps, for each sample value, the point with the largest cumulative count, in
/// ascending order of value.
pub fn drop_duplicates(distribution: &mut Vec<(u64, u64)>)
    ensures
        keeps_largest_of_each_value(old(distribution)@, final(distribution)@),
{
    let ghost before = distribution@;
    sort_points(distribution);
    let out = last_of_runs(distribution);
    proof {
        lemma_last_of_runs_keeps_largest(before, distribution@, out@);
    }
    *distribution = out;
}

proof fn lemma_last_of_runs_keeps_largest(
    before: Seq<(u64, u64)>,
    w: Seq<(u64, u64)>,
    new: Seq<(u64, u64)>,
)
    requires
        w.to_multiset() == before.to_multiset(),
        sorted_points(w),
        xs_strictly_increasing(new),
        forall|k: int| 0 <= k < new.len() ==> is_run_end_before(w, #[trigger] new[k], w.len() as int),
        forall|m: int| 0 <= m < w.len() ==> has_value(new, #[trigger] w[m]),
    ensures
        keeps_largest_of_each_value(before, new),
{
    w.to_multiset_ensures();
    before.to_multiset_ensures();
    assert forall|k: int| 0 <= k < new.len() implies before.contains(#[trigger] new[k]) by {
        assert(is_run_end_before(w, new[k], w.len() as int));
        let j = choose|j: int| 0 <= j < w.len() && #[trigger] w[j] == new[k] && run_end(w, j);
        assert(w[j] == new[k]);
        assert(w.contains(new[k]));
        assert(w.to_multiset().count(new[k]) > 0);
        assert(before.to_multiset().count(new[k]) > 0);
    }
    assert forall|j: int, k: int|
        0 <= j < before.len() && 0 <= k < new.len() && (#[trigger] before[j]).0 == (
        #[trigger] new[k]).0 implies before[j].1 <= new[k].1 by {
        assert(before.contains(before[j]));
        assert(before.to_multiset().count(before[j]) > 0);
        assert(w.to_multiset().count(before[j]) > 0);
        assert(w.contains(before[j]));
        let m = choose|m: int| 0 <= m < w.len() && w[m] == before[j];
        assert(is_run_end_before(w, new[k], w.len() as int));
        let jj = choose|jj: int| 0 <= jj < w.len() && #[trigger] w[jj] == new[k] && run_end(w, jj);
        if m < jj {
            assert(pair_le(w[m], w[jj]));
        } else if m > jj {
            if jj + 1 < m {
                assert(pair_le(w[jj + 1], w[m]));
            }
        }
    }
    assert forall|j: int| 0 <= j < before.len() implies has_value(new, #[trigger] before[j]) by {
        assert(before.contains(before[j]));
        assert(before.to_multiset().count(before[j]) > 0);
        assert(w.to_multiset().count(before[j]) > 0);
        assert(w.contains(before[j]));
        let m = choose|m: int| 0 <= m < w.len() && w[m] == before[j];
        assert(has_value(new, w[m]));
        let k = choose|k: int| 0 <= k < new.len() && (#[trigger] new[k]).0 == w[m].0;
        assert(new[k].0 == before[j].0);
    }
    assert(xs_strictly_increasing(new));
}

/// Errors from building or normalizing a distribution.
#[derive(Debug, Clone, Copy, PartialEq, Eq, Structural)]
pub enum DistributionError {
    /// There are no samples, or no points.
    EmptyInput,
    /// A coordinate of the last point is zero, so it cannot scale the others.
    ZeroScale,
}

/// A distribution with exact rational coordinates: point `i` stands for
/// `(points[i].0 / x_scale, points[i].1 / y_scale)`.
#[derive(Debug, Clone, PartialEq, Eq)]
pub struct Distribution {
    /// Sample values and cumulative counts, the numerators of the coordinates.
    pub points: Vec<(u64, u64)>,
    /// The denominator of every `x` coordinate.
    pub x_scale: u64,
    /// The denominator of every `y` coordinate.
    pub y_scale: u64,
}

/// Why the points cannot be normalized, if they cannot.
pub open spec fn normalization_error(points: Seq<(u64, u64)>) -> Option<DistributionError> {
    if points.len() == 0 {
        Some(DistributionError::EmptyInput)
    } else if points.last().0 == 0 || points.last().1 == 0 {
        Some(DistributionError::ZeroScale)
    } else {
        None
    }
}

/// `n` is `d` with every coordinate divided by the matching coordinate of the last
/// point: the points stay and the last point becomes the scale.
pub open spec fn normalizes_to(d: Distribution, n: Distribution) -> bool {
    &&& normalization_error(d.points@) is None
    &&& n.points@ == d.points@
    &&& n.x_scale == d.points@.last().0
    &&& n.y_scale == d.points@.last().1
}

impl Distribution {
    /// Points whose coordinates are the counts themselves.
    pub fn from_counts(points: Vec<(u64, u64)>) -> (r: Distribution)
        ensures
            r.points@ == points@,
            r.x_scale == 1,
            r.y_scale == 1,
    {
        Distribution { points, x_scale: 1, y_scale: 1 }
    }
}

/// Divides each coordinate by the matching coordinate of the last point, so that the
/// last point becomes `(1, 1)`. Fails on no points, or on a last point with a zero
/// coordinate.
pub fn normalize_distribution(distribution: &Distribution) -> (r: Result<
    Distribution,
    DistributionError,
>)
    ensures
        r is Err <==> normalization_error(distribution.points@) is Some,
        r matches Err(e) ==> normalization_error(distribution.points@) == Some(e),
        r matches Ok(n) ==> normalizes_to(*distribution, n),
{
    let n = distribution.points.len();
    if n == 0 {
        return Err(DistributionError::EmptyInput);
    }
    let last = distribution.points[n - 1];
    if last.0 == 0 || last.1 == 0 {
        return Err(DistributionError::ZeroScale);
    }
    let mut points: Vec<(u64, u64)> = Vec::with_capacity(n);
    let mut i: usize = 0;
    while i < n
        invariant
            n == distribution.points@.len(),
            i <= n,
            points@ == distribution.points@.subrange(0, i as int),
        decreases n - i,
    {
        points.push(distribution.points[i]);
        i = i + 1;
    }
    assert(points@ =~= distribution.points@);
    Ok(Distribution { points, x_scale: last.0, y_scale: last.1 })
}

/// Normalizing is idempotent: a normalized distribution normalizes to itself, with
/// every coordinate unchanged.
pub proof fn lemma_normalize_idempotent(d: Distribution, n: Distribution)
    requires
        normalizes_to(d, n),
    ensures
        normalizes_to(n, n),
        forall|m: Distribution|
            normalizes_to(n, m) ==> m.points@ == n.points@ && m.x_scale == n.x_scale && m.y_scale
                == n.y_scale,
{
}

/// The number of samples at or below `x`.
pub open spec fn count_at_most(s: Seq<u64>, x: u64) -> nat
    decreases s.len(),
{
    if s.len() == 0 {
        0
    } else {
        count_at_most(s.drop_last(), x) + if s.last() <= x {
            1nat
        } else {
            0nat
        }
    }
}

proof fn lemma_count_remove(s: Seq<u64>, i: int, x: u64)
    requires
        0 <= i < s.len(),
    ensures
        count_at_most(s, x) == count_at_most(s.remove(i), x) + if s[i] <= x {
            1nat
        } else {
            0nat
        },
    decreases s.len(),
{
    if i == s.len() - 1 {
        assert(s.remove(i) =~= s.drop_last());
    } else {
        lemma_count_remove(s.drop_last(), i, x);
        assert(s.remove(i).drop_last() =~= s.drop_last().remove(i));
    }
}

/// Counting does not depend on the order of the samples.
proof fn lemma_count_permutation(a: Seq<u64>, b: Seq<u64>, x: u64)
    requires
        a.to_multiset() == b.to_multiset(),
    ensures
        count_at_most(a, x) == count_at_most(b, x),
    decreases a.len(),
{
    a.to_multiset_ensures();
    b.to_multiset_ensures();
    if a.len() == 0 {
        assert(b.len() == 0);
    } else {
        let e = a.last();
        assert(a.contains(e));
        assert(b.to_multiset().count(e) > 0);
        assert(b.contains(e));
        let i = choose|i: int| 0 <= i < b.len() && b[i] == e;
        assert(a.remove(a.len() - 1) =~= a.drop_last());
        assert(a.drop_last().to_multiset() =~= b.remove(i).to_multiset());
        lemma_count_permutation(a.drop_last(), b.remove(i), x);
        lemma_count_remove(b, i, x);
    }
}

/// In a sorted sequence whose values at or below `x` are those up to index `j`,
/// `j + 1` values are at or below `x`.
proof fn lemma_count_sorted(v: Seq<u64>, x: u64, j: int)
    requires
        -1 <= j < v.len(),
        forall|m: int| 0 <= m < v.len() ==> (#[trigger] v[m] <= x <==> m <= j),
    ensures
        count_at_most(v, x) == j + 1,
    decreases v.len(),
{
    if v.len() > 0 {
        let last = v.len() - 1;
        assert(v[last] == v.last());
        if v.last() <= x {
            assert forall|m: int| 0 <= m < v.drop_last().len() implies (#[trigger] v.drop_last()[m]
                <= x <==> m <= j - 1) by {
                assert(v.drop_last()[m] == v[m]);
            }
            lemma_count_sorted(v.drop_last(), x, j - 1);
        } else {
            assert forall|m: int| 0 <= m < v.drop_last().len() implies (#[trigger] v.drop_last()[m]
                <= x <==> m <= j) by {
                assert(v.drop_last()[m] == v[m]);
            }
            lemma_count_sorted(v.drop_last(), x, j);
        }
    }
}

/// Each kept point of ranked samples counts the samples at or below its value.
proof fn lemma_kept_counts(s: Seq<u64>, raw: Seq<(u64, u64)>, out: Seq<(u64, u64)>)
    requires
        forall|i: int| 0 <= i < raw.len() ==> (#[trigger] raw[i]).1 == i + 1,
        sorted_values(values_of(raw)),
        values_of(raw).to_multiset() == s.to_multiset(),
        keeps_largest_of_each_value(raw, out),
    ensures
        forall|k: int| 0 <= k < out.len() ==> (#[trigger] out[k]).1 == count_at_most(s, out[k].0),
{
    let v = values_of(raw);
    assert forall|k: int| 0 <= k < out.len() implies (#[trigger] out[k]).1 == count_at_most(
        s,
        out[k].0,
    ) by {
        let x = out[k].0;
        assert(raw.contains(out[k]));
        let j = choose|j: int| 0 <= j < raw.len() && raw[j] == out[k];
        assert forall|m: int| 0 <= m < v.len() implies (#[trigger] v[m] <= x <==> m <= j) by {
            if m < j {
                assert(v[m] <= v[j]);
            } else if m > j {
                assert(v[j] <= v[m]);
                if v[m] <= x {
                    assert(raw[m].0 == out[k].0);
                    assert(raw[m].1 <= out[k].1);
                }
            }
        }
        lemma_count_sorted(v, x, j);
        lemma_count_permutation(v, s, x);
    }
}

/// `d` is the normalized empirical distribution of `samples`: one point per distinct
/// value in ascending order, each counting the samples at or below its value, both
/// coordinates strictly increasing, the last point `(1, 1)`, the `x` scale the
/// largest sample and the `y` scale the number of samples.
pub open spec fn is_distribution_of(samples: Seq<u64>, d: Distribution) -> bool {
    let p = d.points@;
    &&& p.len() > 0
    &&& xs_strictly_increasing(p)
    &&& ys_strictly_increasing(p)
    &&& p.last() == (d.x_scale, d.y_scale)
    &&& d.y_scale == samples.len()
    &&& forall|i: int| 0 <= i < samples.len() ==> #[trigger] samples[i] <= d.x_scale
    &&& forall|k: int| 0 <= k < p.len() ==> samples.contains((#[trigger] p[k]).0)
    &&& forall|k: int| 0 <= k < p.len() ==> (#[trigger] p[k]).1 == count_at_most(samples, p[k].0)
    &&& forall|i: int| 0 <= i < samples.len() ==> holds_value(p, #[trigger] samples[i])
}

/// `r` is what building the distribution of `samples` gives: no samples fail with
/// `EmptyInput`, samples that are all zero with `ZeroScale`, and any others give
/// their normalized empirical distribution.
pub open spec fn built_from(samples: Seq<u64>, r: Result<Distribution, DistributionError>) -> bool {
    &&& (r == Err::<Distribution, DistributionError>(DistributionError::EmptyInput)
        <==> samples.len() == 0)
    &&& (r == Err::<Distribution, DistributionError>(DistributionError::ZeroScale)
        <==> (samples.len() > 0
        && forall|i: int| 0 <= i < samples.len() ==> #[trigger] samples[i] == 0))
    &&& (r is Ok <==> exists|i: int| 0 <= i < samples.len() && #[trigger] samples[i] != 0)
    &&& (r matches Ok(d) ==> is_distribution_of(samples, d))
}

/// Builds the normalized empirical distribution of the samples: ranks them, keeps the
/// last point of each value and normalizes. Fails on no samples, and on samples that
/// are all zero.
pub fn build_distribution(samples: Vec<u64>) -> (r: Result<Distribution, DistributionError>)
    ensures
        built_from(samples@, r),
{
    let ghost s = samples@;
    let mut points = match integrate_distribution(samples) {
        Ok(points) => points,
        Err(e) => {
            return Err(e);
        },
    };
    let ghost raw = points@;
    drop_duplicates(&mut points);
    proof {
        lemma_deduplicated_ranks(s, raw, points@);
        lemma_kept_counts(s, raw, points@);
    }
    let counts = Distribution::from_counts(points);
    normalize_distribution(&counts)
}

/// The values of the ranked points are the samples.
proof fn lemma_ranked_values(s: Seq<u64>, raw: Seq<(u64, u64)>)
    requires
        values_of(raw).to_multiset() == s.to_multiset(),
    ensures
        forall|j: int| 0 <= j < raw.len() ==> s.contains((#[trigger] raw[j]).0),
        forall|i: int| 0 <= i < s.len() ==> holds_value(raw, #[trigger] s[i]),
{
    let v = values_of(raw);
    v.to_multiset_ensures();
    s.to_multiset_ensures();
    assert forall|j: int| 0 <= j < raw.len() implies s.contains((#[trigger] raw[j]).0) by {
        assert(v[j] == raw[j].0);
        assert(v.contains(raw[j].0));
        assert(v.to_multiset().count(raw[j].0) > 0);
        assert(s.to_multiset().count(raw[j].0) > 0);
    }
    assert forall|i: int| 0 <= i < s.len() implies holds_value(raw, #[trigger] s[i]) by {
        assert(s.contains(s[i]));
        assert(s.to_multiset().count(s[i]) > 0);
        assert(v.to_multiset().count(s[i]) > 0);
        assert(v.contains(s[i]));
        let m = choose|m: int| 0 <= m < v.len() && v[m] == s[i];
        assert(raw[m].0 == s[i]);
    }
}

/// Kept points of ranked samples have strictly increasing ranks, the last one the
/// number of samples.
proof fn lemma_kept_ranks(raw: Seq<(u64, u64)>, out: Seq<(u64, u64)>)
    requires
        raw.len() > 0,
        forall|i: int| 0 <= i < raw.len() ==> (#[trigger] raw[i]).1 == i + 1,
        sorted_values(values_of(raw)),
        keeps_largest_of_each_value(raw, out),
    ensures
        out.len() > 0,
        ys_strictly_increasing(out),
        out.last().1 == raw.len(),
{
    let v = values_of(raw);
    assert(has_value(out, raw[0]));
    assert forall|a: int, b: int| 0 <= a < b < out.len() implies (#[trigger] out[a]).1 < (
    #[trigger] out[b]).1 by {
        assert(raw.contains(out[a]));
        assert(raw.contains(out[b]));
        let ja = choose|j: int| 0 <= j < raw.len() && raw[j] == out[a];
        let jb = choose|j: int| 0 <= j < raw.len() && raw[j] == out[b];
        if ja > jb {
            assert(v[jb] <= v[ja]);
        }
    }
    let n = raw.len() as int;
    let last = out.len() - 1;
    assert(has_value(out, raw[n - 1]));
    let k = choose|k: int| 0 <= k < out.len() && (#[trigger] out[k]).0 == raw[n - 1].0;
    assert(raw.contains(out[k]));
    assert(raw.contains(out[last]));
    assert(out[k].1 >= n);
    if k < last {
        assert(out[k].1 < out[last].1);
    }
}

/// What ranking and dropping duplicates give, seen from the samples.
proof fn lemma_deduplicated_ranks(s: Seq<u64>, raw: Seq<(u64, u64)>, out: Seq<(u64, u64)>)
    requires
        raw.len() == s.len(),
        forall|i: int| 0 <= i < raw.len() ==> (#[trigger] raw[i]).1 == i + 1,
        sorted_values(values_of(raw)),
        values_of(raw).to_multiset() == s.to_multiset(),
        keeps_largest_of_each_value(raw, out),
    ensures
        s.len() == 0 <==> out.len() == 0,
        s.len() > 0 ==> {
            &&& ys_strictly_increasing(out)
            &&& out.last().1 == s.len()
            &&& forall|i: int| 0 <= i < s.len() ==> #[trigger] s[i] <= out.last().0
            &&& forall|k: int| 0 <= k < out.len() ==> s.contains((#[trigger] out[k]).0)
            &&& forall|i: int| 0 <= i < s.len() ==> holds_value(out, #[trigger] s[i])
            &&& (out.last().0 == 0 <==> forall|i: int| 0 <= i < s.len() ==> #[trigger] s[i] == 0)
        },
{
    lemma_ranked_values(s, raw);
    assert forall|k: int| 0 <= k < out.len() implies s.contains((#[trigger] out[k]).0) by {
        assert(raw.contains(out[k]));
        let j = choose|j: int| 0 <= j < raw.len() && raw[j] == out[k];
        assert(s.contains(raw[j].0));
    }
    assert forall|i: int| 0 <= i < s.len() implies holds_value(out, #[trigger] s[i]) by {
        let j = choose|j: int| 0 <= j < raw.len() && (#[trigger] raw[j]).0 == s[i];
        assert(has_value(out, raw[j]));
    }
    if s.len() > 0 {
        lemma_kept_ranks(raw, out);
        let last = out.len() - 1;
        assert forall|i: int| 0 <= i < s.len() implies #[trigger] s[i] <= out.last().0 by {
            let k = choose|k: int| 0 <= k < out.len() && (#[trigger] out[k]).0 == s[i];
            if k < last {
                assert(out[k].0 < out[last].0);
            }
        }
        if out.last().0 != 0 {
            assert(s.contains(out[last].0));
        }
    } else {
        if out.len() > 0 {
            assert(raw.contains(out[0]));
        }
    }
}

/// Position in a row-major image of width `w` of channel `c` in the 2x2 cell at
/// column `x` and row `y` of cells: channel `c` sits at column offset `c % 2` and
/// row offset `c / 2` of its cell.
pub open spec fn mosaic_index(w: int, c: int, y: int, x: int) -> int {
    x * 2 + c % 2 + (y * 2 + c / 2) * w
}

/// The values of channel `c` of a `w` by `h` mosaic image, cell by cell, row by row.
pub open spec fn channel_values(data: Seq<u16>, w: int, h: int, c: int) -> Seq<u64> {
    Seq::new(
        ((h / 2) * (w / 2)) as nat,
        |k: int| data[mosaic_index(w, c, k / (w / 2), k % (w / 2))] as u64,
    )
}

/// Every `step`-th value, starting with the first.
pub open spec fn every_nth(s: Seq<u64>, step: int) -> Seq<u64> {
    Seq::new(((s.len() + step - 1) / step) as nat, |i: int| s[i * step])
}

proof fn lemma_mosaic_index_bound(w: int, h: int, c: int, y: int, x: int)
    requires
        0 <= c < 4,
        0 <= x < w / 2,
        0 <= y < h / 2,
    ensures
        0 <= (y * 2 + c / 2) * w <= mosaic_index(w, c, y, x) < w * h,
{
    let a = x * 2 + c % 2;
    let b = y * 2 + c / 2;
    assert(a < w);
    assert(b < h);
    assert(0 <= b * w) by (nonlinear_arith)
        requires
            0 <= b,
            0 <= w,
    ;
    assert(a + b * w < w * h) by (nonlinear_arith)
        requires
            0 <= a < w,
            0 <= b < h,
    ;
}

/// The values of channel `channel` of a `width` by `height` mosaic image stored row
/// by row, cell by cell: channel `c` sits at column offset `c % 2` and row offset
/// `c / 2` of each 2x2 cell.
pub fn channel_samples(data: &[u16], width: usize, height: usize, channel: usize) -> (r: Vec<u64>)
    requires
        channel < 4,
        width * height <= data@.len(),
    ensures
        r@ == channel_values(data@, width as int, height as int, channel as int),
{
    let half_w = width / 2;
    let half_h = height / 2;
    let mut out: Vec<u64> = Vec::new();
    if half_w == 0 || half_h == 0 {
        proof {
            assert((half_h as int) * (half_w as int) == 0) by (nonlinear_arith)
                requires
                    half_w == 0 || half_h == 0,
            ;
        }
        assert(out@ =~= channel_values(data@, width as int, height as int, channel as int));
        return out;
    }
    let x_offset = channel % 2;
    let y_offset = channel / 2;
    let data_len = data.len();
    let mut y: usize = 0;
    while y < half_h
        invariant
            channel < 4,
            width * height <= data@.len(),
            data_len == data@.len(),
            half_w == width / 2,
            half_h == height / 2,
            half_w > 0,
            x_offset == channel % 2,
            y_offset == channel / 2,
            y <= half_h,
            out@.len() == y * half_w,
            forall|k: int|
                0 <= k < out@.len() ==> #[trigger] out@[k] == channel_values(
                    data@,
                    width as int,
                    height as int,
                    channel as int,
                )[k],
        decreases half_h - y,
    {
        let mut x: usize = 0;
        while x < half_w
            invariant
                channel < 4,
                width * height <= data@.len(),
                data_len == data@.len(),
                half_w == width / 2,
                half_h == height / 2,
                half_w > 0,
                x_offset == channel % 2,
                y_offset == channel / 2,
                y < half_h,
                x <= half_w,
                out@.len() == y * half_w + x,
                forall|k: int|
                    0 <= k < out@.len() ==> #[trigger] out@[k] == channel_values(
                        data@,
                        width as int,
                        height as int,
                        channel as int,
                    )[k],
            decreases half_w - x,
        {
            proof {
                lemma_mosaic_index_bound(
                    width as int,
                    height as int,
                    channel as int,
                    y as int,
                    x as int,
                );
                let k = y * half_w + x;
                vstd::arithmetic::div_mod::lemma_fundamental_div_mod_converse(
                    k,
                    half_w as int,
                    y as int,
                    x as int,
                );
                assert(k < half_h * half_w) by (nonlinear_arith)
                    requires
                        k == y * half_w + x,
                        x < half_w,
                        y < half_h,
                ;
            }
            assert((y * 2 + y_offset) * width < width * height);
            assert(x * 2 + x_offset + (y * 2 + y_offset) * width < width * height);
            let index = x * 2 + x_offset + (y * 2 + y_offset) * width;
            out.push(data[index] as u64);
            x = x + 1;
        }
        proof {
            assert((y + 1) * half_w == y * half_w + half_w) by (nonlinear_arith);
        }
        y = y + 1;
    }
    assert(out@ =~= channel_values(data@, width as int, height as int, channel as int));
    out
}

/// Every `step`-th value, starting with the first.
pub fn every_nth_sample(values: &Vec<u64>, step: usize) -> (r: Vec<u64>)
    requires
        step > 0,
    ensures
        r@ == every_nth(values@, step as int),
{
    let n = values.len();
    let mut out: Vec<u64> = Vec::new();
    let mut i: usize = 0;
    let mut j: usize = 0;
    while i < n
        invariant
            step > 0,
            n == values@.len(),
            out@.len() == j,
            j > 0 ==> (j - 1) * step < n,
            i == j * step || (i == n && j * step >= n),
            i <= n,
            forall|k: int| 0 <= k < j ==> #[trigger] out@[k] == values@[k * step],
        decreases n - i,
    {
        proof {
            assert(j * step < n);
            assert((j + 1) * step == j * step + step) by (nonlinear_arith);
            assert(j <= j * step) by (nonlinear_arith)
                requires
                    step > 0,
            ;
        }
        out.push(values[i]);
        j = j + 1;
        if n - i <= step {
            i = n;
        } else {
            i = i + step;
        }
    }
    proof {
        if n > 0 {
            assert(j > 0);
            assert(j * step >= n);
            assert((j - 1) * step == j * step - step) by (nonlinear_arith);
            let r = n + step - 1 - j * step;
            assert(0 <= r < step);
            vstd::arithmetic::div_mod::lemma_fundamental_div_mod_converse(
                (n + step - 1) as int,
                step as int,
                j as int,
                r as int,
            );
        } else {
            assert(j == 0);
            vstd::arithmetic::div_mod::lemma_fundamental_div_mod_converse(
                (step - 1) as int,
                step as int,
                0,
                (step - 1) as int,
            );
        }
    }
    assert(out@ =~= every_nth(values@, step as int));
    out
}

/// The stride between the values taken from a channel: the length of the image data
/// divided by the smaller of the number of samples asked for and that length.
pub open spec fn sample_step(len: int, samples: int) -> int {
    if len == 0 {
        1
    } else if samples < len {
        len / samples
    } else {
        1
    }
}

/// The normalized distribution of channel `channel` of a `width` by `height` mosaic
/// image, built from every `sample_step`-th of the channel's values so that about
/// `samples` are taken.
pub fn create_distribution(
    data: &[u16],
    width: usize,
    height: usize,
    samples: usize,
    channel: usize,
) -> (r: Result<Distribution, DistributionError>)
    requires
        channel < 4,
        width * height <= data@.len(),
        samples > 0,
    ensures
        built_from(
            every_nth(
                channel_values(data@, width as int, height as int, channel as int),
                sample_step(data@.len() as int, samples as int),
            ),
            r,
        ),
{
    let len = data.len();
    let step: usize = if len == 0 {
        1
    } else if samples < len {
        proof {
            vstd::arithmetic::div_mod::lemma_fundamental_div_mod(len as int, samples as int);
            assert(len / samples > 0) by (nonlinear_arith)
                requires
                    len == samples * (len / samples) + len % samples,
                    0 <= len % samples < samples,
                    samples < len,
            ;
        }
        len / samples
    } else {
        1
    };
    let values = channel_samples(data, width, height, channel);
    let taken = every_nth_sample(&values, step);
    build_distribution(taken)
}

} // verus!
