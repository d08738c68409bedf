//! The categorical sampler: draws indices from a discrete distribution of
//! non-negative integer weights by inverse-CDF search over cumulative sums,
//! with or without replacement.

use rand::Rng;
use vstd::pervasive::VecAdditionalExecFns;
use vstd::prelude::*;

use crate::ModelError;

verus! {

/// The sum of a sequence of weights.
pub open spec fn seq_sum(s: Seq<u64>) -> int
    decreases s.len(),
{
    if s.len() == 0 {
        0
    } else {
        seq_sum(s.drop_last()) + s.last()
    }
}

/// The number of strictly positive entries of a sequence of weights.
pub open spec fn positives(s: Seq<u64>) -> int
    decreases s.len(),
{
    if s.len() == 0 {
        0
    } else {
        positives(s.drop_last()) + (if s.last() > 0 {
            1int
        } else {
            0int
        })
    }
}

/// Appending one weight adds it to the sum.
pub proof fn lemma_seq_sum_push(s: Seq<u64>, v: u64)
    ensures
        seq_sum(s.push(v)) == seq_sum(s) + v,
{
    assert(s.push(v).drop_last() =~= s);
    assert(s.push(v).last() == v);
}

/// Appending one weight adds one positive entry exactly when it is positive.
pub proof fn lemma_positives_push(s: Seq<u64>, v: u64)
    ensures
        positives(s.push(v)) == positives(s) + (if v > 0 {
            1int
        } else {
            0int
        }),
{
    assert(s.push(v).drop_last() =~= s);
    assert(s.push(v).last() == v);
}

/// Sums and positive-entry counts are non-negative, and a sequence sums to
/// zero exactly when it has no positive entry.
pub proof fn lemma_sum_positives(s: Seq<u64>)
    ensures
        seq_sum(s) >= 0,
        positives(s) >= 0,
        seq_sum(s) > 0 <==> positives(s) > 0,
    decreases s.len(),
{
    if s.len() > 0 {
        lemma_sum_positives(s.drop_last());
    }
}

/// Zeroing one entry removes exactly that entry's weight from the sum.
pub proof fn lemma_seq_sum_update(s: Seq<u64>, i: int, v: u64)
    requires
        0 <= i < s.len(),
    ensures
        seq_sum(s.update(i, v)) == seq_sum(s) - s[i] + v,
    decreases s.len(),
{
    if i == s.len() - 1 {
        assert(s.update(i, v).drop_last() =~= s.drop_last());
    } else {
        assert(s.update(i, v).drop_last() =~= s.drop_last().update(i, v));
        assert(s.update(i, v).last() == s.last());
        lemma_seq_sum_update(s.drop_last(), i, v);
    }
}

/// Zeroing a positive entry lowers the count of positive entries by one.
pub proof fn lemma_positives_update_zero(s: Seq<u64>, i: int)
    requires
        0 <= i < s.len(),
        s[i] > 0,
    ensures
        positives(s.update(i, 0)) == positives(s) - 1,
    decreases s.len(),
{
    if i == s.len() - 1 {
        assert(s.update(i, 0).drop_last() =~= s.drop_last());
    } else {
        assert(s.update(i, 0).drop_last() =~= s.drop_last().update(i, 0));
        assert(s.update(i, 0).last() == s.last());
        lemma_positives_update_zero(s.drop_last(), i);
    }
}

/// Prefix sums never decrease as the prefix grows.
pub proof fn lemma_prefix_sum_mono(s: Seq<u64>, i: int, j: int)
    requires
        0 <= i <= j <= s.len(),
    ensures
        seq_sum(s.take(i)) <= seq_sum(s.take(j)),
    decreases j - i,
{
    if i < j {
        lemma_prefix_sum_mono(s, i, j - 1);
        assert(s.take(j) =~= s.take(j - 1).push(s[j - 1]));
        lemma_seq_sum_push(s.take(j - 1), s[j - 1]);
    }
}

/// The whole sequence is its own longest prefix.
pub proof fn lemma_sum_take_all(s: Seq<u64>)
    ensures
        seq_sum(s.take(s.len() as int)) == seq_sum(s),
{
    assert(s.take(s.len() as int) =~= s);
}

/// The rows of a weight matrix laid out end to end as one distribution.
pub open spec fn flat_view(m: Seq<Seq<u64>>) -> Seq<u64>
    decreases m.len(),
{
    if m.len() == 0 {
        Seq::empty()
    } else {
        flat_view(m.drop_last()) + m.last()
    }
}

/// Appending a row appends its weights to the flattened distribution.
pub proof fn lemma_flat_view_push(m: Seq<Seq<u64>>, r: Seq<u64>)
    ensures
        flat_view(m.push(r)) == flat_view(m) + r,
{
    assert(m.push(r).drop_last() =~= m);
}

/// Lays the rows of a weight matrix end to end into one flat distribution,
/// in row-major order.
pub fn flatten(rows: &Vec<Vec<u64>>) -> (r: Vec<u64>)
    ensures
        r@ == flat_view(rows@.map_values(|v: Vec<u64>| v@)),
{
    let ghost m = rows@.map_values(|v: Vec<u64>| v@);
    let mut r: Vec<u64> = Vec::new();
    let mut i: usize = 0;
    while i < rows.len()
        invariant
            m == rows@.map_values(|v: Vec<u64>| v@),
            i <= rows@.len(),
            m.len() == rows@.len(),
            r@ == flat_view(m.take(i as int)),
        decreases rows@.len() - i,
    {
        let row = &rows[i];
        let mut j: usize = 0;
        while j < row.len()
            invariant
                m == rows@.map_values(|v: Vec<u64>| v@),
                i < rows@.len(),
                m.len() == rows@.len(),
                row@ == m[i as int],
                j <= row@.len(),
                r@ == flat_view(m.take(i as int)) + row@.take(j as int),
            decreases row@.len() - j,
        {
            r.push(row[j]);
            proof {
                assert(row@.take(j + 1) =~= row@.take(j as int).push(row@[j as int]));
                assert(r@ =~= flat_view(m.take(i as int)) + row@.take(j + 1));
            }
            j += 1;
        }
        proof {
            assert(row@.take(row@.len() as int) =~= row@);
            assert(m.take(i + 1) =~= m.take(i as int).push(m[i as int]));
            lemma_flat_view_push(m.take(i as int), m[i as int]);
        }
        i += 1;
    }
    proof {
        assert(m.take(m.len() as int) =~= m);
    }
    r
}

/// The set of indices holding strictly positive weights.
pub open spec fn positive_set(w: Seq<u64>) -> Set<int> {
    Set::new(|j: int| 0 <= j < w.len() && w[j] > 0)
}

/// The positive-index set is finite and exactly as large as the count of
/// positive entries.
pub proof fn lemma_positive_set_card(w: Seq<u64>)
    ensures
        positive_set(w).finite(),
        positive_set(w).len() == positives(w),
    decreases w.len(),
{
    if w.len() == 0 {
        assert(positive_set(w) =~= Set::<int>::empty());
    } else {
        let pre = w.drop_last();
        lemma_positive_set_card(pre);
        if w.last() > 0 {
            assert(positive_set(w) =~= positive_set(pre).insert(w.len() - 1));
            assert(!positive_set(pre).contains(w.len() - 1));
        } else {
            assert(positive_set(w) =~= positive_set(pre));
        }
    }
}

/// Law: drawing without replacement as many samples as there are
/// positive-weight entries yields every positive-weight index exactly once.
///
/// The hypotheses are exactly what `sample` ensures of a successful draw of
/// `positives(w)` samples without replacement; the conclusion adds that every
/// positive-weight index occurs among the samples — exactly once, since the
/// samples are pairwise distinct.
pub proof fn lemma_exhaustion(w: Seq<u64>, s: Seq<usize>)
    requires
        s.no_duplicates(),
        s.len() == positives(w),
        forall|k: int| 0 <= k < s.len() ==> (#[trigger] s[k]) < w.len() && w[s[k] as int] > 0,
    ensures
        forall|j: int|
            0 <= j < w.len() && w[j] > 0 ==> exists|k: int| 0 <= k < s.len() && s[k] as int == j,
{
    let f = |x: usize| x as int;
    let si = s.map_values(f);
    assert(vstd::relations::injective(f)) by {
        assert forall|x1: usize, x2: usize| #[trigger] f(x1) == #[trigger] f(x2) implies x1
            == x2 by {}
    }
    s.lemma_no_duplicates_injective(f);
    si.unique_seq_to_set();
    lemma_positive_set_card(w);
    assert(si.to_set().subset_of(positive_set(w))) by {
        assert forall|x: int| si.to_set().contains(x) implies positive_set(w).contains(x) by {
            let k = choose|k: int| 0 <= k < si.len() && si[k] == x;
            assert(s[k] as int == x);
            assert(w[x] > 0);
        }
    }
    assert forall|j: int| 0 <= j < w.len() && w[j] > 0 implies exists|k: int|
        0 <= k < s.len() && s[k] as int == j by {
        if !si.to_set().contains(j) {
            si.to_set().lemma_subset_not_in_lt(positive_set(w), j);
            assert(false);
        }
        assert(si.contains(j));
        let k = choose|k: int| 0 <= k < si.len() && si[k] == j;
        assert(s[k] as int == j);
    }
}

/// Relies on rand::thread_rng and rand::Rng::gen_range: a draw over the
/// half-open range below the bound lies in that range; the range is
/// non-empty, so the call does not panic.
#[verifier::external_body]
fn random_below(bound: u64) -> (r: u64)
    requires
        bound >= 1,
    ensures
        r < bound,
{
    rand::thread_rng().gen_range(0..bound)
}

/// Builds the cumulative-sum array of a weight sequence: entry `k` holds the
/// sum of the weights up to and including index `k`.
fn cumulative(w: &Vec<u64>) -> (c: Vec<u64>)
    requires
        seq_sum(w@) <= u64::MAX,
    ensures
        c@.len() == w@.len(),
        forall|k: int| 0 <= k < w@.len() ==> c@[k] == seq_sum(w@.take(k + 1)),
{
    let n = w.len();
    let mut c: Vec<u64> = Vec::new();
    let mut sum: u64 = 0;
    let mut k: usize = 0;
    while k < n
        invariant
            n == w@.len(),
            k <= n,
            seq_sum(w@) <= u64::MAX,
            c@.len() == k,
            sum == seq_sum(w@.take(k as int)),
            forall|m: int| 0 <= m < k ==> c@[m] == seq_sum(w@.take(m + 1)),
        decreases n - k,
    {
        proof {
            assert(w@.take(k + 1) =~= w@.take(k as int).push(w@[k as int]));
            lemma_seq_sum_push(w@.take(k as int), w@[k as int]);
            lemma_prefix_sum_mono(w@, k + 1, w@.len() as int);
            lemma_sum_take_all(w@);
            lemma_sum_positives(w@.take(k as int));
        }
        sum = sum + w[k];
        c.push(sum);
        k += 1;
    }
    c
}

/// Finds the first index whose cumulative sum exceeds the draw: the
/// inverse-CDF rule, resolving ties to the lower index.
fn find_first_above(c: &Vec<u64>, r: u64) -> (idx: usize)
    requires
        c@.len() >= 1,
        forall|i: int, j: int| #![trigger c@[i], c@[j]] 0 <= i <= j < c@.len() ==> c@[i] <= c@[j],
        r < c@[c@.len() - 1],
    ensures
        idx < c@.len(),
        c@[idx as int] > r,
        forall|m: int| 0 <= m < idx ==> c@[m] <= r,
{
    let mut lo: usize = 0;
    let mut hi: usize = c.len() - 1;
    while lo < hi
        invariant
            lo <= hi < c@.len(),
            forall|i: int, j: int| #![trigger c@[i], c@[j]] 0 <= i <= j < c@.len() ==> c@[i] <= c@[j],
            c@[hi as int] > r,
            forall|m: int| 0 <= m < lo ==> c@[m] <= r,
        decreases hi - lo,
    {
        let mid = lo + (hi - lo) / 2;
        if c[mid] > r {
            hi = mid;
        } else {
            proof {
                assert forall|m: int| 0 <= m < mid + 1 implies c@[m] <= r by {
                    assert(c@[m] <= c@[mid as int]);
                }
            }
            lo = mid + 1;
        }
    }
    lo
}

/// Draws one index from a positive-total weight vector: the index comes back
/// in range and with a strictly positive weight, whatever the random draw.
fn draw(w: &Vec<u64>, total: u64) -> (idx: usize)
    requires
        total == seq_sum(w@),
        total >= 1,
    ensures
        idx < w@.len(),
        w@[idx as int] > 0,
{
    let c = cumulative(w);
    proof {
        lemma_sum_take_all(w@);
        assert(w@.len() >= 1);
        assert(c@[c@.len() - 1] == total);
        assert forall|i: int, j: int|
            #![trigger c@[i], c@[j]]
            0 <= i <= j < c@.len() implies c@[i] <= c@[j] by {
            lemma_prefix_sum_mono(w@, i + 1, j + 1);
        }
    }
    let r = random_below(total);
    let idx = find_first_above(&c, r);
    proof {
        assert(w@.take(idx + 1) =~= w@.take(idx as int).push(w@[idx as int]));
        lemma_seq_sum_push(w@.take(idx as int), w@[idx as int]);
        if idx == 0 {
            assert(seq_sum(w@.take(0)) == 0);
        } else {
            assert(c@[idx - 1] <= r);
        }
    }
    idx
}

/// Draws one index from an arbitrary weight vector by inverse-CDF sampling.
///
/// Succeeds exactly when the weights have a positive sum; the drawn index
/// always carries a strictly positive weight. A zero-total distribution
/// fails fast with `DegenerateRow`.
pub fn sample_index(weights: &Vec<u64>) -> (r: Result<usize, ModelError>)
    requires
        seq_sum(weights@) <= u64::MAX,
    ensures
        match r {
            Ok(idx) => {
                &&& seq_sum(weights@) > 0
                &&& idx < weights@.len()
                &&& weights@[idx as int] > 0
            },
            Err(e) => {
                &&& e == ModelError::DegenerateRow
                &&& seq_sum(weights@) == 0
            },
        },
{
    proof {
        lemma_sum_positives(weights@);
    }
    let total = sum_weights(weights);
    if total == 0 {
        return Err(ModelError::DegenerateRow);
    }
    Ok(draw(weights, total))
}

/// Adds up a weight vector.
pub(crate) fn sum_weights(w: &Vec<u64>) -> (total: u64)
    requires
        seq_sum(w@) <= u64::MAX,
    ensures
        total == seq_sum(w@),
{
    let n = w.len();
    let mut total: u64 = 0;
    let mut k: usize = 0;
    while k < n
        invariant
            n == w@.len(),
            k <= n,
            seq_sum(w@) <= u64::MAX,
            total == seq_sum(w@.take(k as int)),
        decreases n - k,
    {
        proof {
            assert(w@.take(k + 1) =~= w@.take(k as int).push(w@[k as int]));
            lemma_seq_sum_push(w@.take(k as int), w@[k as int]);
            lemma_prefix_sum_mono(w@, k + 1, w@.len() as int);
            lemma_sum_take_all(w@);
            lemma_sum_positives(w@.take(k as int));
        }
        total = total + w[k];
        k += 1;
    }
    proof {
        lemma_sum_take_all(w@);
    }
    total
}

/// Counts the strictly positive entries of a weight vector.
fn count_positives(w: &Vec<u64>) -> (p: usize)
    ensures
        p == positives(w@),
{
    let n = w.len();
    let mut p: usize = 0;
    let mut k: usize = 0;
    while k < n
        invariant
            n == w@.len(),
            k <= n,
            p == positives(w@.take(k as int)),
            p <= k,
        decreases n - k,
    {
        proof {
            assert(w@.take(k + 1) =~= w@.take(k as int).push(w@[k as int]));
            lemma_positives_push(w@.take(k as int), w@[k as int]);
        }
        if w[k] > 0 {
            p += 1;
        }
        k += 1;
    }
    proof {
        assert(w@.take(n as int) =~= w@);
    }
    p
}

/// Draws `num_samples` indices from a distribution of non-negative weights
/// by inverse-CDF sampling.
///
/// With replacement the distribution is unchanged between draws; without
/// replacement each drawn index has its weight zeroed before the next draw,
/// so the drawn indices are pairwise distinct. Every drawn index carries a
/// strictly positive weight in the distribution as given.
///
/// Fails with `InsufficientSupport` exactly when sampling without
/// replacement asks for more draws than there are positive-weight entries,
/// and with `DegenerateRow` exactly when sampling with replacement asks for
/// at least one draw from a zero-total distribution.
pub fn sample(weights: &Vec<u64>, num_samples: usize, replacement: bool) -> (r: Result<
    Vec<usize>,
    ModelError,
>)
    requires
        seq_sum(weights@) <= u64::MAX,
    ensures
        match r {
            Ok(s) => {
                &&& s@.len() == num_samples
                &&& forall|k: int|
                    0 <= k < s@.len() ==> (#[trigger] s@[k]) < weights@.len() && weights@[s@[k] as int] > 0
                &&& !replacement ==> s@.no_duplicates()
            },
            Err(e) => {
                &&& (e == ModelError::InsufficientSupport <==> (!replacement && num_samples
                    > positives(weights@)))
                &&& (e == ModelError::DegenerateRow <==> (replacement && num_samples > 0 && seq_sum(
                    weights@,
                ) == 0))
            },
        },
        r is Err <==> ((!replacement && num_samples > positives(weights@)) || (replacement
            && num_samples > 0 && seq_sum(weights@) == 0)),
{
    proof {
        lemma_sum_positives(weights@);
    }
    if replacement {
        let total = sum_weights(weights);
        if num_samples > 0 && total == 0 {
            return Err(ModelError::DegenerateRow);
        }
        let mut out: Vec<usize> = Vec::new();
        let mut d: usize = 0;
        while d < num_samples
            invariant
                num_samples > 0 ==> total >= 1,
                total == seq_sum(weights@),
                d <= num_samples,
                out@.len() == d,
                forall|k: int|
                    0 <= k < d ==> (#[trigger] out@[k]) < weights@.len() && weights@[out@[k] as int]
                        > 0,
            decreases num_samples - d,
        {
            let idx = draw(weights, total);
            out.push(idx);
            d += 1;
        }
        Ok(out)
    } else {
        let p = count_positives(weights);
        if num_samples > p {
            return Err(ModelError::InsufficientSupport);
        }
        // Work on a copy whose drawn entries get zeroed out.
        let n = weights.len();
        let mut w: Vec<u64> = Vec::new();
        let mut k: usize = 0;
        while k < n
            invariant
                n == weights@.len(),
                k <= n,
                w@ == weights@.take(k as int),
            decreases n - k,
        {
            w.push(weights[k]);
            proof {
                assert(w@ =~= weights@.take(k + 1));
            }
            k += 1;
        }
        proof {
            assert(w@ =~= weights@);
        }
        let mut total = sum_weights(&w);
        let mut out: Vec<usize> = Vec::new();
        let mut d: usize = 0;
        while d < num_samples
            invariant
                num_samples <= positives(weights@),
                n == weights@.len(),
                w@.len() == n,
                d <= num_samples,
                out@.len() == d,
                total == seq_sum(w@),
                positives(w@) == positives(weights@) - d,
                forall|j: int| 0 <= j < n ==> w@[j] == weights@[j] || (#[trigger] w@[j]) == 0,
                forall|k: int|
                    0 <= k < d ==> (#[trigger] out@[k]) < n && weights@[out@[k] as int] > 0
                        && w@[out@[k] as int] == 0,
                out@.no_duplicates(),
            decreases num_samples - d,
        {
            proof {
                lemma_sum_positives(w@);
            }
            let idx = draw(&w, total);
            let ghost prev = out@;
            proof {
                assert(weights@[idx as int] > 0);
                assert forall|i: int, j: int|
                    0 <= i < j < prev.push(idx).len() implies prev.push(idx)[i] != prev.push(
                    idx,
                )[j] by {
                    if j < prev.len() {
                        assert(prev[i] != prev[j]);
                    } else {
                        assert(w@[prev[i] as int] == 0);
                        assert(w@[idx as int] > 0);
                    }
                }
                assert(prev.push(idx).no_duplicates());
            }
            out.push(idx);
            let old_weight = w[idx];
            let ghost pre = w@;
            w.set(idx, 0);
            proof {
                lemma_seq_sum_update(pre, idx as int, 0);
                lemma_positives_update_zero(pre, idx as int);
                lemma_sum_positives(w@);
            }
            total = total - old_weight;
            d += 1;
        }
        Ok(out)
    }
}

} // verus!
