//! Stake-weighted median of scores, by binary search around a mid pivot.
use vstd::prelude::*;
use crate::fixed::{I32F32, add32, sub32, div32, sat64, trunc_div, scale32};
use crate::math::{sum_bits, sum_fits, normalized, zeros, inplace_normalize, sum_fixed, zero_vec};

verus! {

/// One pass over a partition around a pivot score: the saturating stake of
/// the indices scoring below and above the pivot, and those indices, in order.
/// Indices scoring exactly the pivot, or without a score or stake, take no part.
pub open spec fn split_partition(stake: Seq<I32F32>, score: Seq<I32F32>, part: Seq<usize>, pivot: I32F32)
    -> (int, int, Seq<usize>, Seq<usize>)
    decreases part.len(),
{
    if part.len() == 0 {
        (0, 0, Seq::empty(), Seq::empty())
    } else {
        let (lo, hi, lower, upper) = split_partition(stake, score, part.drop_last(), pivot);
        let idx = part.last() as int;
        if idx >= score.len() || idx >= stake.len() || score[idx].bits == pivot.bits {
            (lo, hi, lower, upper)
        } else if score[idx].bits < pivot.bits {
            (add32(lo, stake[idx].bits as int), hi, lower.push(part.last()), upper)
        } else {
            (lo, add32(hi, stake[idx].bits as int), lower, upper.push(part.last()))
        }
    }
}

/// Every index that takes part in a split is counted once.
pub proof fn lemma_split_len(stake: Seq<I32F32>, score: Seq<I32F32>, part: Seq<usize>, pivot: I32F32)
    ensures
        split_partition(stake, score, part, pivot).2.len() + split_partition(stake, score, part, pivot).3.len() <= part.len(),
    decreases part.len(),
{
    if part.len() > 0 {
        lemma_split_len(stake, score, part.drop_last(), pivot);
    }
}

/// An index scoring exactly the pivot makes both halves strictly smaller than the partition.
pub proof fn lemma_split_shrinks(stake: Seq<I32F32>, score: Seq<I32F32>, part: Seq<usize>, pivot: I32F32, k: int)
    requires
        0 <= k < part.len(),
        (part[k] as int) < score.len(),
        score[part[k] as int].bits == pivot.bits,
    ensures
        split_partition(stake, score, part, pivot).2.len() + split_partition(stake, score, part, pivot).3.len() < part.len(),
    decreases part.len(),
{
    if k == part.len() - 1 {
        lemma_split_len(stake, score, part.drop_last(), pivot);
    } else {
        lemma_split_shrinks(stake, score, part.drop_last(), pivot, k);
    }
}

/// The result of the weighted-median search over a partition whose stake
/// occupies the segment `[lo, hi]` of the stake integral.
pub open spec fn weighted_median_spec(stake: Seq<I32F32>, score: Seq<I32F32>, part: Seq<usize>, minority: I32F32, lo: int, hi: int) -> int
    decreases part.len(),
{
    let n = part.len();
    if n == 0 {
        0
    } else if n == 1 {
        if (part[0] as int) < score.len() { score[part[0] as int].bits as int } else { 0 }
    } else if (part[(n / 2) as int] as int) >= score.len() {
        0
    } else {
        let pivot = score[part[(n / 2) as int] as int];
        let (lo_stake, hi_stake, lower, upper) = split_partition(stake, score, part, pivot);
        proof {
            lemma_split_shrinks(stake, score, part, pivot, (n / 2) as int);
        }
        if add32(lo, lo_stake) <= minority.bits && minority.bits < sub32(hi, hi_stake) {
            pivot.bits as int
        } else if minority.bits < add32(lo, lo_stake) && lower.len() > 0 {
            weighted_median_spec(stake, score, lower, minority, lo, add32(lo, lo_stake))
        } else if sub32(hi, hi_stake) <= minority.bits && upper.len() > 0 {
            weighted_median_spec(stake, score, upper, minority, sub32(hi, hi_stake), hi)
        } else {
            pivot.bits as int
        }
    }
}

/// Stake-weighted median of `score` over the indices in `partition_idx`: the
/// score at which the accumulated stake, from `partition_lo`, crosses
/// `minority`. The pivot is the middle index of the partition, so the search
/// is deterministic.
pub fn weighted_median(
    stake: &Vec<I32F32>,
    score: &Vec<I32F32>,
    partition_idx: &[usize],
    minority: I32F32,
    partition_lo: I32F32,
    partition_hi: I32F32,
) -> (median: I32F32)
    requires
        partition_idx@.len() >= 2 ==> stake@.len() == score@.len(),
    ensures
        median.bits == weighted_median_spec(stake@, score@, partition_idx@, minority, partition_lo.bits as int, partition_hi.bits as int),
    decreases partition_idx@.len(),
{
    let n = partition_idx.len();
    if n == 0 {
        return I32F32::zero();
    }
    if n == 1 {
        let idx0 = partition_idx[0];
        if idx0 < score.len() {
            return score[idx0];
        }
        return I32F32::zero();
    }
    let mid_idx: usize = n / 2;
    let pidx = partition_idx[mid_idx];
    if pidx >= score.len() {
        return I32F32::zero();
    }
    let pivot = score[pidx];
    let mut lo_stake = I32F32::zero();
    let mut hi_stake = I32F32::zero();
    let mut lower: Vec<usize> = Vec::new();
    let mut upper: Vec<usize> = Vec::new();
    let mut t: usize = 0;
    while t < n
        invariant
            n == partition_idx@.len(),
            t <= n,
            (lo_stake.bits as int, hi_stake.bits as int, lower@, upper@)
                == split_partition(stake@, score@, partition_idx@.take(t as int), pivot),
        decreases n - t,
    {
        proof {
            assert(partition_idx@.take(t + 1).drop_last() =~= partition_idx@.take(t as int));
        }
        let idx = partition_idx[t];
        if idx < score.len() && idx < stake.len() {
            let s = score[idx];
            if s.bits != pivot.bits {
                if s.bits < pivot.bits {
                    lo_stake = lo_stake.saturating_add(stake[idx]);
                    lower.push(idx);
                } else {
                    hi_stake = hi_stake.saturating_add(stake[idx]);
                    upper.push(idx);
                }
            }
        }
        t = t + 1;
    }
    proof {
        assert(partition_idx@.take(n as int) =~= partition_idx@);
        lemma_split_shrinks(stake@, score@, partition_idx@, pivot, mid_idx as int);
    }
    let lo_sum = partition_lo.saturating_add(lo_stake);
    let hi_rest = partition_hi.saturating_sub(hi_stake);
    if lo_sum.bits <= minority.bits && minority.bits < hi_rest.bits {
        pivot
    } else if minority.bits < lo_sum.bits && lower.len() > 0 {
        weighted_median(stake, score, lower.as_slice(), minority, partition_lo, lo_sum)
    } else if hi_rest.bits <= minority.bits && upper.len() > 0 {
        weighted_median(stake, score, upper.as_slice(), minority, hi_rest, partition_hi)
    } else {
        pivot
    }
}


/// Whether a fixed-point number is strictly positive.
pub open spec fn is_positive() -> spec_fn(I32F32) -> bool {
    |x: I32F32| x.bits > 0
}

/// The strictly positive elements of a vector, in order.
pub open spec fn positive_part(s: Seq<I32F32>) -> Seq<I32F32> {
    s.filter(is_positive())
}

/// The indices `0, 1, ..., n - 1`.
pub open spec fn index_seq(n: int) -> Seq<usize> {
    Seq::new(n as nat, |i: int| i as usize)
}

/// Writes the entries of a score row into slot `k` of the column vectors they
/// name; entries outside the columns, or a slot past the end, are skipped.
pub open spec fn place_row(us: Seq<Seq<I32F32>>, row: Seq<(u16, I32F32)>, k: int) -> Seq<Seq<I32F32>>
    decreases row.len(),
{
    if row.len() == 0 {
        us
    } else {
        let u = place_row(us, row.drop_last(), k);
        let (c, v) = row.last();
        if (c as int) < u.len() && 0 <= k < u[c as int].len() { u.update(c as int, u[c as int].update(k, v)) } else { u }
    }
}

/// The column-major scores of the first `r` rows whose stake is positive,
/// together with how many such rows there were.
pub open spec fn fill_scores(stake: Seq<I32F32>, score: Seq<Vec<(u16, I32F32)>>, columns: int, width: int, r: int)
    -> (Seq<Seq<I32F32>>, int)
    decreases r,
{
    if r <= 0 {
        (Seq::new(columns as nat, |c: int| zeros(width)), 0)
    } else {
        let (us, k) = fill_scores(stake, score, columns, width, r - 1);
        let i = r - 1;
        if i < score.len() && i < stake.len() && stake[i].bits > 0 {
            (place_row(us, score[i]@, k), k + 1)
        } else {
            (us, k)
        }
    }
}

proof fn lemma_place_row_shape(us: Seq<Seq<I32F32>>, row: Seq<(u16, I32F32)>, k: int, width: int)
    requires
        forall|c: int| 0 <= c < us.len() ==> #[trigger] us[c].len() == width,
    ensures
        place_row(us, row, k).len() == us.len(),
        forall|c: int| 0 <= c < us.len() ==> #[trigger] place_row(us, row, k)[c].len() == width,
    decreases row.len(),
{
    if row.len() > 0 {
        lemma_place_row_shape(us, row.drop_last(), k, width);
        let u = place_row(us, row.drop_last(), k);
        let cc = row.last().0 as int;
        let v = row.last().1;
        if cc < u.len() && 0 <= k < u[cc].len() {
            assert(u[cc].len() == width);
            assert(place_row(us, row, k) == u.update(cc, u[cc].update(k, v)));
        } else {
            assert(place_row(us, row, k) == u);
        }
        assert forall|c: int| 0 <= c < us.len() implies #[trigger] place_row(us, row, k)[c].len() == width by {
            assert(u[c].len() == width);
        }
    }
}

proof fn lemma_fill_scores_shape(stake: Seq<I32F32>, score: Seq<Vec<(u16, I32F32)>>, columns: int, width: int, r: int)
    requires
        columns >= 0,
        width >= 0,
    ensures
        fill_scores(stake, score, columns, width, r).0.len() == columns,
        forall|c: int| 0 <= c < columns ==> #[trigger] fill_scores(stake, score, columns, width, r).0[c].len() == width,
        0 <= fill_scores(stake, score, columns, width, r).1,
        r >= 0 ==> fill_scores(stake, score, columns, width, r).1 <= r,
    decreases r,
{
    if r > 0 {
        lemma_fill_scores_shape(stake, score, columns, width, r - 1);
        let (us, k) = fill_scores(stake, score, columns, width, r - 1);
        if r - 1 < score.len() && r - 1 < stake.len() && stake[r - 1].bits > 0 {
            lemma_place_row_shape(us, score[r - 1]@, k, width);
        }
    }
}

pub proof fn lemma_prefix_nonneg(s: Seq<I32F32>, k: int)
    requires
        forall|i: int| 0 <= i < s.len() ==> #[trigger] s[i].bits >= 0,
        0 <= k <= s.len(),
    ensures
        0 <= sum_bits(s.take(k)),
    decreases k,
{
    if k > 0 {
        lemma_prefix_nonneg(s, k - 1);
        assert(s.take(k).drop_last() =~= s.take(k - 1));
    }
}

pub proof fn lemma_prefix_le_total(s: Seq<I32F32>, k: int)
    requires
        forall|i: int| 0 <= i < s.len() ==> #[trigger] s[i].bits >= 0,
        0 <= k <= s.len(),
    ensures
        sum_bits(s.take(k)) <= sum_bits(s),
    decreases s.len() - k,
{
    if k < s.len() {
        lemma_prefix_le_total(s, k + 1);
        assert(s.take(k + 1).drop_last() =~= s.take(k));
    } else {
        assert(s.take(k) =~= s);
    }
}

proof fn lemma_normalized_prefix(s: Seq<I32F32>, k: int)
    requires
        forall|i: int| 0 <= i < s.len() ==> #[trigger] s[i].bits >= 0,
        sum_bits(s) > 0,
        0 <= k <= s.len(),
    ensures
        0 <= sum_bits(normalized(s).take(k)),
        sum_bits(normalized(s).take(k)) * sum_bits(s) <= scale32() * sum_bits(s.take(k)),
    decreases k,
{
    let t = sum_bits(s);
    if k > 0 {
        lemma_normalized_prefix(s, k - 1);
        assert(normalized(s).take(k).drop_last() =~= normalized(s).take(k - 1));
        assert(s.take(k).drop_last() =~= s.take(k - 1));
        lemma_prefix_le_total(s, k);
        lemma_prefix_nonneg(s, k - 1);
        let x = s[k - 1].bits as int;
        let a = sum_bits(normalized(s).take(k - 1));
        let p = sum_bits(s.take(k - 1));
        assert(x <= t);
        let q = (x * scale32()) / t;
        assert(0 <= q <= scale32() && q * t <= x * scale32()) by (nonlinear_arith)
            requires 0 <= x <= t, t > 0, q == (x * scale32()) / t, scale32() > 0;
        assert(trunc_div(x * scale32(), t) == q);
        assert(div32(x, t) == q);
        assert(normalized(s)[k - 1].bits == q);
        assert((a + q) * t <= scale32() * (p + x)) by (nonlinear_arith)
            requires a * t <= scale32() * p, q * t <= x * scale32();
    }
}

/// The positive part of a vector, once normalized, sums to at most one.
pub proof fn lemma_normalized_fits(s: Seq<I32F32>)
    requires
        forall|i: int| 0 <= i < s.len() ==> #[trigger] s[i].bits >= 0,
    ensures
        sum_fits(normalized(s)),
        0 <= sum_bits(normalized(s)) <= scale32(),
{
    if sum_bits(s) == 0 {
        assert forall|k: int| 0 <= k <= s.len() implies i64::MIN <= #[trigger] sum_bits(s.take(k)) <= i64::MAX by {
            lemma_prefix_nonneg(s, k);
            lemma_prefix_le_total(s, k);
        }
        lemma_prefix_nonneg(s, s.len() as int);
        assert(s.take(s.len() as int) =~= s);
    } else {
        lemma_prefix_nonneg(s, s.len() as int);
        assert(s.take(s.len() as int) =~= s);
        let t = sum_bits(s);
        assert forall|k: int| 0 <= k <= normalized(s).len() implies
            i64::MIN <= #[trigger] sum_bits(normalized(s).take(k)) <= i64::MAX by {
            lemma_normalized_prefix(s, k);
            lemma_prefix_le_total(s, k);
            let a = sum_bits(normalized(s).take(k));
            let p = sum_bits(s.take(k));
            assert(a <= scale32()) by (nonlinear_arith)
                requires a * t <= scale32() * p, p <= t, t > 0, scale32() > 0;
        }
        lemma_normalized_prefix(s, s.len() as int);
        assert(normalized(s).take(s.len() as int) =~= normalized(s));
        let a = sum_bits(normalized(s));
        assert(a <= scale32()) by (nonlinear_arith)
            requires a * t <= scale32() * t, t > 0;
    }
}

/// The stake vector of `weighted_median_col_sparse` once its non-positive
/// entries are dropped and it is normalized.
pub open spec fn used_stake(stake: Seq<I32F32>) -> Seq<I32F32> {
    normalized(positive_part(stake))
}

/// Column-wise stake-weighted median of a sparse score matrix whose rows
/// belong to the stakers, ignoring stakers without positive stake. The
/// minority share is the total normalized stake minus `majority`.
pub fn weighted_median_col_sparse(stake: &[I32F32], score: &[Vec<(u16, I32F32)>], columns: u16, majority: I32F32)
    -> (median: Vec<I32F32>)
    requires
        sum_fits(positive_part(stake@)),
    ensures
        median@.len() == columns,
        forall|c: int| 0 <= c < columns ==> #[trigger] median@[c].bits == weighted_median_spec(
            used_stake(stake@),
            fill_scores(stake@, score@, columns as int, used_stake(stake@).len() as int, stake@.len() as int).0[c],
            index_seq(used_stake(stake@).len() as int),
            I32F32 { bits: sub32(sum_bits(used_stake(stake@)), majority.bits as int) as i64 },
            0,
            sum_bits(used_stake(stake@)),
        ),
{
    let rows = stake.len();
    let ghost pos = is_positive();
    let mut use_stake: Vec<I32F32> = Vec::new();
    let mut r: usize = 0;
    while r < rows
        invariant
            rows == stake@.len(),
            r <= rows,
            pos == is_positive(),
            use_stake@ == stake@.take(r as int).filter(pos),
        decreases rows - r,
    {
        proof {
            assert(stake@.take(r + 1) =~= stake@.take(r as int).push(stake@[r as int]));
            stake@.take(r as int).lemma_filter_push(stake@[r as int], pos);
        }
        if stake[r].bits > 0 {
            use_stake.push(stake[r]);
        }
        r = r + 1;
    }
    proof {
        assert(stake@.take(rows as int) =~= stake@);
        assert forall|i: int| 0 <= i < use_stake@.len() implies #[trigger] use_stake@[i].bits >= 0 by {
            stake@.lemma_filter_pred(pos, i);
        }
        lemma_normalized_fits(use_stake@);
    }
    inplace_normalize(&mut use_stake);
    let stake_sum = sum_fixed(use_stake.as_slice());
    let width = use_stake.len();
    let mut stake_idx: Vec<usize> = Vec::new();
    let mut i: usize = 0;
    while i < width
        invariant
            i <= width,
            stake_idx@ == index_seq(i as int),
        decreases width - i,
    {
        stake_idx.push(i);
        proof {
            assert(stake_idx@ =~= index_seq(i + 1));
        }
        i = i + 1;
    }
    let minority = stake_sum.saturating_sub(majority);

    let mut use_score: Vec<Vec<I32F32>> = Vec::new();
    let mut c: usize = 0;
    while c < columns as usize
        invariant
            c <= columns,
            use_score@.len() == c,
            forall|t: int| 0 <= t < c ==> #[trigger] use_score@[t]@ == zeros(width as int),
        decreases columns - c,
    {
        use_score.push(zero_vec(width));
        c = c + 1;
    }
    let ghost ncols = columns as int;
    proof {
        assert(use_score@.map_values(|v: Vec<I32F32>| v@) =~= fill_scores(stake@, score@, ncols, width as int, 0).0);
    }
    let mut k: usize = 0;
    let mut r: usize = 0;
    while r < rows
        invariant
            rows == stake@.len(),
            r <= rows,
            ncols == columns,
            use_score@.len() == columns,
            use_score@.map_values(|v: Vec<I32F32>| v@) == fill_scores(stake@, score@, ncols, width as int, r as int).0,
            k == fill_scores(stake@, score@, ncols, width as int, r as int).1,
            k <= r,
        decreases rows - r,
    {
        proof {
            lemma_fill_scores_shape(stake@, score@, ncols, width as int, r as int);
        }
        if r < score.len() && stake[r].bits > 0 {
            let score_r = &score[r];
            let ghost start = use_score@.map_values(|v: Vec<I32F32>| v@);
            let mut e: usize = 0;
            while e < score_r.len()
                invariant
                    e <= score_r@.len(),
                    use_score@.len() == columns,
                    ncols == columns,
                    forall|t: int| 0 <= t < start.len() ==> #[trigger] start[t].len() == width,
                    start.len() == columns,
                    use_score@.map_values(|v: Vec<I32F32>| v@) == place_row(start, score_r@.take(e as int), k as int),
                decreases score_r@.len() - e,
            {
                proof {
                    assert(score_r@.take(e + 1).drop_last() =~= score_r@.take(e as int));
                    lemma_place_row_shape(start, score_r@.take(e as int), k as int, width as int);
                }
                let (col, val) = score_r[e];
                let ghost before = use_score@.map_values(|v: Vec<I32F32>| v@);
                if (col as usize) < use_score.len() && k < use_score[col as usize].len() {
                    use_score[col as usize].set(k, val);
                    proof {
                        assert(use_score@.map_values(|v: Vec<I32F32>| v@) =~= before.update(col as int, before[col as int].update(k as int, val)));
                    }
                }
                e = e + 1;
            }
            proof {
                assert(score_r@.take(score_r@.len() as int) =~= score_r@);
            }
            k = k + 1;
        }
        r = r + 1;
    }
    proof {
        lemma_fill_scores_shape(stake@, score@, ncols, width as int, rows as int);
        assert forall|t: int| 0 <= t < columns implies #[trigger] use_score@[t]@.len() == width by {
            assert(use_score@.map_values(|v: Vec<I32F32>| v@)[t] == use_score@[t]@);
        }
    }
    let mut median: Vec<I32F32> = Vec::new();
    let mut c: usize = 0;
    while c < columns as usize
        invariant
            c <= columns,
            ncols == columns,
            median@.len() == c,
            use_score@.len() == columns,
            use_stake@.len() == width,
            use_score@.map_values(|v: Vec<I32F32>| v@) == fill_scores(stake@, score@, ncols, width as int, rows as int).0,
            forall|t: int| 0 <= t < columns ==> #[trigger] use_score@[t]@.len() == width,
            forall|t: int| 0 <= t < c ==> #[trigger] median@[t].bits == weighted_median_spec(
                use_stake@, use_score@[t]@, stake_idx@, minority, 0, stake_sum.bits as int),
        decreases columns - c,
    {
        proof {
            assert(use_score@.map_values(|v: Vec<I32F32>| v@)[c as int] == use_score@[c as int]@);
        }
        let m = weighted_median(&use_stake, &use_score[c], stake_idx.as_slice(), minority, I32F32::zero(), stake_sum);
        median.push(m);
        c = c + 1;
    }
    proof {
        assert forall|t: int| 0 <= t < columns implies #[trigger] median@[t].bits == weighted_median_spec(
            used_stake(stake@),
            fill_scores(stake@, score@, columns as int, used_stake(stake@).len() as int, stake@.len() as int).0[t],
            index_seq(used_stake(stake@).len() as int),
            I32F32 { bits: sub32(sum_bits(used_stake(stake@)), majority.bits as int) as i64 },
            0,
            sum_bits(used_stake(stake@)),
        ) by {
            assert(use_score@.map_values(|v: Vec<I32F32>| v@)[t] == use_score@[t]@);
        }
    }
    median
}

/// The halves of a split hold only indices of the partition.
proof fn lemma_split_within(stake: Seq<I32F32>, score: Seq<I32F32>, part: Seq<usize>, pivot: I32F32)
    ensures
        forall|x: usize| split_partition(stake, score, part, pivot).2.contains(x) ==> part.contains(x),
        forall|x: usize| split_partition(stake, score, part, pivot).3.contains(x) ==> part.contains(x),
    decreases part.len(),
{
    if part.len() > 0 {
        let p = part.drop_last();
        lemma_split_within(stake, score, p, pivot);
        assert forall|x: usize| p.contains(x) implies part.contains(x) by {
            let i = choose|i: int| 0 <= i < p.len() && p[i] == x;
            assert(part[i] == x);
        }
        assert(part[part.len() - 1] == part.last());
    }
}

/// The stake-weighted median is zero or the score of an index of the
/// partition.
pub proof fn weighted_median_is_a_score(stake: Seq<I32F32>, score: Seq<I32F32>, part: Seq<usize>, minority: I32F32,
    lo: int, hi: int)
    ensures
        weighted_median_spec(stake, score, part, minority, lo, hi) == 0
            || exists|x: usize| part.contains(x) && (x as int) < score.len()
                && weighted_median_spec(stake, score, part, minority, lo, hi) == #[trigger] score[x as int].bits,
    decreases part.len(),
{
    let n = part.len();
    if n == 1 {
        if (part[0] as int) < score.len() {
            assert(part.contains(part[0]));
        }
    } else if n >= 2 && (part[(n / 2) as int] as int) < score.len() {
        let pivot = score[part[(n / 2) as int] as int];
        let (lo_stake, hi_stake, lower, upper) = split_partition(stake, score, part, pivot);
        lemma_split_shrinks(stake, score, part, pivot, (n / 2) as int);
        lemma_split_within(stake, score, part, pivot);
        assert(part.contains(part[(n / 2) as int]));
        if add32(lo, lo_stake) <= minority.bits && minority.bits < sub32(hi, hi_stake) {
        } else if minority.bits < add32(lo, lo_stake) && lower.len() > 0 {
            weighted_median_is_a_score(stake, score, lower, minority, lo, add32(lo, lo_stake));
        } else if sub32(hi, hi_stake) <= minority.bits && upper.len() > 0 {
            weighted_median_is_a_score(stake, score, upper, minority, sub32(hi, hi_stake), hi);
        }
    }
}

/// The stake of the indices in `part` scoring below `m`.
pub open spec fn stake_below(stake: Seq<I32F32>, score: Seq<I32F32>, part: Seq<usize>, m: int) -> int
    decreases part.len(),
{
    if part.len() == 0 {
        0
    } else {
        let x = part.last() as int;
        stake_below(stake, score, part.drop_last(), m) + (if score[x].bits < m { stake[x].bits as int } else { 0 })
    }
}

/// The stake of the indices in `part` scoring above `m`.
pub open spec fn stake_above(stake: Seq<I32F32>, score: Seq<I32F32>, part: Seq<usize>, m: int) -> int
    decreases part.len(),
{
    if part.len() == 0 {
        0
    } else {
        let x = part.last() as int;
        stake_above(stake, score, part.drop_last(), m) + (if score[x].bits > m { stake[x].bits as int } else { 0 })
    }
}

/// The stake of the indices in `part`.
pub open spec fn stake_total(stake: Seq<I32F32>, part: Seq<usize>) -> int
    decreases part.len(),
{
    if part.len() == 0 { 0 } else { stake_total(stake, part.drop_last()) + stake[part.last() as int].bits }
}

/// Whether every index of `part` has a score and a stake, and no stake is negative.
pub open spec fn indexed(stake: Seq<I32F32>, score: Seq<I32F32>, part: Seq<usize>) -> bool {
    forall|x: usize| part.contains(x) ==> (x as int) < score.len() && (x as int) < stake.len() && stake[x as int].bits >= 0
}

/// What a split around `pivot` does to the stake, when no sum saturates:
/// the halves hold the stake scoring below and above the pivot, and the
/// stake on either side of a mark beyond the pivot is read off one half.
proof fn lemma_split_stake(stake: Seq<I32F32>, score: Seq<I32F32>, part: Seq<usize>, pivot: I32F32)
    requires
        indexed(stake, score, part),
        stake_total(stake, part) <= i64::MAX,
    ensures
        ({
            let (lo_s, hi_s, lower, upper) = split_partition(stake, score, part, pivot);
            &&& 0 <= stake_total(stake, part)
            &&& lo_s == stake_below(stake, score, part, pivot.bits as int)
            &&& hi_s == stake_above(stake, score, part, pivot.bits as int)
            &&& stake_total(stake, lower) == lo_s
            &&& stake_total(stake, upper) == hi_s
            &&& forall|x: usize| lower.contains(x) ==> part.contains(x) && score[x as int].bits < pivot.bits
            &&& forall|x: usize| upper.contains(x) ==> part.contains(x) && score[x as int].bits > pivot.bits
            &&& forall|m: int| 0 <= #[trigger] stake_below(stake, score, part, m) <= stake_total(stake, part)
            &&& forall|m: int| 0 <= #[trigger] stake_above(stake, score, part, m) <= stake_total(stake, part)
            &&& forall|m: int| m < pivot.bits ==> #[trigger] stake_below(stake, score, part, m) == stake_below(stake, score, lower, m)
            &&& forall|m: int| m > pivot.bits ==> #[trigger] stake_above(stake, score, part, m) == stake_above(stake, score, upper, m)
            &&& forall|m: int| m < pivot.bits ==> #[trigger] stake_above(stake, score, part, m)
                == stake_above(stake, score, lower, m) + stake_total(stake, part) - stake_total(stake, lower)
            &&& forall|m: int| m > pivot.bits ==> #[trigger] stake_below(stake, score, part, m)
                == stake_below(stake, score, upper, m) + stake_total(stake, part) - stake_total(stake, upper)
        }),
    decreases part.len(),
{
    let (lo_s, hi_s, lower, upper) = split_partition(stake, score, part, pivot);
    if part.len() > 0 {
        let p = part.drop_last();
        let x = part.last();
        assert(part.contains(x)) by {
            assert(part[part.len() - 1] == x);
        }
        assert forall|y: usize| p.contains(y) implies part.contains(y) by {
            let i = choose|i: int| 0 <= i < p.len() && p[i] == y;
            assert(part[i] == y);
        }
        lemma_split_stake(stake, score, p, pivot);
        let (plo, phi, plower, pupper) = split_partition(stake, score, p, pivot);
        let s = stake[x as int].bits as int;
        let sc = score[x as int].bits;
        assert(stake_total(stake, part) == stake_total(stake, p) + s);
        if sc < pivot.bits {
            assert(lower == plower.push(x));
            assert(upper == pupper);
            assert(lower.drop_last() =~= plower);
            assert forall|y: usize| lower.contains(y) implies part.contains(y) && score[y as int].bits < pivot.bits by {
                if y != x {
                    let i = choose|i: int| 0 <= i < lower.len() && lower[i] == y;
                    assert(plower[i] == y);
                    assert(plower.contains(y));
                }
            }
        } else if sc > pivot.bits {
            assert(upper == pupper.push(x));
            assert(lower == plower);
            assert(upper.drop_last() =~= pupper);
            assert forall|y: usize| upper.contains(y) implies part.contains(y) && score[y as int].bits > pivot.bits by {
                if y != x {
                    let i = choose|i: int| 0 <= i < upper.len() && upper[i] == y;
                    assert(pupper[i] == y);
                    assert(pupper.contains(y));
                }
            }
        }
        assert forall|m: int| 0 <= #[trigger] stake_below(stake, score, part, m) <= stake_total(stake, part) by {
            assert(0 <= stake_below(stake, score, p, m) <= stake_total(stake, p));
        }
        assert forall|m: int| 0 <= #[trigger] stake_above(stake, score, part, m) <= stake_total(stake, part) by {
            assert(0 <= stake_above(stake, score, p, m) <= stake_total(stake, p));
        }
        assert forall|m: int| m < pivot.bits implies #[trigger] stake_below(stake, score, part, m)
            == stake_below(stake, score, lower, m) by {
            assert(stake_below(stake, score, p, m) == stake_below(stake, score, plower, m));
        }
        assert forall|m: int| m > pivot.bits implies #[trigger] stake_above(stake, score, part, m)
            == stake_above(stake, score, upper, m) by {
            assert(stake_above(stake, score, p, m) == stake_above(stake, score, pupper, m));
        }
        assert forall|m: int| m < pivot.bits implies #[trigger] stake_above(stake, score, part, m)
            == stake_above(stake, score, lower, m) + stake_total(stake, part) - stake_total(stake, lower) by {
            assert(stake_above(stake, score, p, m)
                == stake_above(stake, score, plower, m) + stake_total(stake, p) - stake_total(stake, plower));
        }
        assert forall|m: int| m > pivot.bits implies #[trigger] stake_below(stake, score, part, m)
            == stake_below(stake, score, upper, m) + stake_total(stake, part) - stake_total(stake, upper) by {
            assert(stake_below(stake, score, p, m)
                == stake_below(stake, score, pupper, m) + stake_total(stake, p) - stake_total(stake, pupper));
        }
    }
}

/// Over a partition whose indices all have a score, the weighted median is
/// the score of one of them.
pub proof fn weighted_median_in_partition(stake: Seq<I32F32>, score: Seq<I32F32>, part: Seq<usize>, minority: I32F32, lo: int, hi: int)
    requires
        part.len() > 0,
        forall|x: usize| part.contains(x) ==> (x as int) < score.len(),
    ensures
        exists|x: usize| part.contains(x) && weighted_median_spec(stake, score, part, minority, lo, hi) == #[trigger] score[x as int].bits,
    decreases part.len(),
{
    let n = part.len();
    let r = weighted_median_spec(stake, score, part, minority, lo, hi);
    assert(part.contains(part[0]));
    assert(part.contains(part[(n / 2) as int]));
    if n == 1 {
        assert(r == score[part[0] as int].bits);
    } else {
        let pivot = score[part[(n / 2) as int] as int];
        let (lo_stake, hi_stake, lower, upper) = split_partition(stake, score, part, pivot);
        lemma_split_shrinks(stake, score, part, pivot, (n / 2) as int);
        lemma_split_within(stake, score, part, pivot);
        assert forall|x: usize| lower.contains(x) implies (x as int) < score.len() by {
            assert(split_partition(stake, score, part, pivot).2.contains(x));
            assert(part.contains(x));
        }
        assert forall|x: usize| upper.contains(x) implies (x as int) < score.len() by {
            assert(split_partition(stake, score, part, pivot).3.contains(x));
            assert(part.contains(x));
        }
        if add32(lo, lo_stake) <= minority.bits && minority.bits < sub32(hi, hi_stake) {
            assert(r == score[part[(n / 2) as int] as int].bits);
        } else if minority.bits < add32(lo, lo_stake) && lower.len() > 0 {
            weighted_median_in_partition(stake, score, lower, minority, lo, add32(lo, lo_stake));
            let x = choose|x: usize| lower.contains(x)
                && weighted_median_spec(stake, score, lower, minority, lo, add32(lo, lo_stake)) == #[trigger] score[x as int].bits;
            assert(split_partition(stake, score, part, pivot).2.contains(x));
            assert(part.contains(x));
            assert(r == score[x as int].bits);
        } else if sub32(hi, hi_stake) <= minority.bits && upper.len() > 0 {
            weighted_median_in_partition(stake, score, upper, minority, sub32(hi, hi_stake), hi);
            let x = choose|x: usize| upper.contains(x)
                && weighted_median_spec(stake, score, upper, minority, sub32(hi, hi_stake), hi) == #[trigger] score[x as int].bits;
            assert(split_partition(stake, score, part, pivot).3.contains(x));
            assert(part.contains(x));
            assert(r == score[x as int].bits);
        } else {
            assert(r == score[part[(n / 2) as int] as int].bits);
        }
    }
}

/// The weighted median is a stake-weighted quantile: over a partition whose
/// stake fills `[lo, hi]` without saturating, the stake scoring below the
/// median does not carry `lo` past `minority`, and the stake scoring above
/// it does not bring `hi` down to `minority`.
pub proof fn weighted_median_is_a_quantile(stake: Seq<I32F32>, score: Seq<I32F32>, part: Seq<usize>, minority: I32F32,
    lo: int, hi: int)
    requires
        part.len() > 0,
        indexed(stake, score, part),
        i64::MIN <= lo,
        stake_total(stake, part) <= i64::MAX,
        hi == lo + stake_total(stake, part),
        hi <= i64::MAX,
        lo <= minority.bits < hi,
    ensures
        lo + stake_below(stake, score, part, weighted_median_spec(stake, score, part, minority, lo, hi)) <= minority.bits,
        minority.bits < hi - stake_above(stake, score, part, weighted_median_spec(stake, score, part, minority, lo, hi)),
    decreases part.len(),
{
    let n = part.len();
    let m = weighted_median_spec(stake, score, part, minority, lo, hi);
    if n == 1 {
        let x = part[0];
        assert(part.contains(x));
        assert(part.last() == x);
        let e = part.drop_last();
        assert(e.len() == 0);
        assert(stake_total(stake, e) == 0);
        assert(stake_below(stake, score, e, m) == 0);
        assert(stake_above(stake, score, e, m) == 0);
        assert(stake_total(stake, part) == stake[x as int].bits);
        assert(m == score[x as int].bits);
    } else {
        assert(part.contains(part[(n / 2) as int]));
        let pivot = score[part[(n / 2) as int] as int];
        let (lo_s, hi_s, lower, upper) = split_partition(stake, score, part, pivot);
        lemma_split_shrinks(stake, score, part, pivot, (n / 2) as int);
        lemma_split_stake(stake, score, part, pivot);
        assert(add32(lo, lo_s) == lo + lo_s);
        assert(sub32(hi, hi_s) == hi - hi_s);
        if lo + lo_s <= minority.bits && minority.bits < hi - hi_s {
            assert(m == pivot.bits);
        } else if minority.bits < lo + lo_s && lower.len() > 0 {
            assert(indexed(stake, score, lower));
            weighted_median_is_a_quantile(stake, score, lower, minority, lo, lo + lo_s);
            weighted_median_in_partition(stake, score, lower, minority, lo, lo + lo_s);
            assert(m < pivot.bits);
        } else if hi - hi_s <= minority.bits && upper.len() > 0 {
            assert(indexed(stake, score, upper));
            weighted_median_is_a_quantile(stake, score, upper, minority, hi - hi_s, hi);
            weighted_median_in_partition(stake, score, upper, minority, hi - hi_s, hi);
            assert(m > pivot.bits);
        } else {
            assert(lower.len() == 0 ==> stake_total(stake, lower) == 0);
            assert(upper.len() == 0 ==> stake_total(stake, upper) == 0);
        }
    }
}

} // verus!
