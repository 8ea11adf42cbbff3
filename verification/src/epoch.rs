//! The reward step of a subnet: founder share, incentive, trust, bonds,
//! dividends and how the emission is paid out as stake.
use vstd::prelude::*;
use crate::fixed::{I32F32, I64F64, add32, div32, mul32, mul32_fits, mul64_fits, scale32, scale64, sat128, trunc_div};
use crate::math::{inplace_normalize, is_zero, normalized, sum_bits, sum_fits, zero_vec, zeros, fixed_proportion_to_u16, proportion_u16,
    proportion_bits, u16_proportion_to_fixed, mask_diag_sparse, inplace_row_normalize_sparse, row_divided, row_sum_bits, row_sum_fits, without_column};
use crate::median::{lemma_normalized_fits, lemma_prefix_le_total, lemma_prefix_nonneg};
use crate::errors::Error;

verus! {

/// The founder share, capped at one hundred percent.
pub open spec fn capped_share(share: u16) -> int {
    if share > 100 { 100 } else { share as int }
}

/// The part of `token_emission` that goes to the founder of a subnet whose
/// founder share is `share` percent: the share as a 64-bit fraction, times
/// the emission, rounded down.
pub open spec fn founder_cut(share: u16, token_emission: u64) -> int {
    if capped_share(share) == 0 {
        0
    } else {
        ((capped_share(share) * scale64()) / 100 * token_emission) / scale64()
    }
}

/// Splits `token_emission` into what remains for the modules and the
/// founder's part.
pub fn calculate_founder_emission(founder_share: u16, token_emission: u64) -> (r: (u64, u64))
    requires
        token_emission <= i64::MAX,
    ensures
        r.1 == founder_cut(founder_share, token_emission),
        r.0 == token_emission - r.1,
{
    let share: u16 = if founder_share < 100 { founder_share } else { 100 };
    if share == 0 {
        return (token_emission, 0);
    }
    let ghost s = share as int;
    proof {
        assert(((s * scale64()) * scale64()) / (100 * scale64()) == (s * scale64()) / 100) by (nonlinear_arith)
            requires 0 < s <= 100, scale64() > 0;
        assert(0 <= (s * scale64()) / 100 <= scale64()) by (nonlinear_arith)
            requires 0 < s <= 100, scale64() > 0;
    }
    let ratio = match I64F64::from_u64(share as u64).checked_div(I64F64::from_u64(100)) {
        Some(q) => q,
        None => I64F64::zero(),
    };
    let ghost rb = (s * scale64()) / 100;
    let ghost te = token_emission as int;
    proof {
        assert(ratio.bits == rb);
        assert((rb * (te * scale64())) / scale64() == rb * te) by (nonlinear_arith)
            requires scale64() > 0;
        assert(0 <= rb * te <= scale64() * i64::MAX) by (nonlinear_arith)
            requires 0 <= rb <= scale64(), 0 <= te <= i64::MAX;
        assert(0 <= (rb * te) / scale64() <= te) by (nonlinear_arith)
            requires 0 <= rb <= scale64(), 0 <= te, scale64() > 0;
    }
    let founder = match ratio.checked_mul(I64F64::from_u64(token_emission)) {
        Some(p) => p.to_u64(),
        None => 0,
    };
    (token_emission - founder, founder)
}

/// The entries of each row of a sparse matrix.
pub open spec fn rows_view<T>(m: Seq<Vec<T>>) -> Seq<Seq<T>> {
    m.map_values(|r: Vec<T>| r@)
}

/// The stake of module `i`, zero when there is none.
pub open spec fn stake_at(stake: Seq<I32F32>, i: int) -> I32F32 {
    if 0 <= i < stake.len() { stake[i] } else { I32F32 { bits: 0 } }
}

/// Adds `s * v` for each weight `(j, v)` of a row into slot `j` (saturating);
/// a product that does not fit, or a column outside the accumulator, is skipped.
pub open spec fn incentive_row(acc: Seq<I32F32>, row: Seq<(u16, I32F32)>, s: I32F32) -> Seq<I32F32>
    decreases row.len(),
{
    if row.len() == 0 {
        acc
    } else {
        let prev = incentive_row(acc, row.drop_last(), s);
        let j = row.last().0 as int;
        let v = row.last().1;
        if j < prev.len() && mul32_fits(s.bits as int, v.bits as int) {
            prev.update(j, I32F32 { bits: add32(prev[j].bits as int, (s.bits * v.bits) / scale32()) as i64 })
        } else {
            prev
        }
    }
}

/// The stake-weighted sum of the weights each of `n` modules received.
pub open spec fn incentive_rows(w: Seq<Seq<(u16, I32F32)>>, stake: Seq<I32F32>, n: int) -> Seq<I32F32>
    decreases w.len(),
{
    if w.len() == 0 {
        zeros(n)
    } else {
        incentive_row(incentive_rows(w.drop_last(), stake, n), w.last(), stake_at(stake, w.len() - 1))
    }
}

/// Sets slot `u` to one for each `u` of `uids` inside the vector.
pub open spec fn ones_at(acc: Seq<I32F32>, uids: Seq<u16>) -> Seq<I32F32>
    decreases uids.len(),
{
    if uids.len() == 0 {
        acc
    } else {
        let prev = ones_at(acc, uids.drop_last());
        let u = uids.last() as int;
        if u < prev.len() { prev.update(u, I32F32 { bits: scale32() as i64 }) } else { prev }
    }
}

/// The incentive before normalization: the stake-weighted weights, or one
/// for every listed module when they all sum to zero.
pub open spec fn raw_incentive(w: Seq<Seq<(u16, I32F32)>>, stake: Seq<I32F32>, uids: Seq<u16>, n: int) -> Seq<I32F32> {
    let acc = incentive_rows(w, stake, n);
    if sum_bits(acc) == 0 { ones_at(acc, uids) } else { acc }
}

proof fn lemma_incentive_row_len(acc: Seq<I32F32>, row: Seq<(u16, I32F32)>, s: I32F32)
    ensures
        incentive_row(acc, row, s).len() == acc.len(),
    decreases row.len(),
{
    if row.len() > 0 {
        lemma_incentive_row_len(acc, row.drop_last(), s);
    }
}

proof fn lemma_incentive_rows_len(w: Seq<Seq<(u16, I32F32)>>, stake: Seq<I32F32>, n: int)
    requires
        n >= 0,
    ensures
        incentive_rows(w, stake, n).len() == n,
    decreases w.len(),
{
    if w.len() > 0 {
        lemma_incentive_rows_len(w.drop_last(), stake, n);
        lemma_incentive_row_len(incentive_rows(w.drop_last(), stake, n), w.last(), stake_at(stake, w.len() - 1));
    }
}

/// The incentive before normalization has one entry per module.
pub proof fn lemma_raw_incentive_len(w: Seq<Seq<(u16, I32F32)>>, stake: Seq<I32F32>, uids: Seq<u16>, n: int)
    requires
        n >= 0,
    ensures
        raw_incentive(w, stake, uids, n).len() == n,
{
    lemma_incentive_rows_len(w, stake, n);
    lemma_ones_at_len(incentive_rows(w, stake, n), uids);
}

proof fn lemma_ones_at_len(acc: Seq<I32F32>, uids: Seq<u16>)
    ensures
        ones_at(acc, uids).len() == acc.len(),
    decreases uids.len(),
{
    if uids.len() > 0 {
        lemma_ones_at_len(acc, uids.drop_last());
    }
}

/// The sum of `s * v` over the weights `(j, v)` of a row that go to module `j`.
pub open spec fn row_weight_to(row: Seq<(u16, I32F32)>, s: I32F32, j: int) -> int
    decreases row.len(),
{
    if row.len() == 0 {
        0
    } else {
        row_weight_to(row.drop_last(), s, j)
            + if row.last().0 as int == j { (s.bits * row.last().1.bits) / scale32() } else { 0 }
    }
}

/// The sum over validators `i` of `stake[i] * weight[i][j]`: the stake-weighted
/// weight module `j` received.
pub open spec fn stake_weighted_weight(w: Seq<Seq<(u16, I32F32)>>, stake: Seq<I32F32>, j: int) -> int
    decreases w.len(),
{
    if w.len() == 0 {
        0
    } else {
        stake_weighted_weight(w.drop_last(), stake, j) + row_weight_to(w.last(), stake_at(stake, w.len() - 1), j)
    }
}

/// Whether the stakes and weights are non-negative and each product of a
/// validator's stake with one of its weights fits in an `I32F32`.
pub open spec fn weights_nonneg_fit(w: Seq<Seq<(u16, I32F32)>>, stake: Seq<I32F32>) -> bool {
    &&& forall|i: int| 0 <= i < w.len() ==> (#[trigger] stake_at(stake, i)).bits >= 0
    &&& forall|i: int, k: int| 0 <= i < w.len() && 0 <= k < w[i].len() ==> {
        &&& (#[trigger] w[i][k]).1.bits >= 0
        &&& mul32_fits(stake_at(stake, i).bits as int, w[i][k].1.bits as int)
    }
}

proof fn lemma_row_weight_to(acc: Seq<I32F32>, row: Seq<(u16, I32F32)>, s: I32F32, j: int)
    requires
        0 <= j < acc.len(),
        s.bits >= 0,
        forall|k: int| 0 <= k < row.len() ==> (#[trigger] row[k]).1.bits >= 0 && mul32_fits(s.bits as int, row[k].1.bits as int),
        acc[j].bits >= 0,
        acc[j].bits + row_weight_to(row, s, j) <= i64::MAX,
    ensures
        row_weight_to(row, s, j) >= 0,
        incentive_row(acc, row, s)[j].bits == acc[j].bits + row_weight_to(row, s, j),
    decreases row.len(),
{
    if row.len() > 0 {
        let p = row.drop_last();
        let v = row.last().1;
        assert(v == row[row.len() - 1].1);
        assert(0 <= (s.bits * v.bits) / scale32()) by (nonlinear_arith)
            requires s.bits >= 0, v.bits >= 0;
        assert forall|k: int| 0 <= k < p.len() implies (#[trigger] p[k]).1.bits >= 0 && mul32_fits(s.bits as int, p[k].1.bits as int) by {
            assert(p[k] == row[k]);
        }
        lemma_row_weight_to(acc, p, s, j);
        lemma_incentive_row_len(acc, p, s);
    }
}

/// Before normalization, the incentive of module `j` is the sum over the
/// validators `i` of `stake[i] * weight[i][j]`, when stakes and weights are
/// non-negative, each product fits and the sum does; unless no module
/// received anything, that is the incentive `compute_incentive` normalizes.
pub proof fn incentive_is_stake_weighted(w: Seq<Seq<(u16, I32F32)>>, stake: Seq<I32F32>, uids: Seq<u16>, n: int, j: int)
    requires
        0 <= j < n,
        weights_nonneg_fit(w, stake),
        stake_weighted_weight(w, stake, j) <= i64::MAX,
    ensures
        stake_weighted_weight(w, stake, j) >= 0,
        incentive_rows(w, stake, n)[j].bits == stake_weighted_weight(w, stake, j),
        sum_bits(incentive_rows(w, stake, n)) != 0 ==> raw_incentive(w, stake, uids, n)[j].bits
            == stake_weighted_weight(w, stake, j),
    decreases w.len(),
{
    if w.len() > 0 {
        let p = w.drop_last();
        let i = w.len() - 1;
        let s = stake_at(stake, i);
        assert(s.bits >= 0);
        assert(weights_nonneg_fit(p, stake)) by {
            assert forall|a: int| 0 <= a < p.len() implies (#[trigger] stake_at(stake, a)).bits >= 0 by {
                assert(p[a] == w[a]);
            }
            assert forall|a: int, k: int| 0 <= a < p.len() && 0 <= k < p[a].len() implies {
                &&& (#[trigger] p[a][k]).1.bits >= 0
                &&& mul32_fits(stake_at(stake, a).bits as int, p[a][k].1.bits as int)
            } by {
                assert(p[a] == w[a]);
                assert(w[a][k] == p[a][k]);
            }
        }
        let row = w.last();
        assert forall|k: int| 0 <= k < row.len() implies (#[trigger] row[k]).1.bits >= 0 && mul32_fits(s.bits as int, row[k].1.bits as int) by {
            assert(w[i][k] == row[k]);
        }
        lemma_incentive_rows_len(p, stake, n);
        let acc = incentive_rows(p, stake, n);
        // The last row's part is non-negative, so the earlier rows' sum fits too.
        lemma_row_weight_nonneg(row, s, j);
        incentive_is_stake_weighted(p, stake, uids, n, j);
        lemma_row_weight_to(acc, row, s, j);
    }
}

proof fn lemma_row_weight_nonneg(row: Seq<(u16, I32F32)>, s: I32F32, j: int)
    requires
        s.bits >= 0,
        forall|k: int| 0 <= k < row.len() ==> (#[trigger] row[k]).1.bits >= 0,
    ensures
        row_weight_to(row, s, j) >= 0,
    decreases row.len(),
{
    if row.len() > 0 {
        let v = row.last().1;
        assert(v == row[row.len() - 1].1);
        assert(0 <= (s.bits * v.bits) / scale32()) by (nonlinear_arith)
            requires s.bits >= 0, v.bits >= 0;
        assert forall|k: int| 0 <= k < row.drop_last().len() implies (#[trigger] row.drop_last()[k]).1.bits >= 0 by {
            assert(row.drop_last()[k] == row[k]);
        }
        lemma_row_weight_nonneg(row.drop_last(), s, j);
    }
}

/// Sets slot `u` to one for each listed `u` inside the vector.
fn set_ones(v: &mut Vec<I32F32>, uids: &[u16])
    ensures
        final(v)@ == ones_at(old(v)@, uids@),
{
    let ghost start = v@;
    let mut k: usize = 0;
    while k < uids.len()
        invariant
            k <= uids@.len(),
            v@ == ones_at(start, uids@.take(k as int)),
            v@.len() == start.len(),
        decreases uids@.len() - k,
    {
        proof {
            assert(uids@.take(k + 1).drop_last() =~= uids@.take(k as int));
            lemma_ones_at_len(start, uids@.take(k as int));
        }
        let u = uids[k] as usize;
        if u < v.len() {
            v.set(u, I32F32::one());
        }
        k = k + 1;
    }
    proof {
        assert(uids@.take(uids@.len() as int) =~= uids@);
    }
}

/// The incentive of each of `n` modules: the stake-weighted sum of the
/// weights it received, normalized to sum to one; when nothing was received,
/// every listed module gets an equal share.
pub fn compute_incentive(weights: &[Vec<(u16, I32F32)>], stake: &[I32F32], uids: &[u16], n: u16) -> (r: Vec<I32F32>)
    requires
        sum_fits(incentive_rows(rows_view(weights@), stake@, n as int)),
        sum_fits(raw_incentive(rows_view(weights@), stake@, uids@, n as int)),
    ensures
        r@ == normalized(raw_incentive(rows_view(weights@), stake@, uids@, n as int)),
{
    let mut incentive = zero_vec(n as usize);
    let mut i: usize = 0;
    while i < weights.len()
        invariant
            i <= weights@.len(),
            incentive@ == incentive_rows(rows_view(weights@).take(i as int), stake@, n as int),
        decreases weights@.len() - i,
    {
        proof {
            assert(rows_view(weights@).take(i + 1).drop_last() =~= rows_view(weights@).take(i as int));
            lemma_incentive_rows_len(rows_view(weights@).take(i as int), stake@, n as int);
        }
        let stake_i = if i < stake.len() { stake[i] } else { I32F32::zero() };
        let row = &weights[i];
        let ghost acc0 = incentive@;
        let mut k: usize = 0;
        while k < row.len()
            invariant
                k <= row@.len(),
                row@ == weights@[i as int]@,
                stake_i == stake_at(stake@, i as int),
                incentive@ == incentive_row(acc0, row@.take(k as int), stake_i),
            decreases row@.len() - k,
        {
            proof {
                assert(row@.take(k + 1).drop_last() =~= row@.take(k as int));
                lemma_incentive_row_len(acc0, row@.take(k as int), stake_i);
            }
            let (j, value) = row[k];
            if (j as usize) < incentive.len() {
                match stake_i.checked_mul(value) {
                    Some(product) => {
                        let cur = incentive[j as usize];
                        incentive.set(j as usize, cur.saturating_add(product));
                    },
                    None => {},
                }
            }
            k = k + 1;
        }
        proof {
            assert(row@.take(row@.len() as int) =~= row@);
        }
        i = i + 1;
    }
    proof {
        assert(rows_view(weights@).take(weights@.len() as int) =~= rows_view(weights@));
    }
    if is_zero(incentive.as_slice()) {
        set_ones(&mut incentive, uids);
    }
    inplace_normalize(&mut incentive);
    incentive
}

/// Adds one to slot `j` for each positive weight `(j, w)` of a row, when the
/// row's module counts (saturating); columns outside are skipped.
pub open spec fn trust_row(acc: Seq<I32F32>, row: Seq<(u16, I32F32)>, counts: bool) -> Seq<I32F32>
    decreases row.len(),
{
    if row.len() == 0 {
        acc
    } else {
        let prev = trust_row(acc, row.drop_last(), counts);
        let j = row.last().0 as int;
        if counts && j < prev.len() && row.last().1.bits > 0 {
            prev.update(j, I32F32 { bits: add32(prev[j].bits as int, scale32()) as i64 })
        } else {
            prev
        }
    }
}

/// Whether module `i` has a stake entry above `min_stake`.
pub open spec fn trust_counts(stake: Seq<I32F32>, i: int, min_stake: u64) -> bool {
    0 <= i < stake.len() && stake[i].bits > min_stake * scale32()
}

/// For each of `n` modules, the number of modules staked above `min_stake`
/// that gave it a positive weight.
pub open spec fn trust_rows(w: Seq<Seq<(u16, I32F32)>>, stake: Seq<I32F32>, min_stake: u64, n: int) -> Seq<I32F32>
    decreases w.len(),
{
    if w.len() == 0 {
        zeros(n)
    } else {
        trust_row(trust_rows(w.drop_last(), stake, min_stake, n), w.last(), trust_counts(stake, w.len() - 1, min_stake))
    }
}

proof fn lemma_trust_row_len(acc: Seq<I32F32>, row: Seq<(u16, I32F32)>, counts: bool)
    ensures
        trust_row(acc, row, counts).len() == acc.len(),
    decreases row.len(),
{
    if row.len() > 0 {
        lemma_trust_row_len(acc, row.drop_last(), counts);
    }
}

pub proof fn lemma_trust_rows_len(w: Seq<Seq<(u16, I32F32)>>, stake: Seq<I32F32>, min_stake: u64, n: int)
    requires
        n >= 0,
    ensures
        trust_rows(w, stake, min_stake, n).len() == n,
    decreases w.len(),
{
    if w.len() > 0 {
        lemma_trust_rows_len(w.drop_last(), stake, min_stake, n);
        lemma_trust_row_len(trust_rows(w.drop_last(), stake, min_stake, n), w.last(),
            trust_counts(stake, w.len() - 1, min_stake));
    }
}

/// The trust of each of `n` modules: how many modules staked above
/// `min_stake` gave it a positive weight, normalized to sum to one.
pub fn compute_trust(weights: &[Vec<(u16, I32F32)>], stake: &[I32F32], min_stake: u64, n: u16) -> (r: Vec<I32F32>)
    requires
        min_stake <= i32::MAX,
        sum_fits(trust_rows(rows_view(weights@), stake@, min_stake, n as int)),
    ensures
        r@ == normalized(trust_rows(rows_view(weights@), stake@, min_stake, n as int)),
{
    let mut trust = zero_vec(n as usize);
    let threshold = I32F32::from_int(min_stake as u32);
    let mut i: usize = 0;
    while i < weights.len()
        invariant
            i <= weights@.len(),
            threshold.bits == min_stake * scale32(),
            trust@ == trust_rows(rows_view(weights@).take(i as int), stake@, min_stake, n as int),
        decreases weights@.len() - i,
    {
        proof {
            assert(rows_view(weights@).take(i + 1).drop_last() =~= rows_view(weights@).take(i as int));
            lemma_trust_rows_len(rows_view(weights@).take(i as int), stake@, min_stake, n as int);
        }
        let counts = i < stake.len() && stake[i].bits > threshold.bits;
        let row = &weights[i];
        let ghost acc0 = trust@;
        let mut k: usize = 0;
        while k < row.len()
            invariant
                k <= row@.len(),
                row@ == weights@[i as int]@,
                counts == trust_counts(stake@, i as int, min_stake),
                trust@ == trust_row(acc0, row@.take(k as int), counts),
            decreases row@.len() - k,
        {
            proof {
                assert(row@.take(k + 1).drop_last() =~= row@.take(k as int));
                lemma_trust_row_len(acc0, row@.take(k as int), counts);
            }
            let (j, w) = row[k];
            if counts && (j as usize) < trust.len() && w.bits > 0 {
                let cur = trust[j as usize];
                trust.set(j as usize, cur.saturating_add(I32F32::one()));
            }
            k = k + 1;
        }
        proof {
            assert(row@.take(row@.len() as int) =~= row@);
        }
        i = i + 1;
    }
    proof {
        assert(rows_view(weights@).take(weights@.len() as int) =~= rows_view(weights@));
    }
    inplace_normalize(&mut trust);
    trust
}

/// The column sums as the bonds step builds them: for each weight `(j, _)`
/// of row `i`, the stake of module `i` is inserted at position `j`.
pub open spec fn col_insert_row(cs: Seq<I32F32>, row: Seq<(u16, I32F32)>, s: I32F32) -> Seq<I32F32>
    decreases row.len(),
{
    if row.len() == 0 {
        cs
    } else {
        col_insert_row(cs, row.drop_last(), s).insert(row.last().0 as int, s)
    }
}

/// [`col_insert_row`] over all rows, starting from `n` zeros.
pub open spec fn col_insert_rows(w: Seq<Seq<(u16, I32F32)>>, stake: Seq<I32F32>, n: int) -> Seq<I32F32>
    decreases w.len(),
{
    if w.len() == 0 {
        zeros(n)
    } else {
        col_insert_row(col_insert_rows(w.drop_last(), stake, n), w.last(), stake_at(stake, w.len() - 1))
    }
}

/// The bond of a module with stake `s` on column `j`: `s` divided by the
/// column's entry when that is positive, else `s`.
pub open spec fn bond_value(s: I32F32, cs: Seq<I32F32>, j: u16) -> I32F32 {
    let c = if (j as int) < cs.len() { cs[j as int].bits as int } else { 0 };
    if c > 0 { I32F32 { bits: div32(s.bits as int, c) as i64 } } else { s }
}

/// The bonds of every row: each weight's column with the row's bond on it.
pub open spec fn bond_rows(w: Seq<Seq<(u16, I32F32)>>, stake: Seq<I32F32>) -> Seq<Seq<(u16, I32F32)>> {
    Seq::new(w.len(), |i: int| w[i].map_values(|e: (u16, I32F32)|
        (e.0, bond_value(stake[i], col_insert_rows(w, stake, w.len() as int), e.0))))
}

/// Whether every row that has weights has a stake entry.
pub open spec fn rows_have_stake(w: Seq<Seq<(u16, I32F32)>>, stake: Seq<I32F32>) -> bool {
    forall|i: int| 0 <= i < w.len() && #[trigger] w[i].len() > 0 ==> i < stake.len()
}

/// Whether every column index is at most `n`.
pub open spec fn columns_within(w: Seq<Seq<(u16, I32F32)>>, n: int) -> bool {
    forall|i: int, k: int| 0 <= i < w.len() && 0 <= k < w[i].len() ==> #[trigger] w[i][k].0 <= n
}

proof fn lemma_col_insert_row_len(cs: Seq<I32F32>, row: Seq<(u16, I32F32)>, s: I32F32)
    requires
        forall|k: int| 0 <= k < row.len() ==> #[trigger] row[k].0 <= cs.len(),
    ensures
        col_insert_row(cs, row, s).len() == cs.len() + row.len(),
    decreases row.len(),
{
    if row.len() > 0 {
        lemma_col_insert_row_len(cs, row.drop_last(), s);
    }
}

proof fn lemma_col_insert_rows_len(w: Seq<Seq<(u16, I32F32)>>, stake: Seq<I32F32>, n: int)
    requires
        n >= 0,
        columns_within(w, n),
    ensures
        col_insert_rows(w, stake, n).len() >= n,
    decreases w.len(),
{
    if w.len() > 0 {
        assert(columns_within(w.drop_last(), n)) by {
            assert forall|i: int, k: int| 0 <= i < w.drop_last().len() && 0 <= k < w.drop_last()[i].len()
                implies #[trigger] w.drop_last()[i][k].0 <= n by {
                assert(w.drop_last()[i] == w[i]);
            }
        }
        lemma_col_insert_rows_len(w.drop_last(), stake, n);
        let last = w.last();
        assert forall|k: int| 0 <= k < last.len() implies #[trigger] last[k].0 <= col_insert_rows(w.drop_last(), stake, n).len() by {
            assert(w[w.len() - 1][k].0 <= n);
        }
        lemma_col_insert_row_len(col_insert_rows(w.drop_last(), stake, n), last, stake_at(stake, w.len() - 1));
    }
}

/// The bonds of each module: its stake, divided on each weighted column by
/// the entry the column-sum vector holds there. Fails when a module with
/// weights has no stake entry.
pub fn compute_bonds_delta(weights: &[Vec<(u16, I32F32)>], stake: &[I32F32]) -> (r: Result<Vec<Vec<(u16, I32F32)>>, Error>)
    requires
        columns_within(rows_view(weights@), weights@.len() as int),
    ensures
        r is Err <==> !rows_have_stake(rows_view(weights@), stake@),
        r is Err ==> r == Err::<Vec<Vec<(u16, I32F32)>>, Error>(Error::ExtrinsicPanicked),
        r is Ok ==> rows_view(r->Ok_0@) == bond_rows(rows_view(weights@), stake@),
        r is Ok ==> r->Ok_0@.len() == weights@.len() && forall|i: int| 0 <= i < weights@.len() ==>
            (#[trigger] r->Ok_0@[i])@ == weights@[i]@.map_values(|e: (u16, I32F32)|
                (e.0, bond_value(stake@[i], col_insert_rows(rows_view(weights@), stake@, weights@.len() as int), e.0))),
{
    let n = weights.len();
    let mut col_sum = zero_vec(n);
    let mut i: usize = 0;
    while i < weights.len()
        invariant
            i <= weights@.len(),
            n == weights@.len(),
            columns_within(rows_view(weights@), n as int),
            col_sum@ == col_insert_rows(rows_view(weights@).take(i as int), stake@, n as int),
            col_sum@.len() >= n,
            rows_have_stake(rows_view(weights@).take(i as int), stake@),
        decreases weights@.len() - i,
    {
        proof {
            assert(rows_view(weights@).take(i + 1).drop_last() =~= rows_view(weights@).take(i as int));
        }
        let row = &weights[i];
        if row.len() > 0 && i >= stake.len() {
            proof {
                assert(rows_view(weights@)[i as int].len() > 0);
            }
            return Err(Error::ExtrinsicPanicked);
        }
        let s = if i < stake.len() { stake[i] } else { I32F32::zero() };
        let ghost cs0 = col_sum@;
        let mut k: usize = 0;
        while k < row.len()
            invariant
                k <= row@.len(),
                row@ == weights@[i as int]@,
                i < weights@.len(),
                n == weights@.len(),
                columns_within(rows_view(weights@), n as int),
                cs0.len() >= n,
                s == stake_at(stake@, i as int),
                col_sum@ == col_insert_row(cs0, row@.take(k as int), s),
                col_sum@.len() == cs0.len() + k,
            decreases row@.len() - k,
        {
            proof {
                assert(row@.take(k + 1).drop_last() =~= row@.take(k as int));
                assert(rows_view(weights@)[i as int][k as int].0 <= n);
            }
            let (j, _) = row[k];
            col_sum.insert(j as usize, s);
            k = k + 1;
        }
        proof {
            assert(row@.take(row@.len() as int) =~= row@);
            assert(rows_have_stake(rows_view(weights@).take(i + 1), stake@)) by {
                assert forall|t: int| 0 <= t < rows_view(weights@).take(i + 1).len() && #[trigger] rows_view(weights@).take(i + 1)[t].len() > 0
                    implies t < stake@.len() by {
                    if t < i {
                        assert(rows_view(weights@).take(i as int)[t] == rows_view(weights@).take(i + 1)[t]);
                    }
                }
            }
        }
        i = i + 1;
    }
    proof {
        assert(rows_view(weights@).take(weights@.len() as int) =~= rows_view(weights@));
    }
    let ghost cs = col_sum@;
    let mut bonds: Vec<Vec<(u16, I32F32)>> = Vec::new();
    let mut i: usize = 0;
    while i < weights.len()
        invariant
            i <= weights@.len(),
            cs == col_sum@,
            cs == col_insert_rows(rows_view(weights@), stake@, weights@.len() as int),
            rows_have_stake(rows_view(weights@), stake@),
            bonds@.len() == i,
            forall|t: int| 0 <= t < i ==> (#[trigger] bonds@[t])@ == weights@[t]@.map_values(|e: (u16, I32F32)|
                (e.0, bond_value(stake@[t], cs, e.0))),
        decreases weights@.len() - i,
    {
        let row = &weights[i];
        proof {
            assert(rows_view(weights@)[i as int] == weights@[i as int]@);
        }
        let mut out: Vec<(u16, I32F32)> = Vec::new();
        let mut k: usize = 0;
        while k < row.len()
            invariant
                k <= row@.len(),
                row@ == weights@[i as int]@,
                i < weights@.len(),
                cs == col_sum@,
                row@.len() > 0 ==> i < stake@.len(),
                out@.len() == k,
                forall|t: int| 0 <= t < k ==> #[trigger] out@[t] == (row@[t].0, bond_value(stake@[i as int], cs, row@[t].0)),
            decreases row@.len() - k,
        {
            let (j, _) = row[k];
            let s = stake[i];
            let c = if (j as usize) < col_sum.len() { col_sum[j as usize] } else { I32F32::zero() };
            let v = if c.bits > 0 { s.saturating_div(c) } else { s };
            out.push((j, v));
            k = k + 1;
        }
        proof {
            assert(out@ =~= weights@[i as int]@.map_values(|e: (u16, I32F32)| (e.0, bond_value(stake@[i as int], cs, e.0))));
        }
        bonds.push(out);
        i = i + 1;
    }
    proof {
        assert(rows_view(bonds@) =~= bond_rows(rows_view(weights@), stake@));
    }
    Ok(bonds)
}

/// The dividends as the dividend step builds them: for each bond `(j, v)` of
/// row `i`, `d_i + v * d_i` (saturating), with `d_i` the current slot `i`,
/// is inserted at position `j`. `None` when a row with bonds has no slot.
pub open spec fn dividend_row(d: Seq<I32F32>, row: Seq<(u16, I32F32)>, i: int) -> Option<Seq<I32F32>>
    decreases row.len(),
{
    if row.len() == 0 {
        Some(d)
    } else {
        match dividend_row(d, row.drop_last(), i) {
            None => None,
            Some(p) => if 0 <= i < p.len() {
                let di = p[i].bits as int;
                Some(p.insert(row.last().0 as int, I32F32 { bits: add32(di, mul32(row.last().1.bits as int, di)) as i64 }))
            } else {
                None
            },
        }
    }
}

/// [`dividend_row`] over all rows, starting from `n` zeros.
pub open spec fn dividend_rows(b: Seq<Seq<(u16, I32F32)>>, n: int) -> Option<Seq<I32F32>>
    decreases b.len(),
{
    if b.len() == 0 {
        Some(zeros(n))
    } else {
        match dividend_rows(b.drop_last(), n) {
            None => None,
            Some(d) => dividend_row(d, b.last(), b.len() - 1),
        }
    }
}

/// Inserts a one at position `u` for each `u` of `uids`, in order.
pub open spec fn insert_ones(d: Seq<I32F32>, uids: Seq<u16>) -> Seq<I32F32>
    decreases uids.len(),
{
    if uids.len() == 0 {
        d
    } else {
        insert_ones(d, uids.drop_last()).insert(uids.last() as int, I32F32 { bits: scale32() as i64 })
    }
}

/// Whether every element is zero.
pub open spec fn all_zero(s: Seq<I32F32>) -> bool {
    forall|k: int| 0 <= k < s.len() ==> #[trigger] s[k].bits == 0
}

/// The dividends before normalization: the bond-weighted values, or a one
/// inserted for every listed module when they are all zero.
pub open spec fn raw_dividends(d: Seq<I32F32>, uids: Seq<u16>) -> Seq<I32F32> {
    if all_zero(d) { insert_ones(d, uids) } else { d }
}

proof fn lemma_dividend_row_len(d: Seq<I32F32>, row: Seq<(u16, I32F32)>, i: int)
    requires
        forall|k: int| 0 <= k < row.len() ==> #[trigger] row[k].0 <= d.len(),
    ensures
        dividend_row(d, row, i) matches Some(p) ==> p.len() == d.len() + row.len(),
    decreases row.len(),
{
    if row.len() > 0 {
        lemma_dividend_row_len(d, row.drop_last(), i);
    }
}

proof fn lemma_insert_ones_len(d: Seq<I32F32>, uids: Seq<u16>)
    requires
        forall|k: int| 0 <= k < uids.len() ==> #[trigger] uids[k] <= d.len(),
    ensures
        insert_ones(d, uids).len() == d.len() + uids.len(),
    decreases uids.len(),
{
    if uids.len() > 0 {
        lemma_insert_ones_len(d, uids.drop_last());
    }
}

/// The dividends of each module and the same as 16-bit proportions. Fails
/// when a row with bonds has no dividend slot.
pub fn compute_dividends(bonds: &[Vec<(u16, I32F32)>], incentive: &[I32F32], uids: &[u16]) -> (r: Result<(Vec<u16>, Vec<I32F32>), Error>)
    requires
        columns_within(rows_view(bonds@), incentive@.len() as int),
        forall|k: int| 0 <= k < uids@.len() ==> #[trigger] uids@[k] <= incentive@.len(),
        dividend_rows(rows_view(bonds@), incentive@.len() as int) matches Some(d) ==> {
            &&& sum_fits(raw_dividends(d, uids@))
            &&& forall|k: int| 0 <= k < raw_dividends(d, uids@).len() ==>
                0 <= #[trigger] proportion_u16(normalized(raw_dividends(d, uids@))[k]) <= u16::MAX
        },
    ensures
        r is Err <==> dividend_rows(rows_view(bonds@), incentive@.len() as int) is None,
        r is Err ==> r == Err::<(Vec<u16>, Vec<I32F32>), Error>(Error::ExtrinsicPanicked),
        r is Ok ==> {
            let d = normalized(raw_dividends(dividend_rows(rows_view(bonds@), incentive@.len() as int)->Some_0, uids@));
            &&& r->Ok_0.1@ == d
            &&& r->Ok_0.0@.len() == d.len()
            &&& forall|k: int| 0 <= k < d.len() ==> #[trigger] r->Ok_0.0@[k] == proportion_u16(d[k])
        },
{
    let n = incentive.len();
    let mut dividends = zero_vec(n);
    let mut i: usize = 0;
    while i < bonds.len()
        invariant
            i <= bonds@.len(),
            n == incentive@.len(),
            columns_within(rows_view(bonds@), n as int),
            dividend_rows(rows_view(bonds@).take(i as int), n as int) == Some(dividends@),
            dividends@.len() >= n,
        decreases bonds@.len() - i,
    {
        proof {
            assert(rows_view(bonds@).take(i + 1).drop_last() =~= rows_view(bonds@).take(i as int));
        }
        let row = &bonds[i];
        let ghost d0 = dividends@;
        let mut k: usize = 0;
        while k < row.len()
            invariant
                k <= row@.len(),
                row@ == bonds@[i as int]@,
                i < bonds@.len(),
                n == incentive@.len(),
                columns_within(rows_view(bonds@), n as int),
                d0.len() >= n,
                dividend_row(d0, row@.take(k as int), i as int) == Some(dividends@),
                dividend_rows(rows_view(bonds@).take(i as int), n as int) == Some(d0),
                dividends@.len() == d0.len() + k,
            decreases row@.len() - k,
        {
            proof {
                assert(row@.take(k + 1).drop_last() =~= row@.take(k as int));
                assert(rows_view(bonds@)[i as int][k as int].0 <= n);
            }
            if i >= dividends.len() {
                proof {
                    assert(row@.take(k + 1).last() == row@[k as int]);
                    lemma_dividend_none_extends(d0, row@, i as int, k as int + 1);
                    assert(rows_view(bonds@).take(i + 1).last() == bonds@[i as int]@);
                    assert(rows_view(bonds@).take(i + 1).drop_last() =~= rows_view(bonds@).take(i as int));
                    assert(dividend_rows(rows_view(bonds@).take(i + 1), n as int) is None);
                    lemma_dividend_rows_none_extends(rows_view(bonds@), n as int, i as int + 1);
                }
                return Err(Error::ExtrinsicPanicked);
            }
            let (j, value) = row[k];
            let di = dividends[i];
            dividends.insert(j as usize, di.saturating_add(value.saturating_mul(di)));
            k = k + 1;
        }
        proof {
            assert(row@.take(row@.len() as int) =~= row@);
        }
        i = i + 1;
    }
    proof {
        assert(rows_view(bonds@).take(bonds@.len() as int) =~= rows_view(bonds@));
    }
    let ghost d = dividends@;
    let mut zero = true;
    let mut t: usize = 0;
    while t < dividends.len()
        invariant
            t <= dividends@.len(),
            zero == (forall|q: int| 0 <= q < t ==> #[trigger] dividends@[q].bits == 0),
        decreases dividends@.len() - t,
    {
        if dividends[t].bits != 0 {
            zero = false;
        }
        t = t + 1;
    }
    if zero {
        let mut u: usize = 0;
        while u < uids.len()
            invariant
                u <= uids@.len(),
                d.len() >= n,
                n == incentive@.len(),
                forall|q: int| 0 <= q < uids@.len() ==> #[trigger] uids@[q] <= incentive@.len(),
                dividends@ == insert_ones(d, uids@.take(u as int)),
                dividends@.len() == d.len() + u,
            decreases uids@.len() - u,
        {
            proof {
                assert(uids@.take(u + 1).drop_last() =~= uids@.take(u as int));
            }
            dividends.insert(uids[u] as usize, I32F32::one());
            u = u + 1;
        }
        proof {
            assert(uids@.take(uids@.len() as int) =~= uids@);
        }
    }
    proof {
        lemma_dividend_rows_len(rows_view(bonds@), n as int);
        lemma_insert_ones_len(d, uids@);
    }
    inplace_normalize(&mut dividends);
    let mut fixed: Vec<u16> = Vec::new();
    let mut t: usize = 0;
    while t < dividends.len()
        invariant
            t <= dividends@.len(),
            dividends@ == normalized(raw_dividends(d, uids@)),
            dividends@.len() == raw_dividends(d, uids@).len(),
            dividend_rows(rows_view(bonds@), incentive@.len() as int) == Some(d),
            forall|k: int| 0 <= k < raw_dividends(d, uids@).len() ==>
                0 <= #[trigger] proportion_u16(normalized(raw_dividends(d, uids@))[k]) <= u16::MAX,
            fixed@.len() == t,
            forall|k: int| 0 <= k < t ==> #[trigger] fixed@[k] == proportion_u16(dividends@[k]),
        decreases dividends@.len() - t,
    {
        fixed.push(fixed_proportion_to_u16(dividends[t]));
        t = t + 1;
    }
    Ok((fixed, dividends))
}

proof fn lemma_dividend_none_extends(d: Seq<I32F32>, row: Seq<(u16, I32F32)>, i: int, k: int)
    requires
        0 < k <= row.len(),
        dividend_row(d, row.take(k - 1), i) matches Some(p) && !(0 <= i < p.len()),
    ensures
        dividend_row(d, row, i) is None,
    decreases row.len() - k,
{
    assert(row.take(k).drop_last() =~= row.take(k - 1));
    if k == row.len() {
        assert(row.take(k) =~= row);
    } else {
        lemma_dividend_none_prefix(d, row, i, k);
    }
}

proof fn lemma_dividend_none_prefix(d: Seq<I32F32>, row: Seq<(u16, I32F32)>, i: int, k: int)
    requires
        0 < k <= row.len(),
        dividend_row(d, row.take(k), i) is None,
    ensures
        dividend_row(d, row, i) is None,
    decreases row.len() - k,
{
    if k < row.len() {
        assert(row.take(k + 1).drop_last() =~= row.take(k));
        lemma_dividend_none_prefix(d, row, i, k + 1);
    } else {
        assert(row.take(k) =~= row);
    }
}

proof fn lemma_dividend_rows_none_extends(b: Seq<Seq<(u16, I32F32)>>, n: int, k: int)
    requires
        0 < k <= b.len(),
        dividend_rows(b.take(k), n) is None,
    ensures
        dividend_rows(b, n) is None,
    decreases b.len() - k,
{
    if k < b.len() {
        assert(b.take(k + 1).drop_last() =~= b.take(k));
        lemma_dividend_rows_none_extends(b, n, k + 1);
    } else {
        assert(b.take(k) =~= b);
    }
}

proof fn lemma_dividend_rows_len(b: Seq<Seq<(u16, I32F32)>>, n: int)
    requires
        n >= 0,
        columns_within(b, n),
    ensures
        dividend_rows(b, n) matches Some(d) ==> d.len() >= n,
    decreases b.len(),
{
    if b.len() > 0 {
        assert(columns_within(b.drop_last(), n)) by {
            assert forall|i: int, k: int| 0 <= i < b.drop_last().len() && 0 <= k < b.drop_last()[i].len()
                implies #[trigger] b.drop_last()[i][k].0 <= n by {
                assert(b.drop_last()[i] == b[i]);
            }
        }
        lemma_dividend_rows_len(b.drop_last(), n);
        if let Some(d) = dividend_rows(b.drop_last(), n) {
            let last = b.last();
            assert forall|k: int| 0 <= k < last.len() implies #[trigger] last[k].0 <= d.len() by {
                assert(b[b.len() - 1][k].0 <= n);
            }
            lemma_dividend_row_len(d, last, b.len() - 1);
        }
    }
}

/// The bit pattern of `I64F64(ratio) / 100`, for a percentage `ratio`.
pub open spec fn percent_bits(ratio: u16) -> int {
    (ratio * scale64()) / 100
}

/// The bit pattern of `1 - I64F64(ratio) / 100` (saturating).
pub open spec fn complement_bits(ratio: u16) -> int {
    sat128(scale64() - percent_bits(ratio))
}

/// `x * token_emission * ratio` in 64-bit fixed point, each product that does
/// not fit giving zero.
pub open spec fn emission_part(x: I32F32, token_emission: u64, ratio: int) -> I64F64 {
    let xb = x.bits * scale32();
    let tb = token_emission * scale64();
    let p = if mul64_fits(xb, tb) { (xb * tb) / scale64() } else { 0 };
    I64F64 { bits: (if mul64_fits(p, ratio) { (p * ratio) / scale64() } else { 0 }) as i128 }
}

/// `I64F64(r) / 100` for a percentage `r`.
fn percent_fraction(r: u16) -> (f: I64F64)
    ensures
        f.bits == percent_bits(r),
{
    let ghost x = r as int;
    proof {
        assert(((x * scale64()) * scale64()) / (100 * scale64()) == (x * scale64()) / 100) by (nonlinear_arith)
            requires 0 <= x <= u16::MAX, scale64() > 0;
        assert(0 <= (x * scale64()) / 100 <= u16::MAX * scale64()) by (nonlinear_arith)
            requires 0 <= x <= u16::MAX, scale64() > 0;
    }
    match I64F64::from_u64(r as u64).checked_div(I64F64::from_u64(100)) {
        Some(q) => q,
        None => I64F64::zero(),
    }
}

/// `x * token_emission * ratio`, each product that does not fit giving zero.
fn emission_of(x: I32F32, token_emission: u64, ratio: I64F64) -> (r: I64F64)
    requires
        token_emission <= i64::MAX,
    ensures
        r == emission_part(x, token_emission, ratio.bits as int),
{
    let p = match I64F64::from_i32f32(x).checked_mul(I64F64::from_u64(token_emission)) {
        Some(v) => v,
        None => I64F64::zero(),
    };
    match p.checked_mul(ratio) {
        Some(v) => v,
        None => I64F64::zero(),
    }
}

/// The incentive and dividend emission of each module: its share times the
/// token emission times the incentive ratio, or its complement, in percent.
pub fn calculate_emission_ratios(incentive: &[I32F32], dividends: &[I32F32], token_emission: u64, incentive_ratio: u16)
    -> (r: (Vec<I64F64>, Vec<I64F64>))
    requires
        token_emission <= i64::MAX,
    ensures
        r.0@ == incentive@.map_values(|x: I32F32| emission_part(x, token_emission, percent_bits(incentive_ratio))),
        r.1@ == dividends@.map_values(|x: I32F32| emission_part(x, token_emission, complement_bits(incentive_ratio))),
{
    let inc_ratio = percent_fraction(incentive_ratio);
    let one = I64F64 { bits: 0x1_0000_0000_0000_0000 };
    let div_ratio = one.saturating_sub(inc_ratio);
    let mut inc: Vec<I64F64> = Vec::new();
    let mut i: usize = 0;
    while i < incentive.len()
        invariant
            i <= incentive@.len(),
            token_emission <= i64::MAX,
            inc_ratio.bits == percent_bits(incentive_ratio),
            inc@ =~= incentive@.take(i as int).map_values(|x: I32F32| emission_part(x, token_emission, percent_bits(incentive_ratio))),
        decreases incentive@.len() - i,
    {
        inc.push(emission_of(incentive[i], token_emission, inc_ratio));
        i = i + 1;
    }
    let mut div: Vec<I64F64> = Vec::new();
    let mut i: usize = 0;
    while i < dividends.len()
        invariant
            i <= dividends@.len(),
            token_emission <= i64::MAX,
            div_ratio.bits == complement_bits(incentive_ratio),
            div@ =~= dividends@.take(i as int).map_values(|x: I32F32| emission_part(x, token_emission, complement_bits(incentive_ratio))),
        decreases dividends@.len() - i,
    {
        div.push(emission_of(dividends[i], token_emission, div_ratio));
        i = i + 1;
    }
    proof {
        assert(incentive@.take(incentive@.len() as int) =~= incentive@);
        assert(dividends@.take(dividends@.len() as int) =~= dividends@);
    }
    (inc, div)
}

/// Blocks since module `uid` last set weights, zero when it has no entry.
pub fn get_current_weight_age(last_update: &[u64], current_block: u64, uid: u16) -> (r: u64)
    ensures
        r == (if (uid as int) < last_update@.len() {
            if current_block >= last_update@[uid as int] { current_block - last_update@[uid as int] } else { 0 }
        } else {
            0
        }),
{
    if (uid as usize) < last_update.len() {
        current_block.saturating_sub(last_update[uid as usize])
    } else {
        0
    }
}

/// `stake * (w / 65535) * total_stake` in 64-bit fixed point, each product
/// that does not fit giving zero.
pub open spec fn weight_stake_bits(stake: int, w: u16, total_stake: u64) -> int {
    let wf = (w * scale64()) / 65535;
    let a = if mul64_fits(stake, wf) { (stake * wf) / scale64() } else { 0 };
    let t = total_stake * scale64();
    if mul64_fits(a, t) { (a * t) / scale64() } else { 0 }
}

/// Whether weight number `k` of a row is kept: within the weight cap (the
/// position taken modulo `2^16`), on an existing module, and backed by more
/// than the minimum weight stake.
pub open spec fn weight_entry_valid(k: int, e: (u16, u16), max_allowed: u16, n: u16, stake: int, total_stake: u64,
    min_weight_stake: int) -> bool {
    (k % 0x10000) <= max_allowed && e.0 < n && weight_stake_bits(stake, e.1, total_stake) > min_weight_stake
}

/// The number of leading weights of `row` from position `k` on that are kept.
pub open spec fn valid_prefix(row: Seq<(u16, u16)>, k: int, max_allowed: u16, n: u16, stake: int, total_stake: u64,
    min_weight_stake: int) -> int
    decreases row.len() - k,
{
    if k < 0 || k >= row.len() {
        row.len() as int
    } else if !weight_entry_valid(k, row[k], max_allowed, n, stake, total_stake, min_weight_stake) {
        k
    } else {
        valid_prefix(row, k + 1, max_allowed, n, stake, total_stake, min_weight_stake)
    }
}

/// What the weight check makes of a module's weights: whether they change,
/// and the weights kept (none when they are too old or too few, else the
/// leading valid ones).
pub open spec fn checked_weights(age: u64, max_weight_age: u64, min_allowed: u16, max_allowed: u16, row: Seq<(u16, u16)>,
    stake: int, total_stake: u64, min_weight_stake: int, n: u16) -> (bool, Seq<(u16, u16)>) {
    if age > max_weight_age || row.len() < min_allowed {
        (true, Seq::empty())
    } else {
        let m = valid_prefix(row, 0, max_allowed, n, stake, total_stake, min_weight_stake);
        (m < row.len(), row.take(m))
    }
}

proof fn lemma_valid_prefix_bounds(row: Seq<(u16, u16)>, k: int, max_allowed: u16, n: u16, stake: int, total_stake: u64,
    min_weight_stake: int)
    requires
        0 <= k <= row.len(),
    ensures
        k <= valid_prefix(row, k, max_allowed, n, stake, total_stake, min_weight_stake) <= row.len(),
        forall|t: int| k <= t < valid_prefix(row, k, max_allowed, n, stake, total_stake, min_weight_stake) ==>
            #[trigger] weight_entry_valid(t, row[t], max_allowed, n, stake, total_stake, min_weight_stake),
    decreases row.len() - k,
{
    if k < row.len() && weight_entry_valid(k, row[k], max_allowed, n, stake, total_stake, min_weight_stake) {
        lemma_valid_prefix_bounds(row, k + 1, max_allowed, n, stake, total_stake, min_weight_stake);
    }
}

/// Checks the weights module `uid` set: too old or too few are all dropped;
/// otherwise they are kept up to the first one past the weight cap, on a
/// missing module or without enough stake behind it. Returns whether they
/// changed and the weights kept.
pub fn check_weight_validity(weight_age: u64, max_weight_age: u64, min_allowed_weights: u16, max_allowed_weights: u16,
    weights_i: &[(u16, u16)], stake_f64: &[I64F64], total_stake: u64, min_weight_stake: I64F64, n: u16, uid: u16)
    -> (r: (bool, Vec<(u16, u16)>))
    requires
        total_stake <= i64::MAX,
    ensures
        (r.0, r.1@) == checked_weights(weight_age, max_weight_age, min_allowed_weights, max_allowed_weights, weights_i@,
            if (uid as int) < stake_f64@.len() { stake_f64@[uid as int].bits as int } else { 0 }, total_stake,
            min_weight_stake.bits as int, n),
{
    let mut valid: Vec<(u16, u16)> = Vec::new();
    if weight_age > max_weight_age || weights_i.len() < min_allowed_weights as usize {
        return (true, valid);
    }
    let stake_i = if (uid as usize) < stake_f64.len() { stake_f64[uid as usize] } else { I64F64::zero() };
    let ghost sb = stake_i.bits as int;
    let total = I64F64::from_u64(total_stake);
    let max16 = I64F64::from_u64(65535);
    proof {
        lemma_valid_prefix_bounds(weights_i@, 0, max_allowed_weights, n, sb, total_stake, min_weight_stake.bits as int);
    }
    let mut pos: usize = 0;
    while pos < weights_i.len()
        invariant
            pos <= weights_i@.len(),
            valid@ == weights_i@.take(pos as int),
            !(weight_age > max_weight_age || weights_i@.len() < min_allowed_weights),
            total.bits == total_stake * scale64(),
            max16.bits == 65535 * scale64(),
            stake_i.bits == sb,
            sb == (if (uid as int) < stake_f64@.len() { stake_f64@[uid as int].bits as int } else { 0 }),
            forall|t: int| 0 <= t < pos ==> #[trigger] weight_entry_valid(t, weights_i@[t], max_allowed_weights, n, sb,
                total_stake, min_weight_stake.bits as int),
        decreases weights_i@.len() - pos,
    {
        let (uid_j, w) = weights_i[pos];
        let ghost wb = w as int;
        proof {
            assert(((wb * scale64()) * scale64()) / (65535 * scale64()) == (wb * scale64()) / 65535) by (nonlinear_arith)
                requires 0 <= wb <= u16::MAX, scale64() > 0;
            assert(0 <= (wb * scale64()) / 65535 <= scale64()) by (nonlinear_arith)
                requires 0 <= wb <= u16::MAX, scale64() > 0;
            assert((pos as u16) as int == (pos as int) % 0x10000) by (bit_vector);
        }
        let over_cap = (pos as u16) > max_allowed_weights || uid_j >= n;
        let wf = match I64F64::from_u64(w as u64).checked_div(max16) {
            Some(v) => v,
            None => I64F64::zero(),
        };
        let a = match stake_i.checked_mul(wf) {
            Some(v) => v,
            None => I64F64::zero(),
        };
        let weight_stake = match a.checked_mul(total) {
            Some(v) => v,
            None => I64F64::zero(),
        };
        if over_cap || !(weight_stake.bits > min_weight_stake.bits) {
            proof {
                assert(!weight_entry_valid(pos as int, weights_i@[pos as int], max_allowed_weights, n, sb, total_stake,
                    min_weight_stake.bits as int));
                lemma_valid_prefix_stops(weights_i@, pos as int, max_allowed_weights, n, sb, total_stake, min_weight_stake.bits as int);
            }
            return (true, valid);
        }
        valid.push((uid_j, w));
        proof {
            assert(weights_i@.take(pos + 1) =~= weights_i@.take(pos as int).push(weights_i@[pos as int]));
        }
        pos = pos + 1;
    }
    proof {
        lemma_valid_prefix_full(weights_i@, max_allowed_weights, n, sb, total_stake, min_weight_stake.bits as int);
        assert(weights_i@.take(weights_i@.len() as int) =~= weights_i@);
    }
    (false, valid)
}

/// The weights of a row as fixed-point fractions of `65535`.
pub open spec fn fixed_row(row: Seq<(u16, u16)>) -> Seq<(u16, I32F32)> {
    row.map_values(|e: (u16, u16)| (e.0, I32F32 { bits: proportion_bits(e.1) as i64 }))
}

/// Blocks since module `u` last set weights, zero when it has no entry.
pub open spec fn weight_age(last_update: Seq<u64>, current_block: u64, u: int) -> u64 {
    if 0 <= u < last_update.len() {
        if current_block >= last_update[u] { (current_block - last_update[u]) as u64 } else { 0 }
    } else {
        0
    }
}

/// The 64-bit stake share of module `u`, zero when it has none.
pub open spec fn stake64_at(stake_f64: Seq<I64F64>, u: int) -> int {
    if 0 <= u < stake_f64.len() { stake_f64[u].bits as int } else { 0 }
}

/// What the weight limits of a subnet are.
#[derive(Clone, Copy, Debug, PartialEq, Eq, Structural)]
pub struct WeightLimits {
    pub max_weight_age: u64,
    pub min_allowed_weights: u16,
    pub max_allowed_weights: u16,
    pub min_weight_stake: u64,
}

/// The weights module `u` keeps after the weight check.
pub open spec fn kept_weights(weights: Seq<Vec<(u16, u16)>>, last_update: Seq<u64>, u: int, current_block: u64,
    limits: WeightLimits, stake_f64: Seq<I64F64>, total_stake: u64, n: u16) -> Seq<(u16, u16)> {
    checked_weights(weight_age(last_update, current_block, u), limits.max_weight_age, limits.min_allowed_weights,
        limits.max_allowed_weights, weights[u]@, stake64_at(stake_f64, u), total_stake,
        limits.min_weight_stake * scale64(), n).1
}

/// The weights module `u` keeps, as fixed-point fractions, without its weight on itself.
pub open spec fn consensus_row(weights: Seq<Vec<(u16, u16)>>, last_update: Seq<u64>, u: int, current_block: u64,
    limits: WeightLimits, stake_f64: Seq<I64F64>, total_stake: u64, n: u16) -> Seq<(u16, I32F32)> {
    without_column(fixed_row(kept_weights(weights, last_update, u, current_block, limits, stake_f64, total_stake, n)), u)
}

/// Checks the weights of every module and returns the weights kept, and the
/// same as fixed-point fractions without self-weights, each row normalized.
pub fn process_weights(weights: &[Vec<(u16, u16)>], last_update: &[u64], n: u16, current_block: u64, limits: WeightLimits,
    stake_f64: &[I64F64], total_stake: u64) -> (r: (Vec<Vec<(u16, u16)>>, Vec<Vec<(u16, I32F32)>>))
    requires
        weights@.len() == n,
        limits.min_weight_stake <= i64::MAX,
        total_stake <= i64::MAX,
        forall|u: int| 0 <= u < n ==> row_sum_fits(#[trigger] consensus_row(weights@, last_update@, u, current_block, limits,
            stake_f64@, total_stake, n)),
    ensures
        r.0@.len() == n,
        forall|u: int| 0 <= u < n ==> (#[trigger] r.0@[u])@ == kept_weights(weights@, last_update@, u, current_block, limits,
            stake_f64@, total_stake, n),
        r.1@.len() == n,
        rows_view(r.0@) == Seq::new(n as nat, |u: int| kept_weights(weights@, last_update@, u, current_block, limits,
            stake_f64@, total_stake, n)),
        rows_view(r.1@) == Seq::new(n as nat, |u: int| {
            let row = consensus_row(weights@, last_update@, u, current_block, limits, stake_f64@, total_stake, n);
            row_divided(row, row_sum_bits(row))
        }),
        forall|u: int| 0 <= u < n ==> (#[trigger] r.1@[u])@ == {
            let row = consensus_row(weights@, last_update@, u, current_block, limits, stake_f64@, total_stake, n);
            row_divided(row, row_sum_bits(row))
        },
{
    let min_ws = I64F64::from_u64(limits.min_weight_stake);
    let mut kept: Vec<Vec<(u16, u16)>> = Vec::new();
    let mut fixed: Vec<Vec<(u16, I32F32)>> = Vec::new();
    let mut u: usize = 0;
    while u < weights.len()
        invariant
            u <= weights@.len(),
            weights@.len() == n,
            total_stake <= i64::MAX,
            min_ws.bits == limits.min_weight_stake * scale64(),
            kept@.len() == u,
            fixed@.len() == u,
            forall|t: int| 0 <= t < u ==> (#[trigger] kept@[t])@ == kept_weights(weights@, last_update@, t, current_block,
                limits, stake_f64@, total_stake, n),
            forall|t: int| 0 <= t < u ==> (#[trigger] fixed@[t])@ == fixed_row(kept_weights(weights@, last_update@, t,
                current_block, limits, stake_f64@, total_stake, n)),
        decreases weights@.len() - u,
    {
        let age = get_current_weight_age(last_update, current_block, u as u16);
        let (_, valid) = check_weight_validity(age, limits.max_weight_age, limits.min_allowed_weights,
            limits.max_allowed_weights, weights[u].as_slice(), stake_f64, total_stake, min_ws, n, u as u16);
        let mut row: Vec<(u16, I32F32)> = Vec::new();
        let mut k: usize = 0;
        while k < valid.len()
            invariant
                k <= valid@.len(),
                row@ =~= fixed_row(valid@.take(k as int)),
            decreases valid@.len() - k,
        {
            let (j, w) = valid[k];
            row.push((j, u16_proportion_to_fixed(w)));
            k = k + 1;
        }
        proof {
            assert(valid@.take(valid@.len() as int) =~= valid@);
        }
        kept.push(valid);
        fixed.push(row);
        u = u + 1;
    }
    let mut masked = mask_diag_sparse(fixed.as_slice());
    proof {
        assert forall|i: int| 0 <= i < masked@.len() implies row_sum_fits(#[trigger] masked@[i]@) by {
            assert(masked@[i]@ == consensus_row(weights@, last_update@, i, current_block, limits, stake_f64@, total_stake, n));
        }
    }
    inplace_row_normalize_sparse(&mut masked);
    proof {
        assert(rows_view(kept@) =~= Seq::new(n as nat, |u: int| kept_weights(weights@, last_update@, u, current_block, limits,
            stake_f64@, total_stake, n)));
        assert(rows_view(masked@) =~= Seq::new(n as nat, |u: int| {
            let row = consensus_row(weights@, last_update@, u, current_block, limits, stake_f64@, total_stake, n);
            row_divided(row, row_sum_bits(row))
        }));
    }
    (kept, masked)
}

proof fn lemma_valid_prefix_stops(row: Seq<(u16, u16)>, k: int, max_allowed: u16, n: u16, stake: int, total_stake: u64,
    min_weight_stake: int)
    requires
        0 <= k < row.len(),
        forall|t: int| 0 <= t < k ==> #[trigger] weight_entry_valid(t, row[t], max_allowed, n, stake, total_stake, min_weight_stake),
        !weight_entry_valid(k, row[k], max_allowed, n, stake, total_stake, min_weight_stake),
    ensures
        valid_prefix(row, 0, max_allowed, n, stake, total_stake, min_weight_stake) == k,
{
    lemma_valid_prefix_from(row, 0, k, max_allowed, n, stake, total_stake, min_weight_stake);
}

proof fn lemma_valid_prefix_from(row: Seq<(u16, u16)>, j: int, k: int, max_allowed: u16, n: u16, stake: int,
    total_stake: u64, min_weight_stake: int)
    requires
        0 <= j <= k < row.len(),
        forall|t: int| 0 <= t < k ==> #[trigger] weight_entry_valid(t, row[t], max_allowed, n, stake, total_stake, min_weight_stake),
        !weight_entry_valid(k, row[k], max_allowed, n, stake, total_stake, min_weight_stake),
    ensures
        valid_prefix(row, j, max_allowed, n, stake, total_stake, min_weight_stake) == k,
    decreases k - j,
{
    if j < k {
        assert(weight_entry_valid(j, row[j], max_allowed, n, stake, total_stake, min_weight_stake));
        lemma_valid_prefix_from(row, j + 1, k, max_allowed, n, stake, total_stake, min_weight_stake);
    }
}

proof fn lemma_valid_prefix_full(row: Seq<(u16, u16)>, max_allowed: u16, n: u16, stake: int, total_stake: u64,
    min_weight_stake: int)
    requires
        forall|t: int| 0 <= t < row.len() ==> #[trigger] weight_entry_valid(t, row[t], max_allowed, n, stake, total_stake, min_weight_stake),
    ensures
        valid_prefix(row, 0, max_allowed, n, stake, total_stake, min_weight_stake) == row.len(),
{
    lemma_valid_prefix_all(row, 0, max_allowed, n, stake, total_stake, min_weight_stake);
}

proof fn lemma_valid_prefix_all(row: Seq<(u16, u16)>, j: int, max_allowed: u16, n: u16, stake: int, total_stake: u64,
    min_weight_stake: int)
    requires
        0 <= j <= row.len(),
        forall|t: int| 0 <= t < row.len() ==> #[trigger] weight_entry_valid(t, row[t], max_allowed, n, stake, total_stake, min_weight_stake),
    ensures
        valid_prefix(row, j, max_allowed, n, stake, total_stake, min_weight_stake) == row.len(),
    decreases row.len() - j,
{
    if j < row.len() {
        assert(weight_entry_valid(j, row[j], max_allowed, n, stake, total_stake, min_weight_stake));
        lemma_valid_prefix_all(row, j + 1, max_allowed, n, stake, total_stake, min_weight_stake);
    }
}

} // verus!
