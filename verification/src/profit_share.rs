//! Profit shares: a registered key splits what it earns among other keys, by
//! shares that are scaled so that they add up to `u16::MAX`.
use vstd::prelude::*;
use crate::errors::Error;
use crate::state::Subspace;
use std::collections::HashMap;

verus! {

broadcast use vstd::std_specs::hash::group_hash_axioms;

/// The sum of a sequence of shares.
pub open spec fn share_sum(s: Seq<u16>) -> int
    decreases s.len(),
{
    if s.len() == 0 { 0 } else { share_sum(s.drop_last()) + s.last() }
}

/// The sum of a sequence of integers.
pub open spec fn int_sum(s: Seq<int>) -> int
    decreases s.len(),
{
    if s.len() == 0 { 0 } else { int_sum(s.drop_last()) + s.last() }
}

/// Each share scaled to `u16::MAX` over `total`, rounded down.
pub open spec fn scaled_shares(shares: Seq<u16>, total: int) -> Seq<int> {
    Seq::new(shares.len(), |j: int| shares[j] * 65535 / total)
}

/// Share `j` once the rounding remainder `diff` is handed out one by one,
/// round-robin over the first `m` shares.
pub open spec fn with_remainder(scaled: Seq<int>, diff: int, m: int, j: int) -> int {
    scaled[j] + (if j < m { diff / m + (if j < diff % m { 1int } else { 0int }) } else { 0int })
}

/// How many shares the remainder goes round: the number of shares as a
/// `u16` (that is, modulo 65536).
pub open spec fn round_len(n: nat) -> int {
    (n as int) % 65536
}

/// What is left of `u16::MAX` once each share is scaled and rounded down.
pub open spec fn share_remainder(shares: Seq<u16>) -> int {
    65535 - int_sum(scaled_shares(shares, share_sum(shares)))
}

/// The shares scaled so that they add up to `u16::MAX`: each rounded down,
/// then the remainder handed out round-robin from the first.
pub open spec fn adjusted_shares(shares: Seq<u16>) -> Seq<u16> {
    let scaled = scaled_shares(shares, share_sum(shares));
    let diff = 65535 - int_sum(scaled);
    Seq::new(shares.len(), |j: int| with_remainder(scaled, diff, round_len(shares.len()), j) as u16)
}

/// The error with which setting profit shares `shares` for `keys` is
/// refused, if any.
pub open spec fn profit_share_error(registered: bool, keys: Seq<u64>, shares: Seq<u16>) -> Option<Error> {
    if !registered {
        Some(Error::NotRegistered)
    } else if keys.len() == 0 {
        Some(Error::EmptyKeys)
    } else if keys.len() != shares.len() {
        Some(Error::DifferentLengths)
    } else if share_sum(shares) == 0 {
        Some(Error::InvalidShares)
    } else {
        None
    }
}

/// The keys paired with their adjusted shares.
pub open spec fn share_tuples(keys: Seq<u64>, shares: Seq<u16>) -> Seq<(u64, u16)> {
    let adjusted = adjusted_shares(shares);
    Seq::new(keys.len(), |j: int| (keys[j], adjusted[j]))
}

proof fn lemma_share_sum_bound(s: Seq<u16>)
    ensures
        0 <= share_sum(s) <= 65535 * s.len(),
    decreases s.len(),
{
    if s.len() > 0 {
        lemma_share_sum_bound(s.drop_last());
    }
}

proof fn lemma_int_sum_nonneg_elems(s: Seq<int>)
    requires
        forall|j: int| 0 <= j < s.len() ==> #[trigger] s[j] >= 0,
    ensures
        int_sum(s) >= 0,
        forall|j: int| 0 <= j < s.len() ==> #[trigger] s[j] <= int_sum(s),
    decreases s.len(),
{
    if s.len() > 0 {
        let t = s.drop_last();
        assert forall|j: int| 0 <= j < t.len() implies #[trigger] t[j] >= 0 by {
            assert(t[j] == s[j]);
        }
        lemma_int_sum_nonneg_elems(t);
        assert forall|j: int| 0 <= j < s.len() implies #[trigger] s[j] <= int_sum(s) by {
            if j < s.len() - 1 {
                assert(t[j] == s[j]);
            }
        }
    }
}

/// A prefix of the shares sums to no more than all of them.
proof fn lemma_share_prefix_le(s: Seq<u16>, k: int)
    requires
        0 <= k <= s.len(),
    ensures
        share_sum(s.take(k)) <= share_sum(s),
    decreases s.len() - k,
{
    if k < s.len() {
        lemma_share_prefix_le(s, k + 1);
        assert(s.take(k + 1).drop_last() =~= s.take(k));
    } else {
        assert(s.take(k) =~= s);
    }
}

/// Rounded-down scaled shares over a prefix weigh no more than the prefix.
proof fn lemma_scaled_prefix(shares: Seq<u16>, total: int, k: int)
    requires
        total > 0,
        0 <= k <= shares.len(),
    ensures
        int_sum(scaled_shares(shares, total).take(k)) * total <= 65535 * share_sum(shares.take(k)),
        int_sum(scaled_shares(shares, total).take(k)) >= 0,
    decreases k,
{
    let sc = scaled_shares(shares, total);
    if k > 0 {
        lemma_scaled_prefix(shares, total, k - 1);
        assert(sc.take(k).drop_last() =~= sc.take(k - 1));
        assert(shares.take(k).drop_last() =~= shares.take(k - 1));
        let a = shares[k - 1] as int;
        let f = a * 65535 / total;
        assert(f * total <= a * 65535 && f >= 0) by (nonlinear_arith)
            requires total > 0, a >= 0, f == a * 65535 / total;
        let p = int_sum(sc.take(k - 1));
        let q = share_sum(shares.take(k - 1));
        assert((p + f) * total == p * total + f * total) by (nonlinear_arith);
        assert(65535 * (q + a) == 65535 * q + 65535 * a) by (nonlinear_arith);
    }
}

proof fn lemma_scaled_sum(shares: Seq<u16>)
    requires
        share_sum(shares) > 0,
    ensures
        0 <= int_sum(scaled_shares(shares, share_sum(shares))) <= 65535,
        forall|j: int| 0 <= j < shares.len() ==> 0 <= #[trigger] scaled_shares(shares, share_sum(shares))[j]
            <= int_sum(scaled_shares(shares, share_sum(shares))),
{
    let total = share_sum(shares);
    let sc = scaled_shares(shares, total);
    lemma_scaled_prefix(shares, total, shares.len() as int);
    assert(sc.take(shares.len() as int) =~= sc);
    assert(shares.take(shares.len() as int) =~= shares);
    let s = int_sum(sc);
    assert(s <= 65535) by (nonlinear_arith)
        requires s * total <= 65535 * total, total > 0;
    assert forall|j: int| 0 <= j < sc.len() implies #[trigger] sc[j] >= 0 by {
        let a = shares[j] as int;
        assert(a * 65535 / total >= 0) by (nonlinear_arith)
            requires a >= 0, total > 0;
    }
    lemma_int_sum_nonneg_elems(sc);
}

/// Handing out one more unit of the remainder moves the round-robin on.
proof fn lemma_round_robin_step(i: int, len: int)
    requires
        len >= 1,
        i >= 0,
    ensures
        i % len + 1 < len ==> (i + 1) / len == i / len && (i + 1) % len == i % len + 1,
        i % len + 1 == len ==> (i + 1) / len == i / len + 1 && (i + 1) % len == 0,
        0 <= i % len < len,
        i / len >= 0,
        i / len + i % len <= i,
{
    vstd::arithmetic::div_mod::lemma_fundamental_div_mod(i, len);
    vstd::arithmetic::div_mod::lemma_mod_bound(i, len);
    let q = i / len;
    let r = i % len;
    assert(q >= 0) by (nonlinear_arith)
        requires i == len * q + r, 0 <= r < len, len >= 1, i >= 0;
    assert(q + r <= i) by (nonlinear_arith)
        requires i == len * q + r, q >= 0, r >= 0, len >= 1;
    if r + 1 < len {
        assert(i + 1 == q * len + (r + 1)) by (nonlinear_arith)
            requires i == len * q + r;
        vstd::arithmetic::div_mod::lemma_fundamental_div_mod_converse(i + 1, len, q, r + 1);
    } else {
        assert(i + 1 == (q + 1) * len + 0) by (nonlinear_arith)
            requires i == len * q + r, r + 1 == len;
        vstd::arithmetic::div_mod::lemma_fundamental_div_mod_converse(i + 1, len, q + 1, 0);
    }
}

/// The profit shares of each key that has set them.
pub struct ProfitShares {
    pub shares: HashMap<u64, Vec<(u64, u16)>>,
}

impl ProfitShares {
    /// The profit shares of each key, by key.
    pub closed spec fn view_map(&self) -> Map<u64, Seq<(u64, u16)>> {
        Map::new(|k: u64| self.shares@.contains_key(k), |k: u64| self.shares@[k]@)
    }

    /// No key has set profit shares.
    pub fn new() -> (r: ProfitShares)
        ensures
            r.view_map() == Map::<u64, Seq<(u64, u16)>>::empty(),
    {
        let r = ProfitShares { shares: HashMap::new() };
        proof {
            assert(r.view_map() =~= Map::<u64, Seq<(u64, u16)>>::empty());
        }
        r
    }

    /// The profit shares of `key`, none when it has set none.
    pub fn get_profit_shares(&self, key: u64) -> (r: Vec<(u64, u16)>)
        ensures
            r@ == (if self.view_map().contains_key(key) { self.view_map()[key] } else { Seq::empty() }),
    {
        match self.shares.get(&key) {
            Some(v) => {
                let mut r: Vec<(u64, u16)> = Vec::new();
                let mut j: usize = 0;
                while j < v.len()
                    invariant
                        j <= v@.len(),
                        r@ == v@.take(j as int),
                    decreases v@.len() - j,
                {
                    r.push(v[j]);
                    proof {
                        assert(v@.take(j + 1) =~= v@.take(j as int).push(v@[j as int]));
                    }
                    j = j + 1;
                }
                proof {
                    assert(v@.take(v@.len() as int) =~= v@);
                }
                r
            },
            None => Vec::new(),
        }
    }

    /// `key`, which must be registered on some subnet, splits its profit
    /// among `keys` by `shares`: the shares are scaled so that they add up
    /// to `u16::MAX` (see [`adjusted_shares`]) and replace what `key` had.
    pub fn do_add_profit_shares(&mut self, pallet: &Subspace, key: u64, keys: Vec<u64>, shares: Vec<u16>)
        -> (r: Result<(), Error>)
        requires
            share_sum(shares@) <= u32::MAX,
            profit_share_error(pallet.spec_is_registered(None, key), keys@, shares@) is None
                && round_len(shares@.len()) == 0 ==> share_remainder(shares@) == 0,
        ensures
            r == crate::params::as_result(profit_share_error(pallet.spec_is_registered(None, key), keys@, shares@)),
            r is Err ==> final(self).view_map() == old(self).view_map(),
            r is Ok ==> final(self).view_map() == old(self).view_map().insert(key, share_tuples(keys@, shares@)),
    {
        if !pallet.is_registered(None, key) {
            return Err(Error::NotRegistered);
        }
        if keys.len() == 0 {
            return Err(Error::EmptyKeys);
        }
        if keys.len() != shares.len() {
            return Err(Error::DifferentLengths);
        }
        let len = shares.len();
        let mut total: u32 = 0;
        let mut i: usize = 0;
        while i < len
            invariant
                len == shares@.len(),
                share_sum(shares@) <= u32::MAX,
                i <= len,
                total == share_sum(shares@.take(i as int)),
            decreases len - i,
        {
            proof {
                assert(shares@.take(i + 1).drop_last() =~= shares@.take(i as int));
                lemma_share_prefix_le(shares@, i + 1);
            }
            total = total + shares[i] as u32;
            i = i + 1;
        }
        proof {
            assert(shares@.take(len as int) =~= shares@);
        }
        if total == 0 {
            return Err(Error::InvalidShares);
        }
        let ghost t = total as int;
        let ghost sc = scaled_shares(shares@, t);
        proof {
            lemma_scaled_sum(shares@);
        }
        let mut adjusted: Vec<u16> = Vec::new();
        let mut scaled_total: u16 = 0;
        let mut i: usize = 0;
        while i < len
            invariant
                len == shares@.len(),
                t == total,
                t == share_sum(shares@),
                t > 0,
                sc == scaled_shares(shares@, t),
                0 <= int_sum(sc) <= 65535,
                forall|j: int| 0 <= j < len ==> 0 <= #[trigger] sc[j] <= int_sum(sc),
                i <= len,
                adjusted@.len() == i,
                forall|j: int| 0 <= j < i ==> #[trigger] adjusted@[j] == sc[j],
                scaled_total == int_sum(sc.take(i as int)),
            decreases len - i,
        {
            proof {
                assert(sc.take(i + 1).drop_last() =~= sc.take(i as int));
                lemma_scaled_prefix(shares@, t, i + 1);
                assert(int_sum(sc.take(i + 1)) <= int_sum(sc)) by {
                    lemma_scaled_prefix(shares@, t, len as int);
                    lemma_prefix_le(sc, i + 1);
                }
                let a = shares@[i as int] as int;
                assert(a <= t) by {
                    lemma_share_le_sum(shares@, i as int);
                }
                assert(a * 65535 / t <= 65535) by (nonlinear_arith)
                    requires 0 <= a <= t, t > 0;
            }
            let v = ((shares[i] as u64) * 65535 / (total as u64)) as u16;
            adjusted.push(v);
            scaled_total = scaled_total + v;
            i = i + 1;
        }
        proof {
            assert(sc.take(len as int) =~= sc);
        }
        let diff: u16 = 65535 - scaled_total;
        let ghost d = diff as int;
        let m: u16 = len as u16;
        proof {
            assert(m as int == round_len(len as nat)) by (bit_vector)
                requires m == len as u16;
        }
        let mut i: u16 = 0;
        while i < diff
            invariant
                len == shares@.len(),
                1 <= len,
                m as int == round_len(len as nat),
                m as int <= len,
                sc == scaled_shares(shares@, t),
                sc.len() == len,
                d == diff,
                d == 65535 - int_sum(sc),
                m == 0 ==> d == 0,
                forall|j: int| 0 <= j < len ==> 0 <= #[trigger] sc[j] <= int_sum(sc),
                i <= diff,
                adjusted@.len() == len,
                forall|j: int| 0 <= j < len ==> #[trigger] adjusted@[j] == sc[j] + (if j < m {
                    (i as int) / (m as int) + (if j < (i as int) % (m as int) { 1int } else { 0int }) } else { 0int }),
            decreases diff - i,
        {
            let idx = (i % m) as usize;
            proof {
                lemma_round_robin_step(i as int, m as int);
                let c = (i as int) / (m as int) + (if (idx as int) < (i as int) % (m as int) { 1int } else { 0int });
                assert(c == (i as int) / (m as int));
                assert(sc[idx as int] + c + 1 <= 65535);
            }
            let cur = adjusted[idx];
            adjusted.set(idx, cur + 1);
            proof {
                lemma_round_robin_step(i as int, m as int);
                assert forall|j: int| 0 <= j < len implies #[trigger] adjusted@[j] == sc[j] + (if j < m {
                    (i as int + 1) / (m as int) + (if j < (i as int + 1) % (m as int) { 1int } else { 0int }) } else { 0int }) by {
                }
            }
            i = i + 1;
        }
        let mut tuples: Vec<(u64, u16)> = Vec::new();
        let mut j: usize = 0;
        while j < len
            invariant
                len == shares@.len(),
                len == keys@.len(),
                1 <= len,
                sc == scaled_shares(shares@, t),
                t == share_sum(shares@),
                d == 65535 - int_sum(sc),
                adjusted@.len() == len,
                m as int == round_len(len as nat),
                forall|k: int| 0 <= k < len ==> #[trigger] adjusted@[k] == sc[k] + (if k < m {
                    d / (m as int) + (if k < d % (m as int) { 1int } else { 0int }) } else { 0int }),
                j <= len,
                tuples@.len() == j,
                forall|k: int| 0 <= k < j ==> #[trigger] tuples@[k] == share_tuples(keys@, shares@)[k],
            decreases len - j,
        {
            tuples.push((keys[j], adjusted[j]));
            j = j + 1;
        }
        proof {
            assert(tuples@ =~= share_tuples(keys@, shares@));
        }
        self.shares.insert(key, tuples);
        proof {
            assert(self.view_map() =~= old(self).view_map().insert(key, share_tuples(keys@, shares@)));
        }
        Ok(())
    }
}

/// A prefix of non-negative terms sums to no more than the whole.
proof fn lemma_prefix_le(s: Seq<int>, k: int)
    requires
        0 <= k <= s.len(),
        forall|j: int| 0 <= j < s.len() ==> #[trigger] s[j] >= 0,
    ensures
        int_sum(s.take(k)) <= int_sum(s),
    decreases s.len() - k,
{
    if k < s.len() {
        lemma_prefix_le(s, k + 1);
        assert(s.take(k + 1).drop_last() =~= s.take(k));
    } else {
        assert(s.take(k) =~= s);
    }
}

/// Each share is at most the sum.
proof fn lemma_share_le_sum(s: Seq<u16>, j: int)
    requires
        0 <= j < s.len(),
    ensures
        s[j] <= share_sum(s),
    decreases s.len(),
{
    lemma_share_sum_bound(s.drop_last());
    if j < s.len() - 1 {
        lemma_share_le_sum(s.drop_last(), j);
        assert(s.drop_last()[j] == s[j]);
    }
}

/// The profit shares stored for `key`, none if it has none.
pub open spec fn shares_of(profit_shares: ProfitShares, key: u64) -> Seq<(u64, u16)> {
    if profit_shares.view_map().contains_key(key) { profit_shares.view_map()[key] } else { Seq::empty() }
}

/// What `key` hands on of `emission` to each key it shares its profit with:
/// `emission * share / u16::MAX`, rounded down.
pub fn get_profit_share_emissions(profit_shares: &ProfitShares, key: u64, emission: u64) -> (r: Vec<(u64, u64)>)
    requires
        forall|j: int| 0 <= j < shares_of(*profit_shares, key).len()
            ==> emission * #[trigger] shares_of(*profit_shares, key)[j].1 <= u64::MAX,
    ensures
        r@ == {
            let s = shares_of(*profit_shares, key);
            Seq::new(s.len(), |j: int| (s[j].0, (emission * s[j].1 / 65535) as u64))
        },
{
    let shares = profit_shares.get_profit_shares(key);
    let ghost s = shares@;
    let mut r: Vec<(u64, u64)> = Vec::new();
    let mut j: usize = 0;
    while j < shares.len()
        invariant
            s == shares@,
            s == shares_of(*profit_shares, key),
            forall|i: int| 0 <= i < s.len() ==> emission * #[trigger] s[i].1 <= u64::MAX,
            j <= s.len(),
            r@.len() == j,
            forall|k: int| 0 <= k < j ==> #[trigger] r@[k] == (s[k].0, (emission * s[k].1 / 65535) as u64),
        decreases s.len() - j,
    {
        let (k, share) = shares[j];
        proof {
            assert(emission * s[j as int].1 <= u64::MAX);
        }
        r.push((k, emission * share as u64 / 65535));
        j = j + 1;
    }
    proof {
        assert(r@ =~= Seq::new(s.len(), |j: int| (s[j].0, (emission * s[j].1 / 65535) as u64)));
    }
    r
}

/// The remainder handed out round-robin over the first `k` shares.
proof fn lemma_remainder_prefix(sc: Seq<int>, d: int, m: int, k: int)
    requires
        1 <= m <= sc.len(),
        0 <= k <= sc.len(),
        d >= 0,
    ensures
        int_sum(Seq::new(k as nat, |j: int| with_remainder(sc, d, m, j))) == int_sum(sc.take(k))
            + (if k < m { k } else { m }) * (d / m)
            + (if k < m { if k < d % m { k } else { d % m } } else { d % m }),
    decreases k,
{
    vstd::arithmetic::div_mod::lemma_mod_bound(d, m);
    if k > 0 {
        lemma_remainder_prefix(sc, d, m, k - 1);
        assert(Seq::new(k as nat, |j: int| with_remainder(sc, d, m, j)).drop_last()
            =~= Seq::new((k - 1) as nat, |j: int| with_remainder(sc, d, m, j)));
        assert(sc.take(k).drop_last() =~= sc.take(k - 1));
        let q = d / m;
        assert((k - 1) * q + q == k * q) by (nonlinear_arith);
        let f = Seq::new(k as nat, |j: int| with_remainder(sc, d, m, j));
        assert(f.last() == with_remainder(sc, d, m, k - 1));
        assert(sc.take(k).last() == sc[k - 1]);
        assert(int_sum(f) == int_sum(f.drop_last()) + f.last());
        assert(int_sum(sc.take(k)) == int_sum(sc.take(k).drop_last()) + sc.take(k).last());
    } else {
        let q = d / m;
        assert(k * q == 0) by (nonlinear_arith)
            requires k == 0;
        assert(Seq::new(k as nat, |j: int| with_remainder(sc, d, m, j)).len() == 0);
        assert(sc.take(k).len() == 0);
    }
}

/// Profit shares add up to `u16::MAX`: once the remainder is handed out,
/// the adjusted shares sum to the unit (when the remainder has shares to go
/// round, which the pallet requires).
pub proof fn profit_shares_add_up(shares: Seq<u16>)
    requires
        shares.len() > 0,
        share_sum(shares) > 0,
        round_len(shares.len()) == 0 ==> share_remainder(shares) == 0,
    ensures
        int_sum(Seq::new(shares.len(), |j: int| adjusted_shares(shares)[j] as int)) == 65535,
{
    let sc = scaled_shares(shares, share_sum(shares));
    let len = shares.len() as int;
    let m = round_len(shares.len());
    lemma_scaled_sum(shares);
    let d = 65535 - int_sum(sc);
    if m == 0 {
        assert forall|j: int| 0 <= j < len implies 0 <= #[trigger] with_remainder(sc, d, m, j) <= 65535 by {
            assert(sc[j] <= int_sum(sc));
        }
        assert(Seq::new(shares.len(), |j: int| adjusted_shares(shares)[j] as int) =~= sc);
    } else {
        lemma_round_robin_step(d, m);
        assert forall|j: int| 0 <= j < len implies 0 <= #[trigger] with_remainder(sc, d, m, j) <= 65535 by {
            assert(sc[j] <= int_sum(sc));
        }
        assert(Seq::new(shares.len(), |j: int| adjusted_shares(shares)[j] as int)
            =~= Seq::new(len as nat, |j: int| with_remainder(sc, d, m, j)));
        lemma_remainder_prefix(sc, d, m, len);
        assert(sc.take(len) =~= sc);
        vstd::arithmetic::div_mod::lemma_fundamental_div_mod(d, m);
        assert(m * (d / m) == (d / m) * m) by (nonlinear_arith);
    }
}

} // verus!
