//! Paying out a subnet's emission: the ownership of each module's stake and
//! how each module's dividends are shared with the stakers that delegated to it.
use vstd::prelude::*;
use crate::fixed::{I64F64, div64_fits, mul64_fits, scale64, sat128, trunc_div};
use crate::ledger::{get_or_zero, sat_add, sat_sub, sorted_entries, stake_added, stake_from_seq, StakeLedger, StakeModel};
use crate::params::ModuleFees;
use crate::percent::Percent;
use crate::staking::{delegation_fee_of, Holdings};
use crate::state::Subspace;
use crate::treasury::{qualifying_sum, treasury_balances, TreasuryHooks};

verus! {

/// The saturating sum of the stakes in `from`, in 64-bit fixed point.
pub open spec fn from_total(from: Seq<(u64, u64)>) -> int
    decreases from.len(),
{
    if from.len() == 0 { 0 } else { sat128(from_total(from.drop_last()) + from.last().1 * scale64()) }
}

/// The share of each staker in `from` of the stake on `module`; when the
/// stake sums to zero, each keeps its (zero) stake and the module itself is
/// added with zero.
pub open spec fn ownership(from: Seq<(u64, u64)>, module: u64) -> Seq<(u64, I64F64)> {
    let t = from_total(from);
    if t == 0 {
        from.map_values(|e: (u64, u64)| (e.0, I64F64 { bits: (e.1 * scale64()) as i128 })).push((module, I64F64 { bits: 0 }))
    } else {
        from.map_values(|e: (u64, u64)| (e.0, I64F64 {
            bits: (if div64_fits(e.1 * scale64(), t) { trunc_div(e.1 * scale64() * scale64(), t) } else { 0 }) as i128,
        }))
    }
}

/// The stakers on `module` in the stake storage `m`, ordered by staker.
pub open spec fn stakers_on(m: StakeModel, module: u64) -> Seq<(u64, u64)> {
    stake_from_seq(sorted_entries(m.stakes), module)
}

/// Whether every stake in `s` fits in an `i64`.
pub open spec fn stakes_fit(s: Seq<(u64, u64)>) -> bool {
    forall|i: int| 0 <= i < s.len() ==> #[trigger] s[i].1 <= i64::MAX
}

proof fn lemma_from_total_bounds(from: Seq<(u64, u64)>)
    requires
        stakes_fit(from),
    ensures
        0 <= from_total(from) <= i128::MAX,
        forall|i: int| 0 <= i < from.len() ==> #[trigger] from[i].1 * scale64() <= from_total(from),
    decreases from.len(),
{
    if from.len() > 0 {
        let p = from.drop_last();
        assert(stakes_fit(p)) by {
            assert forall|i: int| 0 <= i < p.len() implies #[trigger] p[i].1 <= i64::MAX by {
                assert(p[i] == from[i]);
            }
        }
        lemma_from_total_bounds(p);
        let v = from.last().1 as int;
        assert(v <= i64::MAX);
        assert(0 <= v * scale64() <= i64::MAX * scale64()) by (nonlinear_arith)
            requires 0 <= v <= i64::MAX, scale64() > 0;
        assert forall|i: int| 0 <= i < from.len() implies #[trigger] from[i].1 * scale64() <= from_total(from) by {
            if i < from.len() - 1 {
                assert(from[i] == p[i]);
            }
        }
    }
}

proof fn lemma_ownership_bounds(from: Seq<(u64, u64)>, module: u64)
    requires
        stakes_fit(from),
    ensures
        forall|i: int| 0 <= i < ownership(from, module).len() ==>
            0 <= (#[trigger] ownership(from, module)[i]).1.bits <= scale64(),
{
    lemma_from_total_bounds(from);
    let t = from_total(from);
    let o = ownership(from, module);
    assert forall|i: int| 0 <= i < o.len() implies 0 <= (#[trigger] o[i]).1.bits <= scale64() by {
        if t == 0 {
            if i < from.len() {
                assert(from[i].1 * scale64() <= t);
                assert(0 <= from[i].1 * scale64()) by (nonlinear_arith)
                    requires 0 <= from[i].1, scale64() > 0;
            }
        } else {
            let x = from[i].1 * scale64();
            assert(0 <= x <= t);
            if div64_fits(x, t) {
                assert(trunc_div(x * scale64(), t) == (x * scale64()) / t);
                assert(0 <= (x * scale64()) / t <= scale64()) by (nonlinear_arith)
                    requires 0 <= x <= t, t > 0, scale64() > 0;
            }
        }
    }
}

impl Subspace {
    /// The share of each staker of the stake on `module_key`.
    pub fn get_ownership_ratios(&self, netuid: u16, module_key: u64) -> (r: Vec<(u64, I64F64)>)
        requires
            self.wf(),
            stakes_fit(stakers_on(self.ledger.model(), module_key)),
        ensures
            r@ == ownership(stakers_on(self.ledger.model(), module_key), module_key),
    {
        proof {
            self.ledger.lemma_entries_canonical();
        }
        let from = self.ledger.get_stake_from_vector(module_key);
        let mut total = I64F64::zero();
        let mut own: Vec<(u64, I64F64)> = Vec::new();
        let mut i: usize = 0;
        while i < from.len()
            invariant
                i <= from@.len(),
                stakes_fit(from@),
                total.bits == from_total(from@.take(i as int)),
                own@ =~= from@.take(i as int).map_values(|e: (u64, u64)| (e.0, I64F64 { bits: (e.1 * scale64()) as i128 })),
            decreases from@.len() - i,
        {
            proof {
                assert(from@.take(i + 1).drop_last() =~= from@.take(i as int));
                assert(from@[i as int].1 <= i64::MAX);
            }
            let (k, v) = from[i];
            let o = I64F64::from_u64(v);
            own.push((k, o));
            total = total.saturating_add(o);
            i = i + 1;
        }
        proof {
            assert(from@.take(from@.len() as int) =~= from@);
        }
        if total.bits == 0 {
            own.push((module_key, I64F64::zero()));
            return own;
        }
        let mut ratios: Vec<(u64, I64F64)> = Vec::new();
        let mut i: usize = 0;
        while i < own.len()
            invariant
                i <= own@.len(),
                own@.len() == from@.len(),
                total.bits == from_total(from@),
                total.bits != 0,
                forall|t: int| 0 <= t < own@.len() ==> #[trigger] own@[t] == (from@[t].0, I64F64 { bits: (from@[t].1 * scale64()) as i128 }),
                ratios@.len() == i,
                stakes_fit(from@),
                forall|t: int| 0 <= t < i ==> #[trigger] ratios@[t] == ownership(from@, module_key)[t],
            decreases own@.len() - i,
        {
            proof {
                let x = from@[i as int].1 as int;
                assert(x <= i64::MAX);
                assert(0 <= x * scale64() <= i128::MAX) by (nonlinear_arith)
                    requires 0 <= x <= i64::MAX, scale64() == 0x1_0000_0000_0000_0000int;
            }
            let (k, v) = own[i];
            let q = match v.checked_div(total) {
                Some(q) => q,
                None => I64F64::zero(),
            };
            ratios.push((k, q));
            i = i + 1;
        }
        proof {
            assert(ratios@ =~= ownership(from@, module_key));
        }
        ratios
    }
}

/// The integer part of `total_dividends * ratio`, zero when the product
/// does not fit.
pub open spec fn delegate_payout(total_dividends: u64, ratio: I64F64) -> int {
    let a = total_dividends * scale64();
    if mul64_fits(a, ratio.bits as int) { ((a * ratio.bits) / scale64()) / scale64() } else { 0 }
}

/// Pays the delegators listed in `own[k..]` their share of `total_dividends`,
/// less the module's fee, as stake on `module`; returns the storage and what
/// is left of the dividends.
pub open spec fn delegate_steps(m: StakeModel, module: u64, own: Seq<(u64, I64F64)>, total_dividends: u64, fee: Percent,
    rem: u64, k: int) -> (StakeModel, u64)
    decreases own.len() - k,
{
    if k < 0 || k >= own.len() {
        (m, rem)
    } else if own[k].0 == module {
        delegate_steps(m, module, own, total_dividends, fee, rem, k + 1)
    } else {
        let fd = delegate_payout(total_dividends, own[k].1);
        let to_module = (fd * fee.parts) / 100;
        let to_delegate = (fd - to_module) as u64;
        delegate_steps(stake_added(m, own[k].0, module, to_delegate), module, own, total_dividends, fee,
            sat_sub(rem, to_delegate), k + 1)
    }
}

/// The part of `total` that the ownership share `ratio` (64 fractional bits)
/// gives: the integer part of `total * ratio`.
pub open spec fn dividend_share(total: u64, ratio: I64F64) -> int {
    (total * ratio.bits) / 0x1_0000_0000_0000_0000int
}

/// What the stakers of `own[k..]` other than `module` are credited out of
/// `total`: each its share less `floor(share * fee / 100)`.
pub open spec fn delegated_sum(own: Seq<(u64, I64F64)>, module: u64, total: u64, fee: Percent, k: int) -> int
    decreases own.len() - k,
{
    if k < 0 || k >= own.len() {
        0
    } else {
        let sh = dividend_share(total, own[k].1);
        (if own[k].0 == module { 0 } else { sh - (sh * fee.parts) / 100 }) + delegated_sum(own, module, total, fee, k + 1)
    }
}

proof fn lemma_share_bounds(total: u64, ratio: I64F64, fee: Percent)
    requires
        total <= i64::MAX,
        0 <= ratio.bits <= scale64(),
        fee.parts <= 100,
    ensures
        delegate_payout(total, ratio) == dividend_share(total, ratio),
        0 <= dividend_share(total, ratio) - (dividend_share(total, ratio) * fee.parts) / 100
            <= dividend_share(total, ratio) <= total,
{
    let t = total as int;
    let r = ratio.bits as int;
    let sc = scale64();
    assert((t * sc * r) / sc == t * r) by (nonlinear_arith) requires sc > 0;
    assert(0 <= t * r <= 0x7fff_ffff_ffff_ffff * 0x1_0000_0000_0000_0000int) by (nonlinear_arith)
        requires 0 <= t <= 0x7fff_ffff_ffff_ffff, 0 <= r <= 0x1_0000_0000_0000_0000int;
    assert(mul64_fits(t * sc, r));
    let sh = (t * r) / sc;
    assert(0 <= sh <= t) by (nonlinear_arith) requires sh == (t * r) / sc, 0 <= r <= sc, 0 <= t, sc > 0;
    assert(0 <= (sh * fee.parts) / 100 <= sh) by (nonlinear_arith)
        requires 0 <= sh, 0 <= fee.parts <= 100;
}

proof fn lemma_delegated_sum_zero(own: Seq<(u64, I64F64)>, module: u64, fee: Percent, k: int)
    ensures
        delegated_sum(own, module, 0, fee, k) == 0,
    decreases own.len() - k,
{
    if 0 <= k < own.len() {
        lemma_delegated_sum_zero(own, module, fee, k + 1);
    }
}

proof fn lemma_delegate_steps_credit(m: StakeModel, module: u64, own: Seq<(u64, I64F64)>, total: u64, fee: Percent,
    rem: u64, k: int)
    requires
        0 <= k <= own.len(),
        fee.parts <= 100,
        forall|q: int| 0 <= q < own.len() ==> 0 <= (#[trigger] own[q]).1.bits <= scale64(),
        forall|q: int| 0 <= q < own.len() && (#[trigger] own[q]).0 != module ==> total <= i64::MAX,
        forall|q1: int, q2: int| 0 <= q1 < q2 < own.len() && (#[trigger] own[q1]).0 == (#[trigger] own[q2]).0
            ==> own[q1].0 == module,
    ensures
        ({
            let res = delegate_steps(m, module, own, total, fee, rem, k);
            let d = delegated_sum(own, module, total, fee, k);
            &&& d >= 0
            &&& res.1 == (if rem >= d { rem - d } else { 0 })
            &&& forall|q: int| k <= q < own.len() && (#[trigger] own[q]).0 != module ==>
                get_or_zero(res.0.stakes, (own[q].0, module)) == sat_add(get_or_zero(m.stakes, (own[q].0, module)),
                    (dividend_share(total, own[q].1) - (dividend_share(total, own[q].1) * fee.parts) / 100) as u64)
            &&& forall|kk: (u64, u64)| (kk.1 != module || kk.0 == module || forall|q: int| k <= q < own.len() ==> own[q].0 != kk.0)
                ==> #[trigger] get_or_zero(res.0.stakes, kk) == get_or_zero(m.stakes, kk)
        }),
    decreases own.len() - k,
{
    if k < own.len() {
        assert(0 <= own[k].1.bits <= scale64());
        if own[k].0 == module {
            lemma_delegate_steps_credit(m, module, own, total, fee, rem, k + 1);
            let res = delegate_steps(m, module, own, total, fee, rem, k);
            assert forall|kk: (u64, u64)| (kk.1 != module || kk.0 == module || forall|q: int| k <= q < own.len() ==> own[q].0 != kk.0)
                implies #[trigger] get_or_zero(res.0.stakes, kk) == get_or_zero(m.stakes, kk) by {
                if !(kk.1 != module || kk.0 == module) {
                    assert forall|q: int| k + 1 <= q < own.len() implies own[q].0 != kk.0 by {
                        assert(own[q].0 != kk.0);
                    }
                }
            }
        } else {
            lemma_share_bounds(total, own[k].1, fee);
            let sh = dividend_share(total, own[k].1);
            let td = (sh - (sh * fee.parts) / 100) as u64;
            let m2 = stake_added(m, own[k].0, module, td);
            let rem2 = sat_sub(rem, td);
            lemma_delegate_steps_credit(m2, module, own, total, fee, rem2, k + 1);
            let res = delegate_steps(m, module, own, total, fee, rem, k);
            assert(res == delegate_steps(m2, module, own, total, fee, rem2, k + 1));
            let key_k = (own[k].0, module);
            assert forall|q: int| k + 1 <= q < own.len() implies own[q].0 != own[k].0 by {
                if own[q].0 == own[k].0 {
                    assert(own[k].0 == module);
                }
            }
            assert(get_or_zero(res.0.stakes, key_k) == get_or_zero(m2.stakes, key_k));
            assert forall|q: int| k <= q < own.len() && (#[trigger] own[q]).0 != module implies
                get_or_zero(res.0.stakes, (own[q].0, module)) == sat_add(get_or_zero(m.stakes, (own[q].0, module)),
                    (dividend_share(total, own[q].1) - (dividend_share(total, own[q].1) * fee.parts) / 100) as u64) by {
                if q > k {
                    assert(own[q].0 != own[k].0);
                    assert(get_or_zero(m2.stakes, (own[q].0, module)) == get_or_zero(m.stakes, (own[q].0, module)));
                }
            }
            assert forall|kk: (u64, u64)| (kk.1 != module || kk.0 == module || forall|q: int| k <= q < own.len() ==> own[q].0 != kk.0)
                implies #[trigger] get_or_zero(res.0.stakes, kk) == get_or_zero(m.stakes, kk) by {
                if !(kk.1 != module || kk.0 == module) {
                    assert(own[k].0 != kk.0);
                    assert forall|q: int| k + 1 <= q < own.len() implies own[q].0 != kk.0 by {
                        assert(own[q].0 != kk.0);
                    }
                }
                assert(kk != key_k);
                assert(get_or_zero(m2.stakes, kk) == get_or_zero(m.stakes, kk));
            }
        }
    }
}

/// Paying out module `key` (uid `uid`) credits each staker on it other than
/// itself, as stake on the module, its ownership share of the module's
/// dividends less `floor(share * fee / 100)` for the module's delegation
/// fee; the module itself is credited its incentive plus only what remains
/// of the dividends after those credits (each credit saturating).
pub proof fn delegators_get_their_share_less_the_fee(l: StakeLedger, inc: Seq<u64>, div: Seq<u64>, uid: u16, key: u64,
    fees: Map<u64, ModuleFees>, floor: Percent)
    requires
        l.wf(),
        delegation_fee_of(fees, key, floor).parts <= 100,
        payout_fits(l.model(), div, uid, key),
    ensures
        ({
            let m = l.model();
            let from = stakers_on(m, key);
            let own = ownership(from, key);
            let d = at_or_zero(div, uid as int);
            let fee = delegation_fee_of(fees, key, floor);
            let r = module_payout(m, inc, div, uid, key, fees, floor);
            let rest = delegated_sum(own, key, d, fee, 0);
            &&& forall|q: int| 0 <= q < from.len() && (#[trigger] from[q]).0 != key ==>
                get_or_zero(r.stakes, (from[q].0, key)) == sat_add(get_or_zero(m.stakes, (from[q].0, key)),
                    (dividend_share(d, own[q].1) - (dividend_share(d, own[q].1) * fee.parts) / 100) as u64)
            &&& get_or_zero(r.stakes, (key, key)) == sat_add(get_or_zero(m.stakes, (key, key)),
                sat_add(at_or_zero(inc, uid as int), (if d >= rest { d - rest } else { 0 }) as u64))
            &&& forall|kk: (u64, u64)| (kk.1 != key || (kk.0 != key && forall|q: int| 0 <= q < from.len() ==> from[q].0 != kk.0))
                ==> #[trigger] get_or_zero(r.stakes, kk) == get_or_zero(m.stakes, kk)
        }),
{
    let m = l.model();
    let from = stakers_on(m, key);
    let own = ownership(from, key);
    let d = at_or_zero(div, uid as int);
    let fee = delegation_fee_of(fees, key, floor);
    let iu = at_or_zero(inc, uid as int);
    let r = module_payout(m, inc, div, uid, key, fees, floor);
    let rest = delegated_sum(own, key, d, fee, 0);
    assert forall|q: int| 0 <= q < from.len() implies (#[trigger] own[q]).0 == from[q].0 by {}
    if d > 0 {
        lemma_ownership_bounds(from, key);
        l.lemma_stakers_distinct(key);
        assert(own.len() >= from.len());
        assert forall|q: int| 0 <= q < own.len() && (#[trigger] own[q]).0 != key implies d <= i64::MAX by {
            if q < from.len() {
                assert(from[q].0 != key);
                assert(has_delegate(from, key));
            }
        }
        assert forall|q1: int, q2: int| 0 <= q1 < q2 < own.len() && (#[trigger] own[q1]).0 == (#[trigger] own[q2]).0
            implies own[q1].0 == key by {
            if q2 < from.len() {
                assert(from[q1].0 < from[q2].0);
            }
        }
        lemma_delegate_steps_credit(m, key, own, d, fee, d, 0);
        let res = delegate_steps(m, key, own, d, fee, d, 0);
        let owner = sat_add(iu, res.1);
        assert forall|q: int| 0 <= q < from.len() && (#[trigger] from[q]).0 != key implies
            get_or_zero(r.stakes, (from[q].0, key)) == sat_add(get_or_zero(m.stakes, (from[q].0, key)),
                (dividend_share(d, own[q].1) - (dividend_share(d, own[q].1) * fee.parts) / 100) as u64) by {
            assert(own[q].0 != key);
            assert(get_or_zero(r.stakes, (from[q].0, key)) == get_or_zero(res.0.stakes, (from[q].0, key)));
        }
        assert(get_or_zero(res.0.stakes, (key, key)) == get_or_zero(m.stakes, (key, key)));
        assert forall|kk: (u64, u64)| (kk.1 != key || (kk.0 != key && forall|q: int| 0 <= q < from.len() ==> from[q].0 != kk.0))
            implies #[trigger] get_or_zero(r.stakes, kk) == get_or_zero(m.stakes, kk) by {
            if kk.1 == key {
                assert forall|q: int| 0 <= q < own.len() implies own[q].0 != kk.0 by {
                    if q < from.len() {
                        assert(from[q].0 != kk.0);
                    }
                }
            }
            assert(kk != (key, key));
            assert(get_or_zero(res.0.stakes, kk) == get_or_zero(m.stakes, kk));
        }
    } else {
        lemma_delegated_sum_zero(own, key, fee, 0);
        assert forall|q: int| 0 <= q < from.len() && (#[trigger] from[q]).0 != key implies
            get_or_zero(r.stakes, (from[q].0, key)) == sat_add(get_or_zero(m.stakes, (from[q].0, key)),
                (dividend_share(d, own[q].1) - (dividend_share(d, own[q].1) * fee.parts) / 100) as u64) by {
            assert(d == 0);
            assert(dividend_share(d, own[q].1) == 0) by (nonlinear_arith) requires d == 0;
            assert((0int * fee.parts) / 100 == 0);
            assert((from[q].0, key) != (key, key));
            assert(get_or_zero(r.stakes, (from[q].0, key)) == get_or_zero(m.stakes, (from[q].0, key)));
        }
    }
}

/// Entry `u` of `v`, zero when there is none.
pub open spec fn at_or_zero(v: Seq<u64>, u: int) -> u64 {
    if 0 <= u < v.len() { v[u] } else { 0 }
}

/// The stake storage after module `key` (uid `uid`) is paid: its dividends
/// shared with its delegators, and its incentive with the rest of its
/// dividends staked on itself.
pub open spec fn module_payout(m: StakeModel, inc: Seq<u64>, div: Seq<u64>, uid: u16, key: u64,
    fees: Map<u64, ModuleFees>, floor: Percent) -> StakeModel {
    let inc_u = at_or_zero(inc, uid as int);
    let div_u = at_or_zero(div, uid as int);
    let (m1, rem) = if div_u > 0 {
        delegate_steps(m, key, ownership(stakers_on(m, key), key), div_u, delegation_fee_of(fees, key, floor), div_u, 0)
    } else {
        (m, div_u)
    };
    let owner = sat_add(inc_u, rem);
    if owner > 0 { stake_added(m1, key, key, owner) } else { m1 }
}

/// [`module_payout`] for each `(uid, key)` of `uks[..k]`, in order.
pub open spec fn payouts(m: StakeModel, inc: Seq<u64>, div: Seq<u64>, uks: Seq<(u16, u64)>, fees: Map<u64, ModuleFees>,
    floor: Percent, k: int) -> StakeModel
    decreases k,
{
    if k <= 0 || k > uks.len() {
        m
    } else {
        module_payout(payouts(m, inc, div, uks, fees, floor, k - 1), inc, div, uks[k - 1].0, uks[k - 1].1, fees, floor)
    }
}

/// The emission recorded for each of `n` modules: its incentive plus its
/// dividends (saturating).
pub open spec fn emission_record(inc: Seq<u64>, div: Seq<u64>, uks: Seq<(u16, u64)>, n: int, k: int) -> Seq<u64>
    decreases k,
{
    if k <= 0 || k > uks.len() {
        Seq::new(n as nat, |i: int| 0u64)
    } else {
        let prev = emission_record(inc, div, uks, n, k - 1);
        let u = uks[k - 1].0 as int;
        if u < n { prev.update(u, sat_add(at_or_zero(inc, u), at_or_zero(div, u))) } else { prev }
    }
}

proof fn lemma_emission_record_len(inc: Seq<u64>, div: Seq<u64>, uks: Seq<(u16, u64)>, n: int, k: int)
    requires
        n >= 0,
    ensures
        emission_record(inc, div, uks, n, k).len() == n,
    decreases k,
{
    if k > 0 && k <= uks.len() {
        lemma_emission_record_len(inc, div, uks, n, k - 1);
    }
}

/// The integer part of each value.
pub open spec fn integer_parts(v: Seq<I64F64>) -> Seq<u64> {
    v.map_values(|x: I64F64| (x.bits as int / scale64()) as u64)
}

/// Whether each value has an integer part that fits in a `u64`.
pub open spec fn integer_parts_fit(v: Seq<I64F64>) -> bool {
    forall|i: int| 0 <= i < v.len() ==> 0 <= #[trigger] v[i].bits as int / scale64() <= u64::MAX
}

/// The incentive emission with the founder's part added to the founder's
/// module, on a subnet other than the root network; a founder without a
/// module there counts as uid 0.
pub open spec fn with_founder(inc: Seq<u64>, netuid: u16, founder_uid: Option<u16>, founder_emission: u64) -> Seq<u64> {
    let u = match founder_uid {
        Some(u) => u,
        None => 0u16,
    };
    if netuid != 0 && (u as int) < inc.len() {
        inc.update(u as int, sat_add(inc[u as int], founder_emission))
    } else {
        inc
    }
}

/// Whether some staker in `from` is not `module` itself.
pub open spec fn has_delegate(from: Seq<(u64, u64)>, module: u64) -> bool {
    exists|q: int| 0 <= q < from.len() && #[trigger] from[q].0 != module
}

/// Whether the payout of module `key` (uid `uid`) reads only values that
/// fit in an `i64` from the stake storage `m`: when it has dividends, the
/// stakes on it, and when it shares them with a staker other than itself,
/// its dividends as well.
pub open spec fn payout_fits(m: StakeModel, div: Seq<u64>, uid: u16, key: u64) -> bool {
    at_or_zero(div, uid as int) > 0 ==> {
        &&& stakes_fit(stakers_on(m, key))
        &&& has_delegate(stakers_on(m, key), key) ==> at_or_zero(div, uid as int) <= i64::MAX
    }
}

/// Whether every payout of `uks`, made in order, reads only values that fit
/// in an `i64` (see [`payout_fits`]).
pub open spec fn payout_inputs_fit(m: StakeModel, inc: Seq<u64>, div: Seq<u64>, uks: Seq<(u16, u64)>,
    fees: Map<u64, ModuleFees>, floor: Percent) -> bool {
    forall|k: int| 0 <= k < uks.len() ==> #[trigger] payout_fits(payouts(m, inc, div, uks, fees, floor, k), div,
        uks[k].0, uks[k].1)
}

/// The integer parts of a vector of fixed-point values.
fn to_integer_parts(v: &[I64F64]) -> (r: Vec<u64>)
    requires
        integer_parts_fit(v@),
    ensures
        r@ == integer_parts(v@),
{
    let mut r: Vec<u64> = Vec::new();
    let mut i: usize = 0;
    while i < v.len()
        invariant
            i <= v@.len(),
            integer_parts_fit(v@),
            r@ =~= integer_parts(v@.take(i as int)),
        decreases v@.len() - i,
    {
        r.push(v[i].to_u64());
        i = i + 1;
    }
    proof {
        assert(v@.take(v@.len() as int) =~= v@);
    }
    r
}

impl Subspace {
    /// Pays out a subnet's emission as stake: each module's dividends are
    /// shared with its delegators in proportion to their stake, less the
    /// module's delegation fee, and the module stakes its incentive and the
    /// rest of its dividends on itself. On a subnet other than the root
    /// network the founder's part is added to the founder's incentive.
    /// Returns the emission of each module.
    pub fn calculate_emissions(&mut self, incentive_emission_float: &[I64F64], dividends_emission_float: &[I64F64],
        founder_emission: u64, netuid: u16, founder_key: u64, uid_key_tuples: &[(u16, u64)], subnet_stake_threshold: Percent,
        treasury: &TreasuryHooks) -> (r: Vec<u64>)
        requires
            treasury.dao_treasury_distribution.parts <= 100,
            netuid == 0 && founder_emission > 0 ==> qualifying_sum(payouts(old(self).ledger.model(),
                with_founder(integer_parts(incentive_emission_float@), netuid, old(self).uid_of(netuid, founder_key), founder_emission),
                integer_parts(dividends_emission_float@), uid_key_tuples@, old(self).fees@, old(self).global.floor_stake_delegation_fee,
                uid_key_tuples@.len() as int), old(self).subnets@, subnet_stake_threshold) <= u64::MAX,
            old(self).wf(),
            integer_parts_fit(incentive_emission_float@),
            integer_parts_fit(dividends_emission_float@),
            payout_inputs_fit(old(self).ledger.model(),
                with_founder(integer_parts(incentive_emission_float@), netuid, old(self).uid_of(netuid, founder_key), founder_emission),
                integer_parts(dividends_emission_float@), uid_key_tuples@, old(self).fees@, old(self).global.floor_stake_delegation_fee),
        ensures
            final(self).wf(),
            ({
                let paid = payouts(old(self).ledger.model(),
                    with_founder(integer_parts(incentive_emission_float@), netuid, old(self).uid_of(netuid, founder_key), founder_emission),
                    integer_parts(dividends_emission_float@), uid_key_tuples@, old(self).fees@, old(self).global.floor_stake_delegation_fee,
                    uid_key_tuples@.len() as int);
                final(self).holds(*old(self), Holdings {
                    stake: paid,
                    balances: if netuid == 0 && founder_emission > 0 {
                        treasury_balances(old(self).balances.free_map(), paid, old(self).subnets@, founder_emission, *treasury,
                            subnet_stake_threshold)
                    } else {
                        old(self).balances.free_map()
                    },
                })
            }),
            r@ == emission_record(
                with_founder(integer_parts(incentive_emission_float@), netuid, old(self).uid_of(netuid, founder_key), founder_emission),
                integer_parts(dividends_emission_float@), uid_key_tuples@, incentive_emission_float@.len() as int,
                uid_key_tuples@.len() as int),
    {
        let n = incentive_emission_float.len();
        let mut incentive_emission = to_integer_parts(incentive_emission_float);
        let dividends_emission = to_integer_parts(dividends_emission_float);
        if netuid != 0 {
            let fu: u16 = match self.get_uid_for_key(netuid, founder_key) {
                Some(u) => u,
                None => 0,
            };
            if (fu as usize) < incentive_emission.len() {
                let cur = incentive_emission[fu as usize];
                incentive_emission.set(fu as usize, cur.saturating_add(founder_emission));
            }
        }
        let ghost inc = incentive_emission@;
        let ghost div = dividends_emission@;
        let ghost fees = self.fees@;
        let ghost floor = self.global.floor_stake_delegation_fee;
        let ghost m0 = self.ledger.model();
        let ghost start = *self;
        assert(inc == with_founder(integer_parts(incentive_emission_float@), netuid, old(self).uid_of(netuid, founder_key), founder_emission));
        let mut emission: Vec<u64> = Vec::new();
        let mut i: usize = 0;
        while i < n
            invariant
                i <= n,
                emission@ =~= Seq::new(i as nat, |t: int| 0u64),
            decreases n - i,
        {
            emission.push(0);
            i = i + 1;
        }
        let mut k: usize = 0;
        while k < uid_key_tuples.len()
            invariant
                k <= uid_key_tuples@.len(),
                self.wf(),
                self.holds(start, Holdings { stake: self.ledger.model(), balances: start.balances.free_map() }),
                start.wf(),
                inc == incentive_emission@,
                div == dividends_emission@,
                div == integer_parts(dividends_emission_float@),
                fees == self.fees@,
                floor == self.global.floor_stake_delegation_fee,
                payout_inputs_fit(m0, inc, div, uid_key_tuples@, fees, floor),
                self.ledger.model() == payouts(m0, inc, div, uid_key_tuples@, fees, floor, k as int),
                emission@ == emission_record(inc, div, uid_key_tuples@, n as int, k as int),
                inc.len() == n,
            decreases uid_key_tuples@.len() - k,
        {
            proof {
                lemma_emission_record_len(inc, div, uid_key_tuples@, n as int, k as int);
            }
            let (uid, key) = uid_key_tuples[k];
            let ghost mk = self.ledger.model();
            let inc_u = if (uid as usize) < incentive_emission.len() { incentive_emission[uid as usize] } else { 0 };
            let mut div_u = if (uid as usize) < dividends_emission.len() { dividends_emission[uid as usize] } else { 0 };
            if (uid as usize) < emission.len() {
                emission.set(uid as usize, inc_u.saturating_add(div_u));
            }
            proof {
                assert(uid_key_tuples@[k as int] == (uid, key));
                assert(payout_fits(payouts(m0, inc, div, uid_key_tuples@, fees, floor, k as int), div,
                    uid_key_tuples@[k as int].0, uid_key_tuples@[k as int].1));
                assert(div_u == at_or_zero(div, uid as int));
            }
            if div_u > 0 {
                proof {
                    assert(stakes_fit(stakers_on(mk, key)));
                    lemma_ownership_bounds(stakers_on(mk, key), key);
                }
                let own = self.get_ownership_ratios(netuid, key);
                let fee = self.get_delegation_fee(key);
                let total = div_u;
                let ghost fee_spec = delegation_fee_of(fees, key, floor);
                proof {
                    if fees.contains_key(key) {
                        assert(fees[key].stake_delegation_fee.parts <= 100);
                    }
                }
                let mut t: usize = 0;
                while t < own.len()
                    invariant
                        t <= own@.len(),
                        self.wf(),
                        self.holds(start, Holdings { stake: self.ledger.model(), balances: start.balances.free_map() }),
                        fee == fee_spec,
                        fee.parts <= 100,
                        own@ == ownership(stakers_on(mk, key), key),
                        has_delegate(stakers_on(mk, key), key) ==> total <= i64::MAX,
                        forall|q: int| 0 <= q < own@.len() ==> 0 <= (#[trigger] own@[q]).1.bits <= scale64(),
                        delegate_steps(mk, key, own@, total, fee, total, 0)
                            == delegate_steps(self.ledger.model(), key, own@, total, fee, div_u, t as int),
                    decreases own@.len() - t,
                {
                    let (dk, ratio) = own[t];
                    if dk != key {
                        proof {
                            let from = stakers_on(mk, key);
                            if (t as int) < from.len() {
                                assert(own@[t as int].0 == from[t as int].0);
                                assert(from[t as int].0 != key);
                                assert(has_delegate(from, key));
                            }
                        }
                        let ghost tb = total as int;
                        let ghost rb = ratio.bits as int;
                        proof {
                            assert(0 <= rb <= scale64());
                            assert(((tb * scale64()) * rb) / scale64() == tb * rb) by (nonlinear_arith)
                                requires scale64() > 0;
                            assert(0 <= tb * rb <= tb * scale64()) by (nonlinear_arith)
                                requires 0 <= rb <= scale64(), 0 <= tb;
                            assert(0 <= (tb * rb) / scale64() <= tb) by (nonlinear_arith)
                                requires 0 <= tb * rb <= tb * scale64(), scale64() > 0, 0 <= tb;
                        }
                        let fd = match I64F64::from_u64(total).checked_mul(ratio) {
                            Some(p) => p.to_u64(),
                            None => 0,
                        };
                        let to_module = fee.mul_floor(fd);
                        proof {
                            assert((fd * fee.parts) / 100 <= fd) by (nonlinear_arith)
                                requires fee.parts <= 100, fd >= 0;
                        }
                        let to_delegate = fd.saturating_sub(to_module);
                        self.ledger.increase_stake(dk, key, to_delegate);
                        div_u = div_u.saturating_sub(to_delegate);
                    }
                    t = t + 1;
                }
            }
            let owner = inc_u.saturating_add(div_u);
            if owner > 0 {
                self.ledger.increase_stake(key, key, owner);
            }
            proof {
                assert(uid_key_tuples@[k as int] == (uid, key));
            }
            k = k + 1;
        }
        if netuid == 0 && founder_emission > 0 {
            let ghost before = *self;
            self.distribute_root_founder_emission(founder_emission, subnet_stake_threshold, treasury);
            proof {
                assert(before.subnets@ == start.subnets@);
                assert(self.holdings() =~= Holdings {
                    stake: before.ledger.model(),
                    balances: treasury_balances(start.balances.free_map(), before.ledger.model(), start.subnets@,
                        founder_emission, *treasury, subnet_stake_threshold),
                });
            }
        }
        emission
    }
}

} // verus!
