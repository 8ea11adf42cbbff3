//! The linear reward epoch of a subnet, from stake and weights to incentive,
//! dividends and the stake each module is paid.
use vstd::prelude::*;
use crate::emission::{emission_record, integer_parts, integer_parts_fit, payout_inputs_fit, payouts, with_founder};
use crate::epoch::{bond_rows, calculate_emission_ratios, calculate_founder_emission, complement_bits, compute_bonds_delta,
    compute_dividends, compute_incentive, compute_trust, consensus_row, dividend_rows, emission_part, founder_cut,
    kept_weights, percent_bits, process_weights, raw_dividends, raw_incentive, rows_view, trust_rows, columns_within,
    incentive_rows, WeightLimits};
use crate::errors::Error;
use crate::fixed::{I32F32, I64F64, add32, div32_fits, div64_fits, mul32_fits, scale32, scale64, sub32, trunc_div};
use crate::ledger::{get_or_zero, sat_add, StakeModel};
use crate::math::{normalized, proportion_u16, row_divided, row_sum_bits, row_sum_fits, sum_bits, sum_fits, fixed_proportion_to_u16};
use crate::staking::Holdings;
use crate::state::{subnet_pos, subnet_wf, lemma_subnet_pos_same_netuids, SubnetState, Subspace};
use crate::percent::Percent;
use crate::treasury::{lemma_same_shape_treasury, qualifying_sum, same_shape, treasury_balances, TreasuryHooks};

verus! {

/// The saturating sum of a sequence of amounts.
pub open spec fn sat_sum(s: Seq<u64>) -> u64
    decreases s.len(),
{
    if s.len() == 0 { 0 } else { sat_add(sat_sum(s.drop_last()), s.last()) }
}

/// The 64-bit share `x / total` of each stake.
pub open spec fn stake_shares(stakes: Seq<u64>, total: u64) -> Seq<I64F64> {
    stakes.map_values(|x: u64| I64F64 {
        bits: (if div64_fits(x * scale64(), total * scale64()) {
            trunc_div(x * scale64() * scale64(), total * scale64())
        } else {
            0
        }) as i128,
    })
}

/// Each 64-bit share narrowed to 32 fractional bits.
pub open spec fn narrowed(s: Seq<I64F64>) -> Seq<I32F32> {
    s.map_values(|x: I64F64| I32F32 { bits: (x.bits as int / scale32()) as i64 })
}

/// Each fixed-point proportion as a 16-bit proportion.
pub open spec fn proportions(s: Seq<I32F32>) -> Seq<u16> {
    s.map_values(|x: I32F32| proportion_u16(x) as u16)
}

/// Whether every fixed-point proportion converts to a 16-bit one.
pub open spec fn proportions_fit(s: Seq<I32F32>) -> bool {
    forall|i: int| 0 <= i < s.len() ==> 0 <= #[trigger] proportion_u16(s[i]) <= u16::MAX
}

/// The share of trust in the incentive, `ratio / 100`, as an `I32F32` bit pattern.
pub open spec fn trust_share_bits(ratio: u16) -> int {
    (ratio * scale32()) / 100
}

/// `inc * (1 - ts) + tru * ts` for each module, each product that does not
/// fit giving zero.
pub open spec fn mixed_incentive(inc: Seq<I32F32>, tru: Seq<I32F32>, ts: int) -> Seq<I32F32> {
    let is = sub32(scale32(), ts);
    Seq::new(if inc.len() < tru.len() { inc.len() } else { tru.len() }, |k: int| I32F32 {
        bits: add32(
            if mul32_fits(inc[k].bits as int, is) { (inc[k].bits * is) / scale32() } else { 0 },
            if mul32_fits(tru[k].bits as int, ts) { (tru[k].bits * ts) / scale32() } else { 0 },
        ) as i64,
    })
}

/// Everything the epoch computes for a subnet.
pub struct EpochTrace {
    pub n: int,
    pub token_emission: u64,
    pub founder_emission: u64,
    pub stakes: Seq<u64>,
    pub total: u64,
    pub stake64: Seq<I64F64>,
    pub stake: Seq<I32F32>,
    pub limits: WeightLimits,
    pub kept: Seq<Seq<(u16, u16)>>,
    pub weights: Seq<Seq<(u16, I32F32)>>,
    pub uids: Seq<u16>,
    pub uid_keys: Seq<(u16, u64)>,
    pub incentive0: Seq<I32F32>,
    pub trust: Seq<I32F32>,
    pub incentive: Seq<I32F32>,
    pub bonds: Seq<Seq<(u16, I32F32)>>,
    pub dividends: Seq<I32F32>,
    pub incentive_emission: Seq<I64F64>,
    pub dividends_emission: Seq<I64F64>,
}

/// The epoch of subnet `s` in the pallet `p`, paying out `token_emission`.
pub open spec fn epoch_trace(p: Subspace, s: SubnetState, token_emission: u64) -> EpochTrace {
    let n = s.keys@.len() as int;
    let fe = founder_cut(s.params.founder_share, token_emission) as u64;
    let te = (token_emission - fe) as u64;
    let stakes = s.keys@.map_values(|k: u64| get_or_zero(p.ledger.model().module_stakes, k));
    let total = if sat_sum(stakes) == 0 { 1u64 } else { sat_sum(stakes) };
    let stake64 = stake_shares(stakes, total);
    let stake = normalized(narrowed(stake64));
    let limits = WeightLimits {
        max_weight_age: s.params.max_weight_age,
        min_allowed_weights: s.params.min_allowed_weights,
        max_allowed_weights: s.params.max_allowed_weights,
        min_weight_stake: p.global.min_weight_stake,
    };
    let kept = Seq::new(n as nat, |u: int| kept_weights(s.weights@, s.last_update@, u, p.block, limits, stake64, total, n as u16));
    let weights = Seq::new(n as nat, |u: int| {
        let row = consensus_row(s.weights@, s.last_update@, u, p.block, limits, stake64, total, n as u16);
        row_divided(row, row_sum_bits(row))
    });
    let uids = Seq::new(n as nat, |u: int| u as u16);
    let uid_keys = Seq::new(n as nat, |u: int| (u as u16, s.keys@[u]));
    let incentive0 = normalized(raw_incentive(weights, stake, uids, n));
    let trust = normalized(trust_rows(weights, stake, s.params.min_validator_stake, n));
    let incentive = if s.trust_ratio > 0 {
        mixed_incentive(incentive0, trust, trust_share_bits(s.trust_ratio))
    } else {
        incentive0
    };
    let bonds = bond_rows(weights, stake);
    let dividends = normalized(raw_dividends(dividend_rows(bonds, incentive.len() as int)->Some_0, uids));
    EpochTrace {
        n,
        token_emission: te,
        founder_emission: fe,
        stakes,
        total,
        stake64,
        stake,
        limits,
        kept,
        weights,
        uids,
        uid_keys,
        incentive0,
        trust,
        incentive,
        bonds,
        dividends,
        incentive_emission: incentive.map_values(|x: I32F32| emission_part(x, te, percent_bits(s.params.incentive_ratio))),
        dividends_emission: dividends.map_values(|x: I32F32| emission_part(x, te, complement_bits(s.params.incentive_ratio))),
    }
}

/// Whether the epoch of subnet `s` computes without overflowing anywhere:
/// the stakes and the emission fit the fixed-point types, the sums of each
/// vector and weight row fit, and every proportion converts to 16 bits.
pub open spec fn epoch_computes(p: Subspace, s: SubnetState, token_emission: u64) -> bool {
    let t = epoch_trace(p, s, token_emission);
    &&& token_emission <= i64::MAX
    &&& forall|u: int| 0 <= u < t.stakes.len() ==> #[trigger] t.stakes[u] <= i64::MAX
    &&& t.total <= i64::MAX
    &&& p.global.min_weight_stake <= i64::MAX
    &&& forall|u: int| 0 <= u < t.n ==> row_sum_fits(#[trigger] consensus_row(s.weights@, s.last_update@, u, p.block,
        t.limits, t.stake64, t.total, t.n as u16))
    &&& sum_fits(incentive_rows(t.weights, t.stake, t.n))
    &&& sum_fits(raw_incentive(t.weights, t.stake, t.uids, t.n))
    &&& s.trust_ratio > 0 ==> {
        &&& s.params.min_validator_stake <= i32::MAX
        &&& sum_fits(trust_rows(t.weights, t.stake, s.params.min_validator_stake, t.n))
        &&& proportions_fit(t.trust)
    }
    &&& proportions_fit(t.incentive)
    &&& columns_within(t.weights, t.n)
    &&& dividend_rows(t.bonds, t.incentive.len() as int) is Some
    &&& sum_fits(raw_dividends(dividend_rows(t.bonds, t.incentive.len() as int)->Some_0, t.uids))
    &&& proportions_fit(t.dividends)
    &&& integer_parts_fit(t.incentive_emission)
    &&& integer_parts_fit(t.dividends_emission)
    &&& payout_inputs_fit(p.ledger.model(),
        with_founder(integer_parts(t.incentive_emission), s.netuid, p.uid_of(s.netuid, s.params.founder), t.founder_emission),
        integer_parts(t.dividends_emission), t.uid_keys, p.fees@, p.global.floor_stake_delegation_fee)
}

/// Whether the epoch of subnet `s` runs without overflowing anywhere (see
/// [`epoch_computes`]), and, on the root network with a founder share, the
/// stake of the subnets that reach `threshold` after the payout fits in a
/// `u64`.
pub open spec fn epoch_defined(p: Subspace, s: SubnetState, token_emission: u64, threshold: Percent) -> bool {
    let t = epoch_trace(p, s, token_emission);
    &&& epoch_computes(p, s, token_emission)
    &&& s.netuid == 0 && t.founder_emission > 0 ==> qualifying_sum(payouts(p.ledger.model(),
        with_founder(integer_parts(t.incentive_emission), s.netuid, p.uid_of(s.netuid, s.params.founder), t.founder_emission),
        integer_parts(t.dividends_emission), t.uid_keys, p.fees@, p.global.floor_stake_delegation_fee, t.uid_keys.len() as int),
        p.subnets@, threshold) <= u64::MAX
}

/// What an epoch computes for a subnet before it is stored and paid out.
pub struct EpochOutput {
    pub kept: Vec<Vec<(u16, u16)>>,
    pub incentive: Vec<u16>,
    pub trust: Option<Vec<u16>>,
    pub dividends: Vec<u16>,
    pub incentive_emission: Vec<I64F64>,
    pub dividends_emission: Vec<I64F64>,
    pub uid_keys: Vec<(u16, u64)>,
    pub founder_emission: u64,
}

/// Each fixed-point proportion as a 16-bit proportion.
fn to_proportions(v: &Vec<I32F32>) -> (r: Vec<u16>)
    requires
        proportions_fit(v@),
    ensures
        r@ == proportions(v@),
{
    let mut r: Vec<u16> = Vec::new();
    let mut i: usize = 0;
    while i < v.len()
        invariant
            i <= v@.len(),
            proportions_fit(v@),
            r@ =~= proportions(v@).take(i as int),
        decreases v@.len() - i,
    {
        r.push(fixed_proportion_to_u16(v[i]));
        i = i + 1;
    }
    proof {
        assert(r@ =~= proportions(v@));
    }
    r
}

/// `inc * (1 - ts) + tru * ts` for each module (see [`mixed_incentive`]).
fn mix_incentive(inc: &Vec<I32F32>, tru: &Vec<I32F32>, trust_ratio: u16) -> (r: Vec<I32F32>)
    ensures
        r@ == mixed_incentive(inc@, tru@, trust_share_bits(trust_ratio)),
{
    let ghost tr = trust_ratio as int;
    proof {
        assert(((tr * scale32()) * scale32()) / (100 * scale32()) == (tr * scale32()) / 100) by (nonlinear_arith)
            requires 0 <= tr <= u16::MAX, scale32() > 0;
        assert(0 <= (tr * scale32()) / 100 <= u16::MAX * scale32()) by (nonlinear_arith)
            requires 0 <= tr <= u16::MAX, scale32() > 0;
        assert(0 <= tr * scale32() <= u16::MAX * scale32()) by (nonlinear_arith)
            requires 0 <= tr <= u16::MAX, scale32() > 0;
    }
    let ts = match I32F32::from_int(trust_ratio as u32).checked_div(I32F32::from_int(100)) {
        Some(q) => q,
        None => I32F32::zero(),
    };
    let is = I32F32::one().saturating_sub(ts);
    let len = if inc.len() < tru.len() { inc.len() } else { tru.len() };
    let mut r: Vec<I32F32> = Vec::new();
    let mut k: usize = 0;
    while k < len
        invariant
            k <= len,
            len == (if inc@.len() < tru@.len() { inc@.len() } else { tru@.len() }),
            ts.bits == trust_share_bits(trust_ratio),
            is.bits == sub32(scale32(), ts.bits as int),
            r@ =~= mixed_incentive(inc@, tru@, trust_share_bits(trust_ratio)).take(k as int),
        decreases len - k,
    {
        let a = match inc[k].checked_mul(is) {
            Some(v) => v,
            None => I32F32::zero(),
        };
        let b = match tru[k].checked_mul(ts) {
            Some(v) => v,
            None => I32F32::zero(),
        };
        r.push(a.saturating_add(b));
        k = k + 1;
    }
    proof {
        assert(r@ =~= mixed_incentive(inc@, tru@, trust_share_bits(trust_ratio)));
    }
    r
}

/// Whether `new` is `old` after the epoch of subnet number `pos`, paying out
/// `token_emission`: the subnet keeps the weights that passed the check and
/// stores the incentive, trust (when it counts), dividends and emission; the
/// stake storage holds the payouts; nothing else changes.
pub open spec fn epoch_result(old: Subspace, new: Subspace, pos: int, token_emission: u64, threshold: Percent,
    treasury: TreasuryHooks) -> bool {
    let s = old.subnets@[pos];
    let s2 = new.subnets@[pos];
    let t = epoch_trace(old, s, token_emission);
    let inc = with_founder(integer_parts(t.incentive_emission), s.netuid, old.uid_of(s.netuid, s.params.founder), t.founder_emission);
    let div = integer_parts(t.dividends_emission);
    &&& new.subnets@.len() == old.subnets@.len()
    &&& forall|q: int| 0 <= q < old.subnets@.len() && q != pos ==> #[trigger] new.subnets@[q] == old.subnets@[q]
    &&& s2 == (SubnetState {
        weights: s2.weights,
        incentive: s2.incentive,
        trust: s2.trust,
        dividends: s2.dividends,
        emission: s2.emission,
        ..s
    })
    &&& rows_view(s2.weights@) == t.kept
    &&& s2.incentive@ == proportions(t.incentive)
    &&& s2.trust@ == (if s.trust_ratio > 0 { proportions(t.trust) } else { s.trust@ })
    &&& s2.dividends@ == proportions(t.dividends)
    &&& s2.emission@ == emission_record(inc, div, t.uid_keys, t.incentive_emission.len() as int, t.uid_keys.len() as int)
    &&& new.ledger.wf()
    &&& new.ledger.model() == payouts(old.ledger.model(), inc, div, t.uid_keys, old.fees@, old.global.floor_stake_delegation_fee,
        t.uid_keys.len() as int)
    &&& new.balances.free_map() == (if s.netuid == 0 && t.founder_emission > 0 {
        treasury_balances(old.balances.free_map(), new.ledger.model(), old.subnets@, t.founder_emission, treasury, threshold)
    } else {
        old.balances.free_map()
    })
    &&& new.balances.min_balance() == old.balances.min_balance()
    &&& new.config == old.config
    &&& new.global == old.global
    &&& new.registrations_per_block == old.registrations_per_block
    &&& new.block == old.block
    &&& new.fees@ == old.fees@
    &&& new.min_fees == old.min_fees
    &&& new.subnet_gaps@ == old.subnet_gaps@
    &&& new.subnet_burn == old.subnet_burn
    &&& new.subnet_burn_config == old.subnet_burn_config
    &&& new.subnet_registrations_this_interval == old.subnet_registrations_this_interval
    &&& new.events == old.events
}

proof fn lemma_sat_sum_bounds(s: Seq<u64>)
    ensures
        forall|i: int| 0 <= i < s.len() ==> #[trigger] s[i] <= sat_sum(s),
    decreases s.len(),
{
    if s.len() > 0 {
        lemma_sat_sum_bounds(s.drop_last());
        assert forall|i: int| 0 <= i < s.len() implies #[trigger] s[i] <= sat_sum(s) by {
            if i < s.len() - 1 {
                assert(s.drop_last()[i] == s[i]);
            }
        }
    }
}

proof fn lemma_sum_fits_bounded(s: Seq<I32F32>, b: int)
    requires
        b >= 0,
        forall|i: int| 0 <= i < s.len() ==> 0 <= #[trigger] s[i].bits <= b,
        s.len() * b <= i64::MAX,
    ensures
        sum_fits(s),
{
    assert forall|k: int| 0 <= k <= s.len() implies i64::MIN <= #[trigger] sum_bits(s.take(k)) <= i64::MAX by {
        lemma_prefix_bounded(s, b, k);
        assert(k * b <= s.len() * b) by (nonlinear_arith)
            requires 0 <= k <= s.len(), b >= 0;
    }
}

proof fn lemma_prefix_bounded(s: Seq<I32F32>, b: int, k: int)
    requires
        b >= 0,
        0 <= k <= s.len(),
        forall|i: int| 0 <= i < s.len() ==> 0 <= #[trigger] s[i].bits <= b,
    ensures
        0 <= sum_bits(s.take(k)) <= k * b,
    decreases k,
{
    if k > 0 {
        lemma_prefix_bounded(s, b, k - 1);
        assert(s.take(k).drop_last() =~= s.take(k - 1));
        assert(s.take(k).last() == s[k - 1]);
        assert((k - 1) * b + b == k * b) by (nonlinear_arith);
    }
}

impl Subspace {
    /// The stake counter of each key, its saturating sum raised to at least
    /// one, each stake's 64-bit share of it, and the shares narrowed to 32
    /// fractional bits and normalized.
    fn epoch_stake(&self, keys: &Vec<u64>) -> (r: (Vec<u64>, u64, Vec<I64F64>, Vec<I32F32>))
        requires
            keys@.len() <= u16::MAX,
            forall|u: int| 0 <= u < keys@.len() ==>
                #[trigger] get_or_zero(self.ledger.model().module_stakes, keys@[u]) <= i64::MAX,
            ({
                let stakes = keys@.map_values(|k: u64| get_or_zero(self.ledger.model().module_stakes, k));
                (if sat_sum(stakes) == 0 { 1u64 } else { sat_sum(stakes) }) <= i64::MAX
            }),
        ensures
            r.0@ == keys@.map_values(|k: u64| get_or_zero(self.ledger.model().module_stakes, k)),
            r.1 == (if sat_sum(r.0@) == 0 { 1u64 } else { sat_sum(r.0@) }),
            r.2@ == stake_shares(r.0@, r.1),
            r.3@ == normalized(narrowed(r.2@)),
    {
        let ghost stakes_spec = keys@.map_values(|k: u64| get_or_zero(self.ledger.model().module_stakes, k));
        let mut stakes: Vec<u64> = Vec::new();
        let mut sum: u64 = 0;
        let mut i: usize = 0;
        while i < keys.len()
            invariant
                i <= keys@.len(),
                stakes_spec == keys@.map_values(|k: u64| get_or_zero(self.ledger.model().module_stakes, k)),
                stakes@ == stakes_spec.take(i as int),
                sum == sat_sum(stakes@),
            decreases keys@.len() - i,
        {
            let x = self.ledger.get_module_stake(keys[i]);
            stakes.push(x);
            proof {
                assert(stakes@.drop_last() == stakes_spec.take(i as int));
                assert(stakes_spec.take(i + 1) =~= stakes_spec.take(i as int).push(x));
            }
            sum = sum.saturating_add(x);
            i = i + 1;
        }
        proof {
            assert(stakes_spec.take(keys@.len() as int) =~= stakes_spec);
            lemma_sat_sum_bounds(stakes@);
        }
        let total: u64 = if sum == 0 { 1 } else { sum };
        let tf = I64F64::from_u64(total);
        let mut shares: Vec<I64F64> = Vec::new();
        let mut narrow: Vec<I32F32> = Vec::new();
        let mut i: usize = 0;
        while i < stakes.len()
            invariant
                i <= stakes@.len(),
                stakes@ == stakes_spec,
                stakes@.len() <= u16::MAX,
                forall|u: int| 0 <= u < stakes@.len() ==> #[trigger] stakes@[u] <= sat_sum(stakes@),
                forall|u: int| 0 <= u < stakes@.len() ==> #[trigger] stakes@[u] <= i64::MAX,
                total == (if sat_sum(stakes@) == 0 { 1u64 } else { sat_sum(stakes@) }),
                total <= i64::MAX,
                tf.bits == total * scale64(),
                shares@ =~= stake_shares(stakes@, total).take(i as int),
                narrow@ =~= narrowed(stake_shares(stakes@, total)).take(i as int),
                forall|u: int| 0 <= u < i ==> 0 <= #[trigger] narrow@[u].bits <= scale32(),
            decreases stakes@.len() - i,
        {
            let x = stakes[i];
            let ghost xb = x as int;
            let ghost tb = total as int;
            proof {
                assert(xb <= tb);
                assert((xb * scale64() * scale64()) / (tb * scale64()) == (xb * scale64()) / tb) by (nonlinear_arith)
                    requires tb > 0, scale64() > 0;
                assert(0 <= (xb * scale64()) / tb <= scale64()) by (nonlinear_arith)
                    requires 0 <= xb <= tb, tb > 0, scale64() > 0;
                assert(0 <= ((xb * scale64()) / tb) / scale32() <= scale32()) by (nonlinear_arith)
                    requires 0 <= (xb * scale64()) / tb <= scale64(), scale32() > 0, scale64() == scale32() * scale32();
            }
            let share = match I64F64::from_u64(x).checked_div(tf) {
                Some(q) => q,
                None => I64F64::zero(),
            };
            shares.push(share);
            narrow.push(share.to_i32f32());
            i = i + 1;
        }
        proof {
            assert(shares@ =~= stake_shares(stakes@, total));
            assert(narrow@ =~= narrowed(stake_shares(stakes@, total)));
            assert(narrow@.len() * scale32() <= u16::MAX * scale32()) by (nonlinear_arith)
                requires narrow@.len() <= u16::MAX, scale32() > 0;
            lemma_sum_fits_bounded(narrow@, scale32());
        }
        crate::math::inplace_normalize(&mut narrow);
        (stakes, total, shares, narrow)
    }

    /// Runs the linear epoch of subnet `netuid`, paying out `token_emission`:
    /// the founder's share is set apart, the weights are checked, incentive,
    /// trust, bonds and dividends are computed and stored, and the emission
    /// is paid out as stake. A subnet that does not exist or has no module is
    /// left alone.
    pub fn linear_epoch(&mut self, netuid: u16, token_emission: u64, subnet_stake_threshold: Percent, treasury: &TreasuryHooks)
        -> (r: Result<(), Error>)
        requires
            old(self).wf(),
            treasury.dao_treasury_distribution.parts <= 100,
            subnet_pos(old(self).subnets@, netuid) >= 0
                && old(self).subnets@[subnet_pos(old(self).subnets@, netuid)].keys@.len() > 0
                ==> epoch_defined(*old(self), old(self).subnets@[subnet_pos(old(self).subnets@, netuid)], token_emission,
                    subnet_stake_threshold),
        ensures
            r is Ok,
            final(self).wf(),
            !(subnet_pos(old(self).subnets@, netuid) >= 0
                && old(self).subnets@[subnet_pos(old(self).subnets@, netuid)].keys@.len() > 0) ==> *final(self) == *old(self),
            subnet_pos(old(self).subnets@, netuid) >= 0
                && old(self).subnets@[subnet_pos(old(self).subnets@, netuid)].keys@.len() > 0
                ==> epoch_result(*old(self), *final(self), subnet_pos(old(self).subnets@, netuid), token_emission,
                    subnet_stake_threshold, *treasury),
    {
        let idx = match self.subnet_index(netuid) {
            Some(i) => i,
            None => return Ok(()),
        };
        if self.subnets[idx].keys.len() == 0 {
            return Ok(());
        }
        let ghost start = *self;
        let ghost s = self.subnets@[idx as int];
        let ghost t = epoch_trace(start, s, token_emission);
        let out = self.compute_epoch(idx, token_emission);
        let EpochOutput { kept, incentive, trust, dividends, incentive_emission, dividends_emission, uid_keys, founder_emission } = out;
        let founder = self.subnets[idx].params.founder;
        proof {
            assert(subnet_wf(s));
        }
        let mut sub = self.subnets.remove(idx);
        sub.weights = kept;
        sub.incentive = incentive;
        match trust {
            Some(tv) => {
                sub.trust = tv;
            },
            None => {},
        }
        sub.dividends = dividends;
        proof {
            assert(rows_view(sub.weights@).len() == sub.weights@.len());
            assert(subnet_wf(sub));
        }
        let ghost sub1 = sub;
        self.subnets.insert(idx, sub);
        proof {
            assert(self.subnets@ =~= start.subnets@.update(idx as int, sub));
            assert forall|q: int| 0 <= q < start.subnets@.len() implies #[trigger] start.subnets@[q].netuid == self.subnets@[q].netuid by {}
            lemma_subnet_pos_same_netuids(start.subnets@, self.subnets@, netuid);
            assert(self.uid_of(netuid, founder) == start.uid_of(netuid, founder));
            assert forall|i: int| 0 <= i < self.subnets@.len() implies subnet_wf(#[trigger] self.subnets@[i]) by {
                if i != idx {
                    assert(subnet_wf(start.subnets@[i]));
                }
            }
            assert forall|i: int, j: int| 0 <= i < j < self.subnets@.len() implies
                #[trigger] self.subnets@[i].netuid != #[trigger] self.subnets@[j].netuid by {
                assert(start.subnets@[i].netuid != start.subnets@[j].netuid);
            }
        }
        proof {
            assert(same_shape(start.subnets@, self.subnets@));
            lemma_same_shape_treasury(start.balances.free_map(), payouts(start.ledger.model(),
                with_founder(integer_parts(incentive_emission@), netuid, start.uid_of(netuid, founder), founder_emission),
                integer_parts(dividends_emission@), uid_keys@, start.fees@, start.global.floor_stake_delegation_fee,
                uid_keys@.len() as int), start.subnets@, self.subnets@, founder_emission, *treasury, subnet_stake_threshold);
        }
        let emission = self.calculate_emissions(incentive_emission.as_slice(), dividends_emission.as_slice(), founder_emission,
            netuid, founder, uid_keys.as_slice(), subnet_stake_threshold, treasury);
        let ghost mid = *self;
        let mut sub = self.subnets.remove(idx);
        sub.emission = emission;
        proof {
            assert(sub == (SubnetState { emission: sub.emission, ..sub1 }));
            assert(subnet_wf(sub));
        }
        self.subnets.insert(idx, sub);
        proof {
            assert(self.subnets@ =~= mid.subnets@.update(idx as int, sub));
            assert forall|i: int| 0 <= i < self.subnets@.len() implies subnet_wf(#[trigger] self.subnets@[i]) by {
                if i != idx {
                    assert(subnet_wf(mid.subnets@[i]));
                }
            }
            assert forall|i: int, j: int| 0 <= i < j < self.subnets@.len() implies
                #[trigger] self.subnets@[i].netuid != #[trigger] self.subnets@[j].netuid by {
                assert(mid.subnets@[i].netuid != mid.subnets@[j].netuid);
            }
        }
        Ok(())
    }

    /// Computes the epoch of subnet number `idx`, which has modules, paying
    /// out `token_emission`; nothing is stored.
    fn compute_epoch(&self, idx: usize, token_emission: u64) -> (r: EpochOutput)
        requires
            self.wf(),
            idx < self.subnets@.len(),
            self.subnets@[idx as int].keys@.len() > 0,
            epoch_computes(*self, self.subnets@[idx as int], token_emission),
        ensures
            ({
                let s = self.subnets@[idx as int];
                let t = epoch_trace(*self, s, token_emission);
                &&& rows_view(r.kept@) == t.kept
                &&& r.incentive@ == proportions(t.incentive)
                &&& (s.trust_ratio > 0 ==> (r.trust matches Some(v) && v@ == proportions(t.trust)))
                &&& (s.trust_ratio == 0 ==> r.trust is None)
                &&& r.dividends@ == proportions(t.dividends)
                &&& r.incentive_emission@ == t.incentive_emission
                &&& r.dividends_emission@ == t.dividends_emission
                &&& r.uid_keys@ == t.uid_keys
                &&& r.founder_emission == t.founder_emission
            }),
    {
        let s = &self.subnets[idx];
        let ghost t = epoch_trace(*self, *s, token_emission);
        proof {
            assert(subnet_wf(self.subnets@[idx as int]));
        }
        let n = s.keys.len() as u16;
        let (te, fe) = calculate_founder_emission(s.params.founder_share, token_emission);
        proof {
            assert forall|u: int| 0 <= u < s.keys@.len() implies
                #[trigger] get_or_zero(self.ledger.model().module_stakes, s.keys@[u]) <= i64::MAX by {
                assert(t.stakes[u] == get_or_zero(self.ledger.model().module_stakes, s.keys@[u]));
            }
        }
        let (stakes, total, stake64, stake) = self.epoch_stake(&s.keys);
        assert(stakes@ == t.stakes);
        let limits = WeightLimits {
            max_weight_age: s.params.max_weight_age,
            min_allowed_weights: s.params.min_allowed_weights,
            max_allowed_weights: s.params.max_allowed_weights,
            min_weight_stake: self.global.min_weight_stake,
        };
        proof {
            assert(limits == t.limits);
            assert(stake64@ == t.stake64);
            assert(total == t.total);
            assert(n == t.n as u16);
            assert forall|u: int| 0 <= u < n implies row_sum_fits(#[trigger] consensus_row(s.weights@, s.last_update@, u,
                self.block, limits, stake64@, total, n)) by {
                assert(row_sum_fits(consensus_row(s.weights@, s.last_update@, u, self.block, t.limits, t.stake64, t.total,
                    t.n as u16)));
            }
        }
        let (kept, weights) = process_weights(s.weights.as_slice(), s.last_update.as_slice(), n, self.block, limits,
            stake64.as_slice(), total);
        assert(rows_view(weights@) == t.weights);
        let mut uids: Vec<u16> = Vec::new();
        let mut uid_keys: Vec<(u16, u64)> = Vec::new();
        let mut u: usize = 0;
        while u < s.keys.len()
            invariant
                u <= s.keys@.len(),
                s.keys@.len() <= u16::MAX,
                uids@ =~= Seq::new(u as nat, |q: int| q as u16),
                uid_keys@ =~= Seq::new(u as nat, |q: int| (q as u16, s.keys@[q])),
            decreases s.keys@.len() - u,
        {
            uids.push(u as u16);
            uid_keys.push((u as u16, s.keys[u]));
            u = u + 1;
        }
        let incentive0 = compute_incentive(weights.as_slice(), stake.as_slice(), uids.as_slice(), n);
        let mut trust_out: Option<Vec<u16>> = None;
        let incentive = if s.trust_ratio > 0 {
            let trust = compute_trust(weights.as_slice(), stake.as_slice(), s.params.min_validator_stake, n);
            trust_out = Some(to_proportions(&trust));
            mix_incentive(&incentive0, &trust, s.trust_ratio)
        } else {
            incentive0
        };
        proof {
            crate::epoch::lemma_raw_incentive_len(t.weights, t.stake, t.uids, t.n);
            crate::epoch::lemma_trust_rows_len(t.weights, t.stake, s.params.min_validator_stake, t.n);
        }
        assert(incentive@ == t.incentive);
        assert(incentive@.len() == n);
        let incentive_u16 = to_proportions(&incentive);
        let bonds = match compute_bonds_delta(weights.as_slice(), stake.as_slice()) {
            Ok(b) => b,
            Err(_) => {
                proof {
                    assert(crate::epoch::rows_have_stake(rows_view(weights@), stake@));
                }
                return EpochOutput {
                    kept,
                    incentive: incentive_u16,
                    trust: trust_out,
                    dividends: Vec::new(),
                    incentive_emission: Vec::new(),
                    dividends_emission: Vec::new(),
                    uid_keys,
                    founder_emission: fe,
                };
            },
        };
        assert(rows_view(bonds@) == t.bonds);
        proof {
            assert(columns_within(rows_view(bonds@), incentive@.len() as int)) by {
                assert forall|i: int, k: int| 0 <= i < rows_view(bonds@).len() && 0 <= k < rows_view(bonds@)[i].len()
                    implies #[trigger] rows_view(bonds@)[i][k].0 <= incentive@.len() by {
                    assert(rows_view(bonds@)[i][k].0 == t.weights[i][k].0);
                    assert(t.weights[i][k].0 <= t.n);
                }
            }
            assert forall|k: int| 0 <= k < uids@.len() implies #[trigger] uids@[k] <= incentive@.len() by {
                assert(uids@[k] == k as u16);
            }
        }
        let (div_fixed, dividends) = match compute_dividends(bonds.as_slice(), incentive.as_slice(), uids.as_slice()) {
            Ok(d) => d,
            Err(_) => {
                return EpochOutput {
                    kept,
                    incentive: incentive_u16,
                    trust: trust_out,
                    dividends: Vec::new(),
                    incentive_emission: Vec::new(),
                    dividends_emission: Vec::new(),
                    uid_keys,
                    founder_emission: fe,
                };
            },
        };
        let (ie, de) = calculate_emission_ratios(incentive.as_slice(), dividends.as_slice(), te, s.params.incentive_ratio);
        proof {
            assert(div_fixed@ =~= proportions(t.dividends));
        }
        EpochOutput {
            kept,
            incentive: incentive_u16,
            trust: trust_out,
            dividends: div_fixed,
            incentive_emission: ie,
            dividends_emission: de,
            uid_keys,
            founder_emission: fe,
        }
    }
}

} // verus!
