//! What happens to each subnet at every block: the registration burn
//! adjusts at the end of each interval, emission accumulates, and the
//! subnet's epoch runs when its tempo comes round.
use vstd::prelude::*;
use crate::burn::GeneralBurnConfiguration;
use crate::errors::Error;
use crate::fixed::{I110F18, lemma_div_cancel, sat128, scale18, trunc_div};
use crate::linear::{epoch_defined, epoch_result, epoch_trace, sat_sum};
use crate::ledger::{get_or_zero, sat_add};
use crate::percent::Percent;
use crate::state::SubnetState;
use crate::state::{subnet_pos, subnet_wf, Subspace};
use crate::emission::{integer_parts, payouts, with_founder};
use crate::treasury::{lemma_same_shape_treasury, same_shape, TreasuryHooks};

verus! {

/// Blocks until the next epoch of subnet `netuid` with tempo `tempo` at
/// block `block_number`; 1000 when the tempo is zero.
pub open spec fn spec_blocks_until_next_epoch(netuid: u16, tempo: u16, block_number: u64) -> u64 {
    if tempo == 0 {
        1000
    } else {
        let b = if block_number + netuid > u64::MAX { u64::MAX as int } else { block_number + netuid };
        ((b as int) % (tempo as int)) as u64
    }
}

/// Blocks until the next epoch of subnet `netuid` with tempo `tempo` at
/// block `block_number`; 1000 when the tempo is zero.
pub fn blocks_until_next_epoch(netuid: u16, tempo: u16, block_number: u64) -> (r: u64)
    ensures
        r == spec_blocks_until_next_epoch(netuid, tempo, block_number),
{
    if tempo == 0 {
        return 1000;
    }
    block_number.saturating_add(netuid as u64) % (tempo as u64)
}

/// `I110F18(x)` for a whole number `x`, as a bit pattern.
pub open spec fn fix18(x: int) -> int {
    x * scale18()
}

/// The burn the adjustment moves towards: the current burn scaled by how
/// the registrations of the interval compare with the target.
pub open spec fn target_burn_bits(current_burn: u64, registrations: u16, target: u16) -> int {
    let regs = if registrations + target > u16::MAX { u16::MAX as int } else { registrations + target };
    let twice = if target + target > u16::MAX { u16::MAX as int } else { target + target };
    let a = fix18(current_burn as int);
    let b = fix18(regs);
    let p = if i128::MIN <= (a * b) / scale18() <= i128::MAX { (a * b) / scale18() } else { 0 };
    let d = fix18(twice);
    if d != 0 && i128::MIN <= trunc_div(p * scale18(), d) <= i128::MAX { trunc_div(p * scale18(), d) } else { 0 }
}

/// The smoothing factor `alpha / u64::MAX` as a bit pattern.
pub open spec fn alpha_bits(alpha: u64) -> int {
    trunc_div(fix18(alpha as int) * scale18(), fix18(u64::MAX as int))
}

/// The next burn before clamping: `alpha * current + (1 - alpha) * target`,
/// each product that does not fit giving zero, the sum saturating.
pub open spec fn next_burn_bits(current_burn: u64, registrations: u16, target: u16, alpha: u64) -> int {
    let al = alpha_bits(alpha);
    let c = fix18(current_burn as int);
    let x = if i128::MIN <= (al * c) / scale18() <= i128::MAX { (al * c) / scale18() } else { 0 };
    let om = sat128(scale18() - al);
    let t = target_burn_bits(current_burn, registrations, target);
    let y = if i128::MIN <= (om * t) / scale18() <= i128::MAX { (om * t) / scale18() } else { 0 };
    sat128(x + y)
}

/// The adjusted burn: the next burn clamped into `[min_burn, max_burn]`.
pub open spec fn adjusted_burn(current_burn: u64, registrations: u16, target: u16, alpha: u64, min_burn: u64, max_burn: u64) -> u64 {
    let next = next_burn_bits(current_burn, registrations, target, alpha);
    if next >= fix18(max_burn as int) {
        max_burn
    } else if next <= fix18(min_burn as int) {
        min_burn
    } else {
        (next / scale18()) as u64
    }
}

/// Moves the burn towards the current burn scaled by the ratio of this
/// interval's registrations (plus the target) to twice the target, smoothed
/// by `alpha / u64::MAX`, and keeps it within `[min_burn, max_burn]`.
pub fn adjust_burn(current_burn: u64, registrations_this_interval: u16, target_registrations_per_interval: u16,
    adjustment_alpha: u64, min_burn: u64, max_burn: u64) -> (r: u64)
    ensures
        r == adjusted_burn(current_burn, registrations_this_interval, target_registrations_per_interval, adjustment_alpha,
            min_burn, max_burn),
{
    let regs = registrations_this_interval.saturating_add(target_registrations_per_interval);
    let twice = target_registrations_per_interval.saturating_add(target_registrations_per_interval);
    let updated = match I110F18::from_u64(current_burn).checked_mul(I110F18::from_u64(regs as u64)) {
        Some(v) => v,
        None => I110F18 { bits: 0 },
    };
    let updated = match updated.checked_div(I110F18::from_u64(twice as u64)) {
        Some(v) => v,
        None => I110F18 { bits: 0 },
    };
    let ghost al = alpha_bits(adjustment_alpha);
    proof {
        let a = adjustment_alpha as int;
        assert(0 <= a * scale18() * scale18() <= u64::MAX * scale18() * scale18()) by (nonlinear_arith)
            requires 0 <= a <= u64::MAX, scale18() > 0;
        assert(trunc_div(fix18(a) * scale18(), fix18(u64::MAX as int)) == (a * scale18() * scale18()) / (u64::MAX * scale18()));
        assert(0 <= (a * scale18() * scale18()) / (u64::MAX * scale18()) <= scale18()) by (nonlinear_arith)
            requires 0 <= a <= u64::MAX, scale18() > 0;
    }
    let alpha = match I110F18::from_u64(adjustment_alpha).checked_div(I110F18::from_u64(u64::MAX)) {
        Some(v) => v,
        None => I110F18 { bits: 0 },
    };
    let x = match alpha.checked_mul(I110F18::from_u64(current_burn)) {
        Some(v) => v,
        None => I110F18 { bits: 0 },
    };
    let one = I110F18 { bits: 0x4_0000 };
    let y = match one.saturating_sub(alpha).checked_mul(updated) {
        Some(v) => v,
        None => I110F18 { bits: 0 },
    };
    let next = x.saturating_add(y);
    if next.bits >= I110F18::from_u64(max_burn).bits {
        max_burn
    } else if next.bits <= I110F18::from_u64(min_burn).bits {
        min_burn
    } else {
        proof {
            assert(next.bits < max_burn * scale18());
            assert(0 <= next.bits as int / scale18() <= u64::MAX) by (nonlinear_arith)
                requires (min_burn as int) * scale18() < next.bits < (max_burn as int) * scale18(), 0 <= min_burn, max_burn <= u64::MAX,
                    scale18() > 0;
        }
        next.to_u64()
    }
}

/// The adjusted burn always lies within `[min_burn, max_burn]` when the
/// bounds are in order.
pub proof fn adjusted_burn_within_bounds(current_burn: u64, registrations: u16, target: u16, alpha: u64, min_burn: u64,
    max_burn: u64)
    requires
        min_burn <= max_burn,
    ensures
        min_burn <= adjusted_burn(current_burn, registrations, target, alpha, min_burn, max_burn) <= max_burn,
{
    let next = next_burn_bits(current_burn, registrations, target, alpha);
    if !(next >= fix18(max_burn as int)) && !(next <= fix18(min_burn as int)) {
        assert((min_burn as int) <= next / scale18() <= (max_burn as int)) by (nonlinear_arith)
            requires (min_burn as int) * scale18() < next < (max_burn as int) * scale18(), scale18() > 0;
    }
}

/// The next burn before clamping is `alpha * current + (1 - alpha) * current
/// * regs / twice` with `alpha = adjustment_alpha / u64::MAX`, `regs` the
/// registrations plus the target and `twice` twice the target (each a
/// saturating `u16` sum), up to the fixed-point rounding: scaled by
/// `2^18 * u64::MAX * twice`, it lies within `(current + 2) * u64::MAX *
/// twice` below and `current * regs * u64::MAX` above the exact value. A burn
/// strictly between the bounds is the integer part of that next burn; so
/// with `alpha` one half the burn moves halfway to the target burn.
pub proof fn adjusted_burn_smooths_towards_target(current_burn: u64, registrations: u16, target: u16, alpha: u64,
    min_burn: u64, max_burn: u64)
    requires
        target > 0,
    ensures
        ({
            let c = current_burn as int;
            let a = alpha as int;
            let m = u64::MAX as int;
            let p = if registrations + target > u16::MAX { u16::MAX as int } else { registrations + target };
            let q = if target + target > u16::MAX { u16::MAX as int } else { target + target };
            let exact = 0x4_0000 * (a * c * q + (m - a) * c * p);
            let next = next_burn_bits(current_burn, registrations, target, alpha);
            let r = adjusted_burn(current_burn, registrations, target, alpha, min_burn, max_burn) as int;
            &&& exact - (c + 2) * m * q <= next * m * q <= exact + c * p * m
            &&& min_burn < r < max_burn ==> r * 0x4_0000 <= next < r * 0x4_0000 + 0x4_0000
        }),
{
    let c = current_burn as int;
    let a = alpha as int;
    let m = u64::MAX as int;
    let sc = scale18();
    let p = if registrations + target > u16::MAX { u16::MAX as int } else { registrations + target };
    let q = if target + target > u16::MAX { u16::MAX as int } else { target + target };
    assert(1 <= q <= 0xffff && 0 <= p <= 0xffff);
    // The target burn.
    assert(0 <= c * p <= 0xffff_ffff_ffff_ffff * 0xffff) by (nonlinear_arith)
        requires 0 <= c <= 0xffff_ffff_ffff_ffff, 0 <= p <= 0xffff;
    assert((c * sc * (p * sc)) / sc == c * p * sc) by (nonlinear_arith)
        requires sc > 0;
    assert(fix18(c) * fix18(p) == c * sc * (p * sc));
    let cps = c * p * sc;
    assert(0 <= cps <= 0xffff_ffff_ffff_ffff * 0xffff * 0x4_0000) by (nonlinear_arith)
        requires cps == c * p * sc, sc == 0x4_0000, 0 <= c * p <= 0xffff_ffff_ffff_ffff * 0xffff;
    assert(0 <= cps * sc) by (nonlinear_arith) requires cps >= 0, sc > 0;
    lemma_div_cancel(cps, q, sc);
    let tb = cps / q;
    assert(trunc_div(cps * sc, fix18(q)) == tb);
    assert(0 <= tb <= cps) by (nonlinear_arith) requires tb == cps / q, cps >= 0, q >= 1;
    assert(target_burn_bits(current_burn, registrations, target) == tb);
    vstd::arithmetic::div_mod::lemma_fundamental_div_mod(cps, q);
    vstd::arithmetic::div_mod::lemma_mod_bound(cps, q);
    assert(tb * q <= cps < tb * q + q);
    // The smoothing factor.
    assert(0 <= a * sc) by (nonlinear_arith) requires a >= 0, sc > 0;
    lemma_div_cancel(a * sc, m, sc);
    assert(fix18(a) * sc == (a * sc) * sc);
    assert(m * sc == fix18(m));
    let al = (a * sc) / m;
    assert(alpha_bits(alpha) == al);
    vstd::arithmetic::div_mod::lemma_fundamental_div_mod(a * sc, m);
    vstd::arithmetic::div_mod::lemma_mod_bound(a * sc, m);
    assert(al * m <= a * sc < al * m + m);
    assert(0 <= al <= sc) by (nonlinear_arith) requires al * m <= a * sc, a * sc < al * m + m, 0 <= a <= m, m > 0, sc > 0;
    // The two terms.
    assert((al * (c * sc)) / sc == al * c) by (nonlinear_arith) requires sc > 0;
    assert(al * fix18(c) == al * (c * sc));
    assert(0 <= al * c <= 0x4_0000 * 0xffff_ffff_ffff_ffff) by (nonlinear_arith)
        requires 0 <= al <= 0x4_0000, 0 <= c <= 0xffff_ffff_ffff_ffff;
    let om = sc - al;
    assert(sat128(sc - al) == om);
    assert(0 <= om * tb <= 0x4_0000 * (0xffff_ffff_ffff_ffff * 0xffff * 0x4_0000)) by (nonlinear_arith)
        requires 0 <= om <= 0x4_0000, 0 <= tb <= 0xffff_ffff_ffff_ffff * 0xffff * 0x4_0000;
    let y = (om * tb) / sc;
    assert(0 <= y <= om * tb) by (nonlinear_arith) requires y == (om * tb) / sc, om * tb >= 0, sc > 0;
    vstd::arithmetic::div_mod::lemma_fundamental_div_mod(om * tb, sc);
    vstd::arithmetic::div_mod::lemma_mod_bound(om * tb, sc);
    assert(y * sc <= om * tb < y * sc + sc);
    let next = al * c + y;
    assert(next_burn_bits(current_burn, registrations, target, alpha) == next);
    // Upper bound.
    let mq = m * q;
    assert(mq > 0) by (nonlinear_arith) requires m > 0, q > 0, mq == m * q;
    assert(al * c * mq <= sc * a * c * q) by (nonlinear_arith)
        requires al * m <= a * sc, c >= 0, q >= 0, mq == m * q;
    assert(om * m <= sc * (m - a) + m) by (nonlinear_arith)
        requires a * sc < al * m + m, om == sc - al;
    assert(y * sc * mq <= om * tb * mq) by (nonlinear_arith)
        requires y * sc <= om * tb, mq > 0;
    assert(om * tb * mq <= (sc * (m - a) + m) * (tb * q)) by (nonlinear_arith)
        requires om * m <= sc * (m - a) + m, tb >= 0, mq == m * q, q > 0;
    assert(sc * (m - a) + m >= 0) by (nonlinear_arith) requires a <= m, sc > 0, m > 0;
    assert((sc * (m - a) + m) * (tb * q) <= (sc * (m - a) + m) * cps) by (nonlinear_arith)
        requires tb * q <= cps, sc * (m - a) + m >= 0;
    assert(y * mq <= (sc * (m - a) + m) * c * p) by (nonlinear_arith)
        requires y * sc * mq <= (sc * (m - a) + m) * cps, cps == c * p * sc, sc > 0;
    let exact = 0x4_0000 * (a * c * q + (m - a) * c * p);
    let x1 = al * c * mq;
    let y1 = y * mq;
    let e1 = sc * a * c * q;
    let e2 = sc * (m - a) * c * p;
    let e3 = m * c * p;
    assert(next * m * q == x1 + y1) by (nonlinear_arith)
        requires next == al * c + y, mq == m * q, x1 == al * c * mq, y1 == y * mq;
    assert(exact == e1 + e2) by (nonlinear_arith)
        requires sc == 0x4_0000, exact == 0x4_0000 * (a * c * q + (m - a) * c * p), e1 == sc * a * c * q,
            e2 == sc * (m - a) * c * p;
    assert((sc * (m - a) + m) * c * p == e2 + e3) by (nonlinear_arith)
        requires e2 == sc * (m - a) * c * p, e3 == m * c * p;
    assert(c * p * m == e3) by (nonlinear_arith) requires e3 == m * c * p;
    assert(next * m * q <= exact + c * p * m);
    // Lower bound.
    assert(al * c * mq >= sc * a * c * q - c * mq) by (nonlinear_arith)
        requires a * sc < al * m + m, c >= 0, q >= 0, mq == m * q;
    assert(om * m >= sc * (m - a)) by (nonlinear_arith)
        requires al * m <= a * sc, om == sc - al;
    assert((y + 1) * sc * mq >= om * tb * mq) by (nonlinear_arith)
        requires om * tb < y * sc + sc, mq > 0;
    assert(om * tb * mq >= sc * (m - a) * (tb * q)) by (nonlinear_arith)
        requires om * m >= sc * (m - a), tb >= 0, mq == m * q, q > 0;
    assert(sc * (m - a) >= 0) by (nonlinear_arith) requires a <= m, sc > 0;
    assert(sc * (m - a) * (tb * q) >= sc * (m - a) * (cps - q)) by (nonlinear_arith)
        requires cps < tb * q + q, sc * (m - a) >= 0;
    assert((y + 1) * mq >= (m - a) * (cps - q)) by (nonlinear_arith)
        requires (y + 1) * sc * mq >= sc * (m - a) * (cps - q), sc > 0;
    assert(y * mq >= sc * (m - a) * c * p - 2 * mq) by (nonlinear_arith)
        requires (y + 1) * mq >= (m - a) * (cps - q), cps == c * p * sc, mq == m * q, 0 <= a <= m, q > 0;
    assert((c + 2) * m * q == c * mq + 2 * mq) by (nonlinear_arith) requires mq == m * q;
    assert(next * m * q >= exact - (c + 2) * m * q);
    // The clamped burn.
    let r = adjusted_burn(current_burn, registrations, target, alpha, min_burn, max_burn) as int;
    if min_burn < r < max_burn {
        assert(!(next >= fix18(max_burn as int)) && !(next <= fix18(min_burn as int)));
        assert((min_burn as int) <= next / sc <= (max_burn as int)) by (nonlinear_arith)
            requires (min_burn as int) * sc < next < (max_burn as int) * sc, sc > 0;
        assert(r == next / sc);
        vstd::arithmetic::div_mod::lemma_fundamental_div_mod(next, sc);
        vstd::arithmetic::div_mod::lemma_mod_bound(next, sc);
    }
}

/// The adjusted burn when block `block_number` ends an adjustment interval
/// (a zero interval never ends); `None` otherwise.
pub open spec fn burn_adjustment(block_number: u64, c: GeneralBurnConfiguration, registrations: u16, current_burn: u64)
    -> Option<u64> {
    if c.target_registrations_interval != 0 && (block_number as int) % (c.target_registrations_interval as int) == 0 {
        Some(adjusted_burn(current_burn, registrations, c.target_registrations_per_interval, c.adjustment_alpha, c.min_burn,
            c.max_burn))
    } else {
        None
    }
}

/// The adjusted burn at the end of an adjustment interval (see
/// [`adjust_burn`]); `None` when block `block_number` ends none.
pub fn adjust_burn_parameters(block_number: u64, config: &GeneralBurnConfiguration, registrations_this_interval: u16,
    current_burn: u64) -> (r: Option<u64>)
    ensures
        r == burn_adjustment(block_number, *config, registrations_this_interval, current_burn),
{
    if config.target_registrations_interval == 0 || block_number % (config.target_registrations_interval as u64) != 0 {
        return None;
    }
    Some(adjust_burn(current_burn, registrations_this_interval, config.target_registrations_per_interval,
        config.adjustment_alpha, config.min_burn, config.max_burn))
}

/// What a subnet's step did about its epoch.
#[derive(Clone, Copy, Debug, PartialEq, Eq, Structural)]
pub enum EpochOutcome {
    /// The subnet's tempo has not come round.
    NotDue,
    /// The linear epoch ran and paid out the pending emission.
    Linear,
    /// The subnet holds enough of the stake for consensus, which is left to
    /// the runtime's consensus module; the pending emission stays until it
    /// has run.
    ConsensusDue,
    /// The subnet holds too little of the stake; its pending emission is dropped.
    Skipped,
}

/// The stake counters of the modules of subnet `s`, summed (saturating).
pub open spec fn subnet_stake(p: Subspace, s: SubnetState) -> u64 {
    sat_sum(s.keys@.map_values(|k: u64| get_or_zero(p.ledger.model().module_stakes, k)))
}

/// Whether a subnet with `subnet_stake` out of `total_stake` reaches the
/// stake threshold for consensus: its share in whole percent (truncated to
/// a byte) is at least the threshold.
pub open spec fn enough_stake_for_consensus(subnet_stake: u64, total_stake: u128, threshold: Percent) -> bool {
    total_stake != 0 && {
        let pct = ((subnet_stake * 100) / (total_stake as int)) as u8;
        threshold.parts <= (if pct > 100 { 100 } else { pct })
    }
}

/// Whether a subnet with `subnet_stake` out of `total_stake` reaches the
/// stake threshold for consensus (see [`enough_stake_for_consensus`]).
pub fn has_enough_stake_for_consensus(subnet_stake: u64, total_stake: u128, threshold: Percent) -> (r: bool)
    ensures
        r == enough_stake_for_consensus(subnet_stake, total_stake, threshold),
{
    if total_stake == 0 {
        return false;
    }
    let pct: u128 = (subnet_stake as u128 * 100) / total_stake;
    threshold.parts <= Percent::from_parts(pct as u8).parts
}

/// Whether subnet `b` is subnet `a` prepared for its step: burn adjusted
/// at the end of an interval and the new emission queued.
pub open spec fn step_prepared(a: SubnetState, b: SubnetState, block_number: u64, new_emission: u64) -> bool {
    let (burn, regs) = match burn_adjustment(block_number, a.params.module_burn_config, a.registrations_this_interval, a.burn) {
        Some(x) => (x, 0u16),
        None => (a.burn, a.registrations_this_interval),
    };
    b == (SubnetState { burn: burn, registrations_this_interval: regs, pending_emission: sat_add(a.pending_emission, new_emission), ..a })
}

/// Whether `b` is `a` after the step of subnet `netuid` at block
/// `block_number` with outcome `outcome` (see [`Subspace::subnet_step`]).
pub open spec fn subnet_stepped(a: Subspace, b: Subspace, outcome: EpochOutcome, netuid: u16, block_number: u64,
    threshold: Percent, total_stake: u128, new_emission: u64, treasury: TreasuryHooks) -> bool {
    if subnet_pos(a.subnets@, netuid) < 0 {
        outcome == EpochOutcome::NotDue && b == a
    } else {
        exists|mid: Subspace| #![trigger mid.wf()] {
            let pos = subnet_pos(a.subnets@, netuid);
            let s = a.subnets@[pos];
            let pending = sat_add(s.pending_emission, new_emission);
            &&& step_prepared(s, mid.subnets@[pos], block_number, new_emission)
            &&& mid.subnets@ == a.subnets@.update(pos, mid.subnets@[pos])
            &&& mid.wf()
            &&& mid.ledger == a.ledger
            &&& mid.balances == a.balances
            &&& mid.fees == a.fees
            &&& mid.config == a.config
            &&& mid.global == a.global
            &&& mid.block == a.block
            &&& mid.registrations_per_block == a.registrations_per_block
            &&& mid.min_fees == a.min_fees
            &&& mid.subnet_gaps == a.subnet_gaps
            &&& mid.subnet_burn == a.subnet_burn
            &&& mid.subnet_burn_config == a.subnet_burn_config
            &&& mid.subnet_registrations_this_interval == a.subnet_registrations_this_interval
            &&& mid.events == a.events
            &&& if spec_blocks_until_next_epoch(netuid, s.params.tempo, block_number) > 0 {
                outcome == EpochOutcome::NotDue && b == mid
            } else if netuid == 0 {
                &&& outcome == EpochOutcome::Linear
                &&& s.keys@.len() > 0 ==> exists|ep: Subspace| #![trigger ep.wf()] epoch_result(mid, ep, pos, pending, threshold, treasury)
                    && ep.wf() && b == (Subspace { subnets: b.subnets, ..ep })
                    && b.subnets@ == ep.subnets@.update(pos, SubnetState { pending_emission: 0, ..ep.subnets@[pos] })
                &&& s.keys@.len() == 0 ==> b.subnets@ == mid.subnets@.update(pos,
                    SubnetState { pending_emission: 0, ..mid.subnets@[pos] })
                    && b == (Subspace { subnets: b.subnets, ..mid })
            } else if enough_stake_for_consensus(subnet_stake(a, s), total_stake, threshold) {
                outcome == EpochOutcome::ConsensusDue && b == mid
            } else {
                &&& outcome == EpochOutcome::Skipped
                &&& b.subnets@ == mid.subnets@.update(pos, SubnetState { pending_emission: 0, ..mid.subnets@[pos] })
                &&& b == (Subspace { subnets: b.subnets, ..mid })
            }
        }
    }
}

impl Subspace {
    /// The stake counters of the modules of subnet number `idx`, summed (saturating).
    pub fn get_total_subnet_stake(&self, idx: usize) -> (r: u64)
        requires
            idx < self.subnets@.len(),
        ensures
            r == subnet_stake(*self, self.subnets@[idx as int]),
    {
        let keys = &self.subnets[idx].keys;
        let ghost st = keys@.map_values(|k: u64| get_or_zero(self.ledger.model().module_stakes, k));
        let mut sum: u64 = 0;
        let mut i: usize = 0;
        while i < keys.len()
            invariant
                i <= keys@.len(),
                st == keys@.map_values(|k: u64| get_or_zero(self.ledger.model().module_stakes, k)),
                sum == sat_sum(st.take(i as int)),
            decreases keys@.len() - i,
        {
            proof {
                assert(st.take(i + 1).drop_last() =~= st.take(i as int));
            }
            sum = sum.saturating_add(self.ledger.get_module_stake(keys[i]));
            i = i + 1;
        }
        proof {
            assert(st.take(keys@.len() as int) =~= st);
        }
        sum
    }

    /// The step of subnet `netuid` at block `block_number`: the module burn
    /// adjusts at the end of its interval, `new_emission` joins the pending
    /// emission, and when the subnet's tempo comes round its epoch is
    /// settled: the root network (netuid zero) runs the linear epoch on the
    /// pending emission; another subnet is due for consensus when it holds
    /// at least `subnet_stake_threshold` of `total_stake`, and otherwise its
    /// pending emission is dropped. A subnet that does not exist is left alone.
    pub fn subnet_step(&mut self, netuid: u16, block_number: u64, subnet_stake_threshold: Percent, total_stake: u128,
        new_emission: u64, treasury: &TreasuryHooks) -> (r: Result<EpochOutcome, Error>)
        requires
            old(self).wf(),
            treasury.dao_treasury_distribution.parts <= 100,
            subnet_pos(old(self).subnets@, netuid) >= 0 && netuid == 0 && {
                let s = old(self).subnets@[subnet_pos(old(self).subnets@, netuid)];
                spec_blocks_until_next_epoch(netuid, s.params.tempo, block_number) == 0 && s.keys@.len() > 0
            } ==> {
                let s = old(self).subnets@[subnet_pos(old(self).subnets@, netuid)];
                epoch_defined(*old(self), s, sat_add(s.pending_emission, new_emission), subnet_stake_threshold)
            },
        ensures
            final(self).wf(),
            r is Ok,
            subnet_stepped(*old(self), *final(self), r->Ok_0, netuid, block_number, subnet_stake_threshold, total_stake,
                new_emission, *treasury),
    {
        let idx = match self.subnet_index(netuid) {
            Some(i) => i,
            None => return Ok(EpochOutcome::NotDue),
        };
        let ghost a = *self;
        let subnet_stake_amount = self.get_total_subnet_stake(idx);
        let mut sub = self.subnets.remove(idx);
        match adjust_burn_parameters(block_number, &sub.params.module_burn_config, sub.registrations_this_interval, sub.burn) {
            Some(b) => {
                sub.burn = b;
                sub.registrations_this_interval = 0;
            },
            None => {},
        }
        sub.pending_emission = sub.pending_emission.saturating_add(new_emission);
        let pending = sub.pending_emission;
        let tempo = sub.params.tempo;
        let n = sub.keys.len();
        self.subnets.insert(idx, sub);
        let ghost mid = *self;
        proof {
            assert(self.subnets@ =~= a.subnets@.update(idx as int, sub));
            assert(subnet_wf(a.subnets@[idx as int]));
            assert forall|k: int| 0 <= k < self.subnets@.len() implies subnet_wf(#[trigger] self.subnets@[k]) by {
                if k != idx {
                    assert(subnet_wf(a.subnets@[k]));
                }
            }
            assert forall|k: int, j: int| 0 <= k < j < self.subnets@.len() implies
                #[trigger] self.subnets@[k].netuid != #[trigger] self.subnets@[j].netuid by {
                assert(a.subnets@[k].netuid != a.subnets@[j].netuid);
            }
            assert(step_prepared(a.subnets@[idx as int], mid.subnets@[idx as int], block_number, new_emission));
            assert(mid.subnets@ == a.subnets@.update(idx as int, mid.subnets@[idx as int]));
            assert(mid.wf());
        }
        if blocks_until_next_epoch(netuid, tempo, block_number) > 0 {
            return Ok(EpochOutcome::NotDue);
        }
        let outcome = if netuid == 0 {
            proof {
                crate::state::lemma_subnet_pos_same_netuids(a.subnets@, mid.subnets@, netuid);
                if n > 0 {
                    let s = a.subnets@[idx as int];
                    let s2 = mid.subnets@[idx as int];
                    assert(a.uid_of(netuid, s.params.founder) == mid.uid_of(netuid, s2.params.founder));
                    assert(epoch_trace(mid, s2, pending) == epoch_trace(a, s, pending));
                    let t = epoch_trace(a, s, pending);
                    assert(same_shape(a.subnets@, mid.subnets@)) by {
                        assert forall|k: int| 0 <= k < a.subnets@.len() implies (#[trigger] a.subnets@[k]).netuid == mid.subnets@[k].netuid
                            && a.subnets@[k].keys@ == mid.subnets@[k].keys@ && a.subnets@[k].params.founder == mid.subnets@[k].params.founder by {
                            if k != idx {
                                assert(a.subnets@[k] == mid.subnets@[k]);
                            }
                        }
                    }
                    lemma_same_shape_treasury(a.balances.free_map(), payouts(a.ledger.model(),
                        with_founder(integer_parts(t.incentive_emission), s.netuid, a.uid_of(s.netuid, s.params.founder), t.founder_emission),
                        integer_parts(t.dividends_emission), t.uid_keys, a.fees@, a.global.floor_stake_delegation_fee,
                        t.uid_keys.len() as int), a.subnets@, mid.subnets@, t.founder_emission, *treasury, subnet_stake_threshold);
                    assert(epoch_defined(mid, s2, pending, subnet_stake_threshold));
                }
            }
            let _ = self.linear_epoch(netuid, pending, subnet_stake_threshold, treasury);
            EpochOutcome::Linear
        } else if has_enough_stake_for_consensus(subnet_stake_amount, total_stake, subnet_stake_threshold) {
            return Ok(EpochOutcome::ConsensusDue);
        } else {
            EpochOutcome::Skipped
        };
        let ghost ep = *self;
        let mut sub = self.subnets.remove(idx);
        sub.pending_emission = 0;
        self.subnets.insert(idx, sub);
        proof {
            assert(self.subnets@ =~= ep.subnets@.update(idx as int, sub));
            assert forall|k: int| 0 <= k < self.subnets@.len() implies subnet_wf(#[trigger] self.subnets@[k]) by {
                assert(subnet_wf(ep.subnets@[k]));
            }
            assert forall|k: int, j: int| 0 <= k < j < self.subnets@.len() implies
                #[trigger] self.subnets@[k].netuid != #[trigger] self.subnets@[j].netuid by {
                assert(ep.subnets@[k].netuid != ep.subnets@[j].netuid);
            }
        }
        Ok(outcome)
    }

    /// Adjusts the subnet registration burn and the module registration
    /// burn of every subnet at the end of their intervals (resetting the
    /// interval's registration counts), and resets the registrations of the block.
    pub fn adjust_registration_parameters(&mut self, block_number: u64)
        requires
            old(self).wf(),
        ensures
            final(self).wf(),
            match burn_adjustment(block_number, old(self).subnet_burn_config, old(self).subnet_registrations_this_interval,
                old(self).subnet_burn) {
                Some(b) => final(self).subnet_burn == b && final(self).subnet_registrations_this_interval == 0,
                None => final(self).subnet_burn == old(self).subnet_burn
                    && final(self).subnet_registrations_this_interval == old(self).subnet_registrations_this_interval,
            },
            final(self).registrations_per_block == 0,
            final(self).subnets@.len() == old(self).subnets@.len(),
            forall|i: int| 0 <= i < old(self).subnets@.len() ==> {
                let s = #[trigger] old(self).subnets@[i];
                let t = final(self).subnets@[i];
                match burn_adjustment(block_number, s.params.module_burn_config, s.registrations_this_interval, s.burn) {
                    Some(b) => t == (crate::state::SubnetState { burn: b, registrations_this_interval: 0, ..s }),
                    None => t == s,
                }
            },
            final(self).ledger == old(self).ledger,
            final(self).balances == old(self).balances,
            final(self).fees == old(self).fees,
            final(self).config == old(self).config,
            final(self).global == old(self).global,
            final(self).block == old(self).block,
            final(self).min_fees == old(self).min_fees,
            final(self).subnet_gaps == old(self).subnet_gaps,
            final(self).subnet_burn_config == old(self).subnet_burn_config,
            final(self).events == old(self).events,
    {
        match adjust_burn_parameters(block_number, &self.subnet_burn_config, self.subnet_registrations_this_interval,
            self.subnet_burn) {
            Some(b) => {
                self.subnet_burn = b;
                self.subnet_registrations_this_interval = 0;
            },
            None => {},
        }
        self.registrations_per_block = 0;
        let ghost a = *self;
        let mut i: usize = 0;
        while i < self.subnets.len()
            invariant
                i <= self.subnets@.len(),
                self.subnets@.len() == a.subnets@.len(),
                a.wf(),
                self.wf(),
                self.ledger == a.ledger,
                self.balances == a.balances,
                self.fees == a.fees,
                self.config == a.config,
                self.global == a.global,
                self.block == a.block,
                self.min_fees == a.min_fees,
                self.subnet_gaps == a.subnet_gaps,
                self.subnet_burn_config == a.subnet_burn_config,
                self.subnet_burn == a.subnet_burn,
                self.subnet_registrations_this_interval == a.subnet_registrations_this_interval,
                self.events == a.events,
                self.registrations_per_block == a.registrations_per_block,
                forall|q: int| i <= q < a.subnets@.len() ==> #[trigger] self.subnets@[q] == a.subnets@[q],
                forall|q: int| 0 <= q < i ==> {
                    let s = #[trigger] a.subnets@[q];
                    let t = self.subnets@[q];
                    match burn_adjustment(block_number, s.params.module_burn_config, s.registrations_this_interval, s.burn) {
                        Some(b) => t == (crate::state::SubnetState { burn: b, registrations_this_interval: 0, ..s }),
                        None => t == s,
                    }
                },
            decreases a.subnets@.len() - i,
        {
            let adj = adjust_burn_parameters(block_number, &self.subnets[i].params.module_burn_config,
                self.subnets[i].registrations_this_interval, self.subnets[i].burn);
            match adj {
                Some(b) => {
                    let ghost before = *self;
                    let mut sub = self.subnets.remove(i);
                    sub.burn = b;
                    sub.registrations_this_interval = 0;
                    self.subnets.insert(i, sub);
                    proof {
                        assert(self.subnets@ =~= before.subnets@.update(i as int, sub));
                        assert forall|k: int| 0 <= k < self.subnets@.len() implies subnet_wf(#[trigger] self.subnets@[k]) by {
                            assert(subnet_wf(before.subnets@[k]));
                        }
                        assert forall|k: int, j: int| 0 <= k < j < self.subnets@.len() implies
                            #[trigger] self.subnets@[k].netuid != #[trigger] self.subnets@[j].netuid by {
                            assert(before.subnets@[k].netuid != before.subnets@[j].netuid);
                        }
                    }
                },
                None => {},
            }
            i = i + 1;
        }
    }
}

/// Whether the epoch of the root network (netuid zero), if it comes due at
/// block `block_number` and has modules, computes without overflowing (see
/// [`epoch_defined`]) with the emission of its position in `emissions`
/// added to what is pending.
pub open spec fn root_epoch_defined(p: Subspace, block_number: u64, emissions: Seq<u64>, threshold: Percent) -> bool {
    forall|i: int| 0 <= i < p.subnets@.len() && #[trigger] p.subnets@[i].netuid == 0
        && spec_blocks_until_next_epoch(0, p.subnets@[i].params.tempo, block_number) == 0
        && p.subnets@[i].keys@.len() > 0
        ==> epoch_defined(p, p.subnets@[i], sat_add(p.subnets@[i].pending_emission, emissions[i]), threshold)
}

/// A step keeps the netuids and keys of all subnets and every other
/// subnet; the step of a subnet other than the root network touches no
/// stake, fee, global parameter or block.
proof fn lemma_stepped_frame(a: Subspace, b: Subspace, outcome: EpochOutcome, netuid: u16, pos: int, block_number: u64,
    threshold: Percent, total_stake: u128, new_emission: u64, treasury: TreasuryHooks)
    requires
        a.wf(),
        0 <= pos < a.subnets@.len(),
        a.subnets@[pos].netuid == netuid,
        subnet_pos(a.subnets@, netuid) == pos,
        subnet_stepped(a, b, outcome, netuid, block_number, threshold, total_stake, new_emission, treasury),
    ensures
        b.subnets@.len() == a.subnets@.len(),
        forall|k: int| 0 <= k < a.subnets@.len() ==> (#[trigger] b.subnets@[k]).netuid == a.subnets@[k].netuid
            && b.subnets@[k].keys@ == a.subnets@[k].keys@ && b.subnets@[k].params == a.subnets@[k].params,
        forall|k: int| 0 <= k < a.subnets@.len() && k != pos ==> #[trigger] b.subnets@[k] == a.subnets@[k],
        netuid != 0 ==> b.ledger == a.ledger && b.fees == a.fees && b.global == a.global && b.block == a.block,
{
    let mid = choose|mid: Subspace| #![trigger mid.wf()] {
        let s = a.subnets@[pos];
        let pending = sat_add(s.pending_emission, new_emission);
        &&& step_prepared(s, mid.subnets@[pos], block_number, new_emission)
        &&& mid.subnets@ == a.subnets@.update(pos, mid.subnets@[pos])
        &&& mid.wf()
        &&& mid.ledger == a.ledger
        &&& mid.balances == a.balances
        &&& mid.fees == a.fees
        &&& mid.config == a.config
        &&& mid.global == a.global
        &&& mid.block == a.block
        &&& mid.registrations_per_block == a.registrations_per_block
        &&& mid.min_fees == a.min_fees
        &&& mid.subnet_gaps == a.subnet_gaps
        &&& mid.subnet_burn == a.subnet_burn
        &&& mid.subnet_burn_config == a.subnet_burn_config
        &&& mid.subnet_registrations_this_interval == a.subnet_registrations_this_interval
        &&& mid.events == a.events
        &&& if spec_blocks_until_next_epoch(netuid, s.params.tempo, block_number) > 0 {
            outcome == EpochOutcome::NotDue && b == mid
        } else if netuid == 0 {
            &&& outcome == EpochOutcome::Linear
            &&& s.keys@.len() > 0 ==> exists|ep: Subspace| #![trigger ep.wf()] epoch_result(mid, ep, pos, pending, threshold, treasury)
                && ep.wf() && b == (Subspace { subnets: b.subnets, ..ep })
                && b.subnets@ == ep.subnets@.update(pos, SubnetState { pending_emission: 0, ..ep.subnets@[pos] })
            &&& s.keys@.len() == 0 ==> b.subnets@ == mid.subnets@.update(pos,
                SubnetState { pending_emission: 0, ..mid.subnets@[pos] })
                && b == (Subspace { subnets: b.subnets, ..mid })
        } else if enough_stake_for_consensus(subnet_stake(a, s), total_stake, threshold) {
            outcome == EpochOutcome::ConsensusDue && b == mid
        } else {
            &&& outcome == EpochOutcome::Skipped
            &&& b.subnets@ == mid.subnets@.update(pos, SubnetState { pending_emission: 0, ..mid.subnets@[pos] })
            &&& b == (Subspace { subnets: b.subnets, ..mid })
        }
    };
    let s = a.subnets@[pos];
    let pending = sat_add(s.pending_emission, new_emission);
    assert(mid.subnets@[pos].keys == s.keys && mid.subnets@[pos].netuid == s.netuid && mid.subnets@[pos].params == s.params);
    if spec_blocks_until_next_epoch(netuid, s.params.tempo, block_number) == 0 && netuid == 0 && s.keys@.len() > 0 {
        let ep = choose|ep: Subspace| #![trigger ep.wf()] epoch_result(mid, ep, pos, pending, threshold, treasury)
            && ep.wf() && b == (Subspace { subnets: b.subnets, ..ep })
            && b.subnets@ == ep.subnets@.update(pos, SubnetState { pending_emission: 0, ..ep.subnets@[pos] });
        assert(ep.subnets@[pos].keys == mid.subnets@[pos].keys && ep.subnets@[pos].params == mid.subnets@[pos].params);
        assert forall|k: int| 0 <= k < a.subnets@.len() && k != pos implies #[trigger] b.subnets@[k] == a.subnets@[k] by {
            assert(ep.subnets@[k] == mid.subnets@[k]);
        }
    }
}

impl Subspace {
    /// The step of every subnet at block `block_number`: the registrations
    /// of the block are reset and each subnet, in order, takes its step (see
    /// [`Subspace::subnet_step`]) with the emission at its position in
    /// `emissions` and the total stake as it stood at the start. Returns
    /// what each step did.
    pub fn block_step(&mut self, block_number: u64, subnet_stake_threshold: Percent, emissions: &Vec<u64>,
        treasury: &TreasuryHooks) -> (r: Result<Vec<EpochOutcome>, Error>)
        requires
            old(self).wf(),
            treasury.dao_treasury_distribution.parts <= 100,
            emissions@.len() == old(self).subnets@.len(),
            root_epoch_defined(*old(self), block_number, emissions@, subnet_stake_threshold),
        ensures
            final(self).wf(),
            r is Ok,
            r->Ok_0@.len() == old(self).subnets@.len(),
            final(self).subnets@.len() == old(self).subnets@.len(),
            exists|states: Seq<Subspace>| #![trigger states.last()] {
                &&& states.len() == old(self).subnets@.len() + 1
                &&& states[0] == (Subspace { registrations_per_block: 0, ..*old(self) })
                &&& states.last() == *final(self)
                &&& forall|i: int| 0 <= i < old(self).subnets@.len() ==> subnet_stepped(states[i], #[trigger] states[i + 1],
                    r->Ok_0@[i], old(self).subnets@[i].netuid, block_number, subnet_stake_threshold,
                    old(self).ledger.total() as u128, emissions@[i], *treasury)
            },
    {
        let ghost orig = *self;
        self.registrations_per_block = 0;
        let total = self.ledger.total_stake() as u128;
        let ghost start = *self;
        proof {
            assert forall|i: int| 0 <= i < start.subnets@.len() && #[trigger] start.subnets@[i].netuid == 0
                && spec_blocks_until_next_epoch(0, start.subnets@[i].params.tempo, block_number) == 0
                && start.subnets@[i].keys@.len() > 0
                implies epoch_defined(start, start.subnets@[i], sat_add(start.subnets@[i].pending_emission, emissions@[i]),
                    subnet_stake_threshold) by {
                let s = start.subnets@[i];
                let pend = sat_add(s.pending_emission, emissions@[i]);
                assert(orig.subnets@[i].netuid == 0);
                assert(epoch_trace(start, s, pend) == epoch_trace(orig, s, pend));
                assert(start.uid_of(s.netuid, s.params.founder) == orig.uid_of(s.netuid, s.params.founder));
            }
        }
        let n = self.subnets.len();
        let ghost mut states: Seq<Subspace> = seq![start];
        let mut outcomes: Vec<EpochOutcome> = Vec::new();
        let mut i: usize = 0;
        while i < n
            invariant
                i <= n,
                n == start.subnets@.len(),
                emissions@.len() == n,
                start.wf(),
                self.wf(),
                total == start.ledger.total() as u128,
                root_epoch_defined(start, block_number, emissions@, subnet_stake_threshold),
                treasury.dao_treasury_distribution.parts <= 100,
                states.len() == i + 1,
                states[0] == start,
                states[i as int] == *self,
                outcomes@.len() == i,
                forall|k: int| 0 <= k < i ==> subnet_stepped(states[k], #[trigger] states[k + 1], outcomes@[k],
                    start.subnets@[k].netuid, block_number, subnet_stake_threshold, total, emissions@[k], *treasury),
                self.subnets@.len() == n,
                forall|k: int| 0 <= k < n ==> (#[trigger] self.subnets@[k]).netuid == start.subnets@[k].netuid
                    && self.subnets@[k].keys@ == start.subnets@[k].keys@ && self.subnets@[k].params == start.subnets@[k].params,
                forall|k: int| i <= k < n ==> #[trigger] self.subnets@[k] == start.subnets@[k],
                (forall|k: int| 0 <= k < i ==> #[trigger] start.subnets@[k].netuid != 0) ==> self.ledger == start.ledger
                    && self.fees == start.fees && self.global == start.global && self.block == start.block,
            decreases n - i,
        {
            let netuid = self.subnets[i].netuid;
            let ghost before = *self;
            proof {
                crate::state::lemma_subnet_pos_pub(self.subnets@, netuid);
                let p = subnet_pos(self.subnets@, netuid);
                if p != i {
                    if p < i {
                        assert(self.subnets@[p].netuid != self.subnets@[i as int].netuid);
                    } else {
                        assert(self.subnets@[i as int].netuid != self.subnets@[p].netuid);
                    }
                }
                assert(subnet_pos(self.subnets@, netuid) == i);
                let s = self.subnets@[i as int];
                if netuid == 0 && spec_blocks_until_next_epoch(netuid, s.params.tempo, block_number) == 0 && s.keys@.len() > 0 {
                    assert(s == start.subnets@[i as int]);
                    assert forall|k: int| 0 <= k < i implies #[trigger] start.subnets@[k].netuid != 0 by {
                        assert(start.subnets@[k].netuid != start.subnets@[i as int].netuid);
                    }
                    let pend = sat_add(s.pending_emission, emissions@[i as int]);
                    assert(epoch_defined(start, s, pend, subnet_stake_threshold));
                    crate::state::lemma_subnet_pos_same_netuids(start.subnets@, self.subnets@, netuid);
                    assert(epoch_trace(*self, s, pend) == epoch_trace(start, s, pend));
                    assert(self.uid_of(netuid, s.params.founder) == start.uid_of(netuid, s.params.founder));
                    let t = epoch_trace(start, s, pend);
                    assert(same_shape(start.subnets@, self.subnets@));
                    lemma_same_shape_treasury(start.balances.free_map(), payouts(start.ledger.model(),
                        with_founder(integer_parts(t.incentive_emission), s.netuid, start.uid_of(s.netuid, s.params.founder),
                        t.founder_emission), integer_parts(t.dividends_emission), t.uid_keys, start.fees@,
                        start.global.floor_stake_delegation_fee, t.uid_keys.len() as int), start.subnets@, self.subnets@,
                        t.founder_emission, *treasury, subnet_stake_threshold);
                }
            }
            let res = self.subnet_step(netuid, block_number, subnet_stake_threshold, total, emissions[i], treasury);
            let outcome = match res {
                Ok(o) => o,
                Err(e) => return Err(e),
            };
            proof {
                lemma_stepped_frame(before, *self, outcome, netuid, i as int, block_number, subnet_stake_threshold, total,
                    emissions@[i as int], *treasury);
                states = states.push(*self);
                if forall|k: int| 0 <= k < i + 1 ==> #[trigger] start.subnets@[k].netuid != 0 {
                    assert(start.subnets@[i as int].netuid != 0);
                }
            }
            outcomes.push(outcome);
            i = i + 1;
        }
        proof {
            assert(states.last() == *self);
        }
        Ok(outcomes)
    }
}

} // verus!
