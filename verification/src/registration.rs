//! Registering and deregistering modules: choosing which module to prune,
//! checking a registration, making room for it and adding it.
use vstd::prelude::*;
use crate::events::Event;
use crate::errors::Error;
use crate::fixed::{I110F18, div18, lemma_div_cancel, mul18, sat128, scale18, trunc_div};
use crate::ledger::{get_or_zero, stake_added};
use crate::modules::{module_dropped, subnet_dropped, vec_contains_u16};
use crate::params::{bytes_eq, as_result};
use crate::balances::debited;
use crate::params::{GovernanceConfiguration, ModuleFees, SubnetParams};
use crate::subnets::{subnet_register_error, subnet_registered};
use crate::state::{subnet_pos, subnet_wf, SubnetState, Subspace};

verus! {

/// `0.3` as an `I110F18` bit pattern (`0.3 * 2^18`, rounded to nearest).
pub const PRUNING_DIVIDEND_WEIGHT_BITS: i128 = 78643;

/// Entry `u` of `v`, zero when there is none.
pub open spec fn entry_or_zero<T>(v: Seq<T>, u: int, zero: T) -> T {
    if 0 <= u < v.len() { v[u] } else { zero }
}

/// The pruning score of module `u`: its emission split by the shares of
/// dividends and incentive, the dividend part weighted by `0.3`; zero when
/// it has neither.
pub open spec fn pruning_score(s: SubnetState, u: int) -> int {
    let e = entry_or_zero(s.emission@, u, 0u64) * scale18();
    let d = entry_or_zero(s.dividends@, u, 0u16) * scale18();
    let i = entry_or_zero(s.incentive@, u, 0u16) * scale18();
    if d == 0 && i == 0 {
        0
    } else {
        let total = sat128(d + i);
        let dividend = mul18(div18(d, total), e);
        let incentive = mul18(div18(i, total), e);
        sat128(mul18(PRUNING_DIVIDEND_WEIGHT_BITS as int, dividend) + incentive)
    }
}

/// The pruning score weighs the dividend part of a module's emission by
/// `0.3` (`78643 / 2^18`) and its incentive part in full, the parts being the
/// emission split by the shares `d / (d + i)` and `i / (d + i)` of its
/// dividends `d` and incentive `i` (each share truncated to 18 fractional
/// bits); a module with neither scores zero. So a module with dividends
/// only scores `0.3` of its emission and one with incentive only its whole
/// emission.
pub proof fn pruning_score_weighs_dividends_by_three_tenths(s: SubnetState, u: int)
    ensures
        ({
            let e = entry_or_zero(s.emission@, u, 0u64) as int;
            let d = entry_or_zero(s.dividends@, u, 0u16) as int;
            let i = entry_or_zero(s.incentive@, u, 0u16) as int;
            &&& d + i == 0 ==> pruning_score(s, u) == 0
            &&& d + i > 0 ==> pruning_score(s, u)
                == (78643 * (e * ((d * 0x4_0000) / (d + i)))) / 0x4_0000 + e * ((i * 0x4_0000) / (d + i))
            &&& d > 0 && i == 0 ==> pruning_score(s, u) == 78643 * e
            &&& d == 0 && i > 0 ==> pruning_score(s, u) == e * 0x4_0000
        }),
{
    let e = entry_or_zero(s.emission@, u, 0u64) as int;
    let d = entry_or_zero(s.dividends@, u, 0u16) as int;
    let i = entry_or_zero(s.incentive@, u, 0u16) as int;
    let sc = scale18();
    if d + i > 0 {
        let total = sat128(d * sc + i * sc);
        assert(total == (d + i) * sc) by (nonlinear_arith)
            requires sc == 0x4_0000, 0 <= d <= 0xffff, 0 <= i <= 0xffff, total == sat128(d * sc + i * sc);
        let dd = (d * sc) / (d + i);
        let ii = (i * sc) / (d + i);
        assert(0 <= d * sc * sc) by (nonlinear_arith) requires d >= 0, sc > 0;
        assert(0 <= i * sc * sc) by (nonlinear_arith) requires i >= 0, sc > 0;
        lemma_div_cancel(d * sc, d + i, sc);
        lemma_div_cancel(i * sc, d + i, sc);
        assert((d * sc) * sc == d * sc * sc) by (nonlinear_arith);
        assert((i * sc) * sc == i * sc * sc) by (nonlinear_arith);
        assert(0 <= dd <= sc) by (nonlinear_arith)
            requires dd == (d * sc) / (d + i), 0 <= d, 0 <= i, d + i > 0, sc > 0;
        assert(0 <= ii <= sc) by (nonlinear_arith)
            requires ii == (i * sc) / (d + i), 0 <= d, 0 <= i, d + i > 0, sc > 0;
        assert(trunc_div(d * sc * sc, total) == dd);
        assert(trunc_div(i * sc * sc, total) == ii);
        assert(div18(d * sc, total) == dd);
        assert(div18(i * sc, total) == ii);
        assert(0 <= e * sc <= 0xffff_ffff_ffff_ffff * sc) by (nonlinear_arith)
            requires 0 <= e <= 0xffff_ffff_ffff_ffff, sc > 0;
        assert((dd * (e * sc)) / sc == e * dd) by (nonlinear_arith)
            requires sc > 0;
        assert((ii * (e * sc)) / sc == e * ii) by (nonlinear_arith)
            requires sc > 0;
        assert(0 <= e * dd <= 0xffff_ffff_ffff_ffff * 0x4_0000) by (nonlinear_arith)
            requires 0 <= e <= 0xffff_ffff_ffff_ffff, 0 <= dd <= 0x4_0000;
        assert(0 <= e * ii <= 0xffff_ffff_ffff_ffff * 0x4_0000) by (nonlinear_arith)
            requires 0 <= e <= 0xffff_ffff_ffff_ffff, 0 <= ii <= 0x4_0000;
        assert(mul18(dd, e * sc) == e * dd);
        assert(mul18(ii, e * sc) == e * ii);
        assert(0 <= (78643 * (e * dd)) / sc <= 78643 * (e * dd)) by (nonlinear_arith)
            requires 0 <= e * dd, sc > 0;
        assert(mul18(78643, e * dd) == (78643 * (e * dd)) / sc);
        assert(78643 * (e * dd) <= 78643 * (0xffff_ffff_ffff_ffff * 0x4_0000)) by (nonlinear_arith)
            requires 0 <= e * dd <= 0xffff_ffff_ffff_ffff * 0x4_0000;
        assert(pruning_score(s, u) == sat128(mul18(78643, e * dd) + e * ii));
        assert(pruning_score(s, u) == (78643 * (e * dd)) / sc + e * ii);
        if i == 0 {
            assert(dd == sc) by (nonlinear_arith) requires dd == (d * sc) / (d + i), i == 0, d > 0, sc > 0;
            assert(ii == 0);
            assert((78643 * (e * sc)) / sc == 78643 * e) by (nonlinear_arith) requires sc > 0;
            assert(e * ii == 0) by (nonlinear_arith) requires ii == 0;
            assert(pruning_score(s, u) == 78643 * e);
        }
        if d == 0 {
            assert(ii == sc) by (nonlinear_arith) requires ii == (i * sc) / (d + i), d == 0, i > 0, sc > 0;
            assert(dd == 0);
            assert(78643 * (e * dd) == 0) by (nonlinear_arith) requires dd == 0;
            assert(pruning_score(s, u) == e * sc);
        }
    }
}

/// Whether module `u` may be pruned: past its immunity period (or immunity
/// ignored) and without a validator permit.
pub open spec fn prunable(s: SubnetState, u: int, block: u64, ignore_immunity: bool) -> bool {
    let reg = s.registration_block@[u];
    let age = if block >= reg { block - reg } else { 0 };
    &&& 0 <= u < s.keys@.len()
    &&& (ignore_immunity || age >= s.params.immunity_period)
    &&& !entry_or_zero(s.validator_permits@, u, false)
}

/// The position of uid `u` in the order the pallet walks the uids of a
/// subnet: by the low byte first, then the high byte.
pub open spec fn walk_rank(u: int) -> int {
    (u % 256) * 256 + u / 256
}

/// Whether module `u` comes before or with module `v` when choosing whom to
/// prune among modules of zero score: older registration first, then walk order.
pub open spec fn zero_before(s: SubnetState, u: int, v: int) -> bool {
    s.registration_block@[u] < s.registration_block@[v]
        || (s.registration_block@[u] == s.registration_block@[v] && walk_rank(u) <= walk_rank(v))
}

/// Whether module `u` comes before or with module `v` when choosing whom to
/// prune: lower score first, then older registration, then walk order.
pub open spec fn score_before(s: SubnetState, u: int, v: int) -> bool {
    pruning_score(s, u) < pruning_score(s, v)
        || (pruning_score(s, u) == pruning_score(s, v) && zero_before(s, u, v))
}

/// Whether some prunable module has a zero score.
pub open spec fn has_zero_candidate(s: SubnetState, block: u64, ignore_immunity: bool) -> bool {
    exists|v: int| #[trigger] prunable(s, v, block, ignore_immunity) && pruning_score(s, v) == 0
}

/// Whether some module is prunable.
pub open spec fn has_candidate(s: SubnetState, block: u64, ignore_immunity: bool) -> bool {
    exists|v: int| #[trigger] prunable(s, v, block, ignore_immunity)
}

/// Whether `u` is the module to prune: among prunable modules, the oldest of
/// zero score, or else the one of lowest score and then oldest.
pub open spec fn is_lowest(s: SubnetState, u: int, block: u64, ignore_immunity: bool) -> bool {
    &&& prunable(s, u, block, ignore_immunity)
    &&& if has_zero_candidate(s, block, ignore_immunity) {
        &&& pruning_score(s, u) == 0
        &&& forall|v: int| #[trigger] prunable(s, v, block, ignore_immunity) && pruning_score(s, v) == 0 ==> zero_before(s, u, v)
    } else {
        forall|v: int| #[trigger] prunable(s, v, block, ignore_immunity) ==> score_before(s, u, v)
    }
}

/// Whether `b` is subnet `a` with a module appended under the next uid.
pub open spec fn module_appended(a: SubnetState, b: SubnetState, key: u64, name: Seq<u8>, address: Seq<u8>,
    metadata: Option<Vec<u8>>, block: u64) -> bool {
    &&& b.keys@ == a.keys@.push(key)
    &&& b.names@.len() == a.names@.len() + 1
    &&& b.names@.drop_last() == a.names@
    &&& b.names@.last()@ == name
    &&& b.addresses@.len() == a.addresses@.len() + 1
    &&& b.addresses@.drop_last() == a.addresses@
    &&& b.addresses@.last()@ == address
    &&& b.metadata@ == a.metadata@.push(metadata)
    &&& b.registration_block@ == a.registration_block@.push(block)
    &&& b.last_update@ == a.last_update@.push(block)
    &&& b.emission@ == a.emission@.push(0)
    &&& b.incentive@ == a.incentive@.push(0)
    &&& b.dividends@ == a.dividends@.push(0)
    &&& b.trust@ == a.trust@.push(0)
    &&& b.validator_permits@ == a.validator_permits@.push(false)
    &&& b.weights@.len() == a.weights@.len() + 1
    &&& b.weights@.drop_last() == a.weights@
    &&& b.weights@.last()@.len() == 0
    &&& b.netuid == a.netuid
    &&& b.params == a.params
    &&& b.burn == a.burn
    &&& b.registrations_this_interval == a.registrations_this_interval
    &&& b.pending_emission == a.pending_emission
    &&& b.trust_ratio == a.trust_ratio
}

/// What the runtime answers that registration asks of it.
pub struct RegistrationHooks {
    /// The netuid of the root network.
    pub rootnet_id: u16,
    /// The subnets whose modules compete for a limited number of slots.
    pub mineable: Vec<u16>,
    /// The subnets the runtime lets the pallet remove.
    pub removable: Vec<u16>,
    /// The subnet with the lowest emission, to prune a module from when the
    /// network is full, or to replace when a new subnet does not fit.
    pub lowest_emission_netuid: Option<u16>,
    /// The governance configuration a subnet created by a registration
    /// starts from.
    pub subnet_governance: GovernanceConfiguration,
}

/// The first subnet, in storage order, named `name`.
pub open spec fn netuid_for_name(subnets: Seq<SubnetState>, name: Seq<u8>) -> Option<u16>
    decreases subnets.len(),
{
    if subnets.len() == 0 {
        None
    } else {
        match netuid_for_name(subnets.drop_last(), name) {
            Some(n) => Some(n),
            None => if subnets.last().params.name@ == name { Some(subnets.last().netuid) } else { None },
        }
    }
}

/// The number of modules on all subnets.
pub open spec fn total_modules(subnets: Seq<SubnetState>) -> int
    decreases subnets.len(),
{
    if subnets.len() == 0 { 0 } else { total_modules(subnets.drop_last()) + subnets.last().keys@.len() }
}

/// The stake counter of module `u` of subnet `s`.
pub open spec fn module_stake(p: Subspace, s: SubnetState, u: int) -> u64 {
    get_or_zero(p.ledger.model().module_stakes, s.keys@[u])
}

/// Whether `u` is the module of subnet `s` with the least stake (first in
/// walk order among equals).
pub open spec fn is_least_staked(p: Subspace, s: SubnetState, u: int) -> bool {
    &&& 0 <= u < s.keys@.len()
    &&& forall|v: int| 0 <= v < s.keys@.len() ==> #[trigger] module_stake(p, s, v) > module_stake(p, s, u)
        || (module_stake(p, s, v) == module_stake(p, s, u) && walk_rank(u) <= walk_rank(v))
}

/// The least stake of a module of subnet `s`, which has modules.
pub open spec fn least_stake(p: Subspace, s: SubnetState) -> u64 {
    module_stake(p, s, choose|u: int| is_least_staked(p, s, u))
}

/// Whether subnet `s` has a prunable module (immunity ignored) other than `except`.
pub open spec fn has_candidate_except(s: SubnetState, block: u64, except: Option<u16>) -> bool {
    exists|v: int| #[trigger] prunable(s, v, block, true) && except != Some(v as u16)
}

/// Whether registering into subnet number `idx` (of `netuid`) is the root
/// network at its module limit.
pub open spec fn root_full(p: Subspace, idx: int, netuid: u16, hooks: RegistrationHooks) -> bool {
    netuid == hooks.rootnet_id && p.subnets@[idx].keys@.len() >= p.subnets@[idx].params.max_allowed_uids
}

/// Whether registering into subnet number `idx` (of `netuid`) replaces a
/// module of that subnet, which is mineable and full.
pub open spec fn replaces_local(p: Subspace, idx: int, netuid: u16, hooks: RegistrationHooks) -> bool {
    hooks.mineable@.contains(netuid) && p.subnets@[idx].keys@.len() >= p.subnets@[idx].params.max_allowed_uids
}

/// Whether, after the root-network removal if any, the network is at its
/// module limit and a module of the lowest-emission subnet must go.
pub open spec fn network_full(p: Subspace, idx: int, netuid: u16, hooks: RegistrationHooks) -> bool {
    total_modules(p.subnets@) - (if root_full(p, idx, netuid, hooks) { 1int } else { 0 }) >= p.global.max_allowed_modules
}

/// The error with which making room for module `module_key` on subnet
/// number `idx` (of `netuid`) is refused, if any.
pub open spec fn reserve_error(p: Subspace, idx: int, netuid: u16, module_key: u64, hooks: RegistrationHooks) -> Option<Error> {
    let s = p.subnets@[idx];
    if replaces_local(p, idx, netuid, hooks) {
        if has_candidate(s, p.block, false) { None } else { Some(Error::NetworkIsImmuned) }
    } else if root_full(p, idx, netuid, hooks) && get_or_zero(p.ledger.model().module_stakes, module_key) < least_stake(p, s) {
        Some(Error::NotEnoughStakeToRegister)
    } else if network_full(p, idx, netuid, hooks) {
        match hooks.lowest_emission_netuid {
            None => Some(Error::NetworkIsImmuned),
            Some(sid) => {
                let sp = subnet_pos(p.subnets@, sid);
                let except = if sid == netuid && root_full(p, idx, netuid, hooks) {
                    Some((choose|u: int| is_least_staked(p, s, u)) as u16)
                } else {
                    None
                };
                if sp >= 0 && has_candidate_except(p.subnets@[sp], p.block, except) { None } else { Some(Error::NetworkIsImmuned) }
            },
        }
    } else {
        None
    }
}

/// Whether `b` is `a` after making room for a module on subnet number
/// `idx` (of `netuid`): the lowest-priority module of a full mineable subnet
/// is replaced; otherwise the least-staked module of a full root network is
/// removed, and then, when the network is full, the lowest-priority module
/// of the lowest-emission subnet (which goes too when left empty).
pub open spec fn slot_made(a: Subspace, b: Subspace, idx: int, netuid: u16, hooks: RegistrationHooks) -> bool {
    if replaces_local(a, idx, netuid, hooks) {
        exists|u: int| is_lowest(a.subnets@[idx], u, a.block, false) && #[trigger] module_dropped(a, b, idx, u)
    } else {
        exists|m: Subspace| {
            &&& #[trigger] m.wf()
            &&& if root_full(a, idx, netuid, hooks) {
                exists|r: int| is_least_staked(a, a.subnets@[idx], r) && #[trigger] module_dropped(a, m, idx, r)
            } else {
                m == a
            }
            &&& if network_full(a, idx, netuid, hooks) {
                let sp = subnet_pos(m.subnets@, hooks.lowest_emission_netuid->Some_0);
                exists|u: int, m2: Subspace| {
                    &&& is_lowest(m.subnets@[sp], u, m.block, true)
                    &&& #[trigger] module_dropped(m, m2, sp, u)
                    &&& if m.subnets@[sp].keys@.len() == 1 && hooks.removable@.contains(hooks.lowest_emission_netuid->Some_0) {
                        subnet_dropped(m2, b, sp)
                    } else {
                        b == m2
                    }
                }
            } else {
                b == m
            }
        }
    }
}

/// How many modules making room removes from the subnet being registered into.
pub open spec fn removals_on_target(p: Subspace, idx: int, netuid: u16, hooks: RegistrationHooks) -> int {
    if replaces_local(p, idx, netuid, hooks) {
        0
    } else {
        (if root_full(p, idx, netuid, hooks) { 1int } else { 0 })
            + (if network_full(p, idx, netuid, hooks) && hooks.lowest_emission_netuid == Some(netuid) { 1int } else { 0 })
    }
}

proof fn lemma_walk_rank_of(u: int, lo: int, hi: int)
    requires
        u == hi * 256 + lo,
        0 <= lo < 256,
        0 <= hi < 256,
    ensures
        walk_rank(u) == lo * 256 + hi,
        forall|v: int| 0 <= v < 65536 && #[trigger] walk_rank(v) == lo * 256 + hi ==> v == u,
{
    assert(walk_rank(u) == lo * 256 + hi) by (nonlinear_arith)
        requires u == hi * 256 + lo, 0 <= lo < 256, 0 <= hi < 256;
    assert forall|v: int| 0 <= v < 65536 && #[trigger] walk_rank(v) == lo * 256 + hi implies v == u by {
        let a = v % 256;
        let b = v / 256;
        assert(v == b * 256 + a && 0 <= a < 256 && 0 <= b < 256) by (nonlinear_arith)
            requires 0 <= v < 65536, a == v % 256, b == v / 256;
        assert(a == lo && b == hi) by (nonlinear_arith)
            requires a * 256 + b == lo * 256 + hi, 0 <= a < 256, 0 <= b < 256, 0 <= lo < 256, 0 <= hi < 256;
    }
}

proof fn lemma_netuid_for_name_prefix(s: Seq<SubnetState>, name: Seq<u8>, k: int)
    requires
        0 < k <= s.len(),
        netuid_for_name(s.take(k - 1), name) is None,
        s[k - 1].params.name@ == name,
    ensures
        netuid_for_name(s, name) == Some(s[k - 1].netuid),
    decreases s.len() - k,
{
    assert(s.take(k).drop_last() =~= s.take(k - 1));
    if k == s.len() {
        assert(s.take(k) =~= s);
    } else {
        lemma_netuid_for_name_prefix_ext(s, name, k, s[k - 1].netuid);
    }
}

proof fn lemma_netuid_for_name_prefix_ext(s: Seq<SubnetState>, name: Seq<u8>, k: int, n: u16)
    requires
        0 < k <= s.len(),
        netuid_for_name(s.take(k), name) == Some(n),
    ensures
        netuid_for_name(s, name) == Some(n),
    decreases s.len() - k,
{
    if k == s.len() {
        assert(s.take(k) =~= s);
    } else {
        assert(s.take(k + 1).drop_last() =~= s.take(k));
        lemma_netuid_for_name_prefix_ext(s, name, k + 1, n);
    }
}

proof fn lemma_least_staked_unique(p: Subspace, s: SubnetState, u1: int, u2: int)
    requires
        s.keys@.len() <= u16::MAX,
        is_least_staked(p, s, u1),
        is_least_staked(p, s, u2),
    ensures
        u1 == u2,
{
    assert(module_stake(p, s, u2) > module_stake(p, s, u1)
        || (module_stake(p, s, u2) == module_stake(p, s, u1) && walk_rank(u1) <= walk_rank(u2)));
    assert(module_stake(p, s, u1) > module_stake(p, s, u2)
        || (module_stake(p, s, u1) == module_stake(p, s, u2) && walk_rank(u2) <= walk_rank(u1)));
    let lo = u1 % 256;
    let hi = u1 / 256;
    assert(u1 == hi * 256 + lo && 0 <= lo < 256 && 0 <= hi < 256) by (nonlinear_arith)
        requires 0 <= u1 < 65536, lo == u1 % 256, hi == u1 / 256;
    lemma_walk_rank_of(u1, lo, hi);
}

/// Every subnet's modules are counted in the total.
proof fn lemma_total_modules_ge(s: Seq<SubnetState>, i: int)
    requires
        0 <= i < s.len(),
    ensures
        total_modules(s) >= s[i].keys@.len(),
    decreases s.len(),
{
    lemma_total_modules_nonneg(s.drop_last());
    if i < s.len() - 1 {
        assert(s.drop_last()[i] == s[i]);
        lemma_total_modules_ge(s.drop_last(), i);
    }
}

proof fn lemma_total_modules_nonneg(s: Seq<SubnetState>)
    ensures
        total_modules(s) >= 0,
    decreases s.len(),
{
    if s.len() > 0 {
        lemma_total_modules_nonneg(s.drop_last());
    }
}

/// The number of modules on all subnets, when one subnet changes size.
proof fn lemma_total_modules_update(s: Seq<SubnetState>, i: int, x: SubnetState)
    requires
        0 <= i < s.len(),
    ensures
        total_modules(s.update(i, x)) == total_modules(s) - s[i].keys@.len() + x.keys@.len(),
    decreases s.len(),
{
    let t = s.update(i, x);
    if i == s.len() - 1 {
        assert(t.drop_last() =~= s.drop_last());
    } else {
        assert(t.drop_last() =~= s.drop_last().update(i, x));
        lemma_total_modules_update(s.drop_last(), i, x);
    }
}

/// After module `r` of a subnet is removed, the subnet has a prunable module
/// (immunity ignored) exactly when it had one other than `r`.
proof fn lemma_candidates_after_removal(a: SubnetState, b: SubnetState, r: int, block: u64)
    requires
        subnet_wf(a),
        0 <= r < a.keys@.len(),
        crate::modules::module_removed(a, b, r),
    ensures
        has_candidate(b, block, true) == has_candidate_except(a, block, Some(r as u16)),
{
    let n = a.keys@.len();
    if has_candidate(b, block, true) {
        let v = choose|v: int| #[trigger] prunable(b, v, block, true);
        if v == r {
            assert(prunable(a, n - 1, block, true));
            assert(((n - 1) as u16) as int == n - 1);
            assert(has_candidate_except(a, block, Some(r as u16)));
        } else {
            assert(prunable(a, v, block, true));
            assert((v as u16) as int == v);
            assert(has_candidate_except(a, block, Some(r as u16)));
        }
    }
    if has_candidate_except(a, block, Some(r as u16)) {
        let v = choose|v: int| #[trigger] prunable(a, v, block, true) && Some(r as u16) != Some(v as u16);
        assert(v != r);
        if v == n - 1 {
            assert(prunable(b, r, block, true));
        } else {
            assert(prunable(b, v, block, true));
        }
    }
}

/// A netuid found at a position of a list of distinct netuids is found there.
proof fn lemma_pos_of_netuid(p: Subspace, idx: int, netuid: u16)
    requires
        p.wf(),
        0 <= idx < p.subnets@.len(),
        p.subnets@[idx].netuid == netuid,
    ensures
        subnet_pos(p.subnets@, netuid) == idx,
{
    crate::state::lemma_subnet_pos_pub(p.subnets@, netuid);
    let q = subnet_pos(p.subnets@, netuid);
    if q != idx {
        if q < idx {
            assert(p.subnets@[q].netuid != p.subnets@[idx].netuid);
        } else if q > idx {
            assert(p.subnets@[idx].netuid != p.subnets@[q].netuid);
        }
    }
}

/// Every key left after a removal was there before.
proof fn lemma_swap_removed_subset(k: Seq<u64>, u: int, r: int, x: u64)
    requires
        0 <= r < k.len(),
        r == k.len() - 1,
        crate::modules::swap_removed(k, u, r).contains(x),
    ensures
        k.contains(x),
{
    let t = crate::modules::swap_removed(k, u, r);
    let i = choose|i: int| 0 <= i < t.len() && t[i] == x;
    if 0 <= u < k.len() {
        if i == u {
            assert(k[r] == x);
        } else {
            assert(k[i] == x);
        }
    } else {
        assert(k[i] == x);
    }
}

/// Removing a subnet removes its modules from the total.
proof fn lemma_total_modules_remove(s: Seq<SubnetState>, i: int)
    requires
        0 <= i < s.len(),
    ensures
        total_modules(s.remove(i)) == total_modules(s) - s[i].keys@.len(),
    decreases s.len(),
{
    if i == s.len() - 1 {
        assert(s.remove(i) =~= s.drop_last());
    } else {
        assert(s.remove(i).drop_last() =~= s.drop_last().remove(i));
        assert(s.remove(i).last() == s.last());
        lemma_total_modules_remove(s.drop_last(), i);
    }
}

/// Whether subnet `netuid` is in `b` with no key that it did not have in `a`.
pub open spec fn target_kept(a: Subspace, b: Subspace, netuid: u16) -> bool {
    let pa = subnet_pos(a.subnets@, netuid);
    let pb = subnet_pos(b.subnets@, netuid);
    &&& pb >= 0
    &&& forall|x: u64| b.subnets@[pb].keys@.contains(x) ==> #[trigger] a.subnets@[pa].keys@.contains(x)
    &&& b.subnets@[pb].netuid == netuid
}

/// What a module removal keeps: the subnets' netuids, the target subnet
/// without new keys, and no more modules in all.
proof fn lemma_dropped_facts(a: Subspace, b: Subspace, pos: int, u: int, netuid: u16)
    requires
        a.wf(),
        b.wf(),
        0 <= pos < a.subnets@.len(),
        0 <= u < a.subnets@[pos].keys@.len(),
        module_dropped(a, b, pos, u),
        subnet_pos(a.subnets@, netuid) >= 0,
    ensures
        forall|q: int| 0 <= q < a.subnets@.len() ==> #[trigger] b.subnets@[q].netuid == a.subnets@[q].netuid,
        subnet_pos(b.subnets@, netuid) == subnet_pos(a.subnets@, netuid),
        target_kept(a, b, netuid),
        total_modules(b.subnets@) == total_modules(a.subnets@) - 1,
{
    assert forall|q: int| 0 <= q < a.subnets@.len() implies #[trigger] a.subnets@[q].netuid == b.subnets@[q].netuid by {}
    crate::state::lemma_subnet_pos_same_netuids(a.subnets@, b.subnets@, netuid);
    crate::state::lemma_subnet_pos_pub(a.subnets@, netuid);
    let p = subnet_pos(a.subnets@, netuid);
    assert(subnet_wf(a.subnets@[pos]));
    if p == pos {
        assert forall|x: u64| b.subnets@[p].keys@.contains(x) implies #[trigger] a.subnets@[p].keys@.contains(x) by {
            lemma_swap_removed_subset(a.subnets@[pos].keys@, u, a.subnets@[pos].keys@.len() - 1, x);
        }
    }
    assert(b.subnets@ =~= a.subnets@.update(pos, b.subnets@[pos]));
    lemma_total_modules_update(a.subnets@, pos, b.subnets@[pos]);
}

/// Whether `stake_amount` covers the minimum stake plus the minimum burn
/// (their sum saturating).
pub fn enough_stake_to_register(min_stake: u64, min_burn: u64, stake_amount: u64) -> (r: bool)
    ensures
        r == (stake_amount >= crate::ledger::sat_add(min_stake, min_burn)),
{
    stake_amount >= min_stake.saturating_add(min_burn)
}

/// Whether making room on the subnet named `name` cannot empty it when the
/// runtime may remove it: it keeps more modules than the removals on it.
pub open spec fn room_for_target(p: Subspace, name: Seq<u8>, hooks: RegistrationHooks) -> bool {
    netuid_for_name(p.subnets@, name) matches Some(t) ==> {
        let idx = subnet_pos(p.subnets@, t);
        hooks.removable@.contains(t) && removals_on_target(p, idx, t, hooks) > 0
            ==> p.subnets@[idx].keys@.len() > removals_on_target(p, idx, t, hooks)
    }
}

/// Whether `b` is `a` after `module_key`, paid for by `key`, registered on
/// the subnet named `name`: the burn is paid, room is made and the module
/// is appended.
pub open spec fn registration_done(a: Subspace, b: Subspace, key: u64, name: Seq<u8>, module_key: u64, mname: Seq<u8>,
    address: Seq<u8>, metadata: Option<Vec<u8>>, hooks: RegistrationHooks) -> bool {
    let t = netuid_for_name(a.subnets@, name)->Some_0;
    let idx = subnet_pos(a.subnets@, t);
    &&& b.spec_is_registered(Some(t), module_key)
    &&& exists|w: Subspace, m: Subspace| {
        &&& #[trigger] burn_paid(a, w, key, t, a.subnets@[idx].burn, hooks)
        &&& #[trigger] slot_made(w, m, idx, t, hooks)
        &&& module_registered(m, b, t, module_key, mname, address, metadata)
    }
}

/// After `key` registered a subnet named `name`, that name leads to the new
/// subnet, the last one, which has no module and so cannot be emptied by
/// making room on it; no module was added anywhere.
proof fn lemma_registered_subnet(a: Subspace, w: Subspace, key: u64, name: Seq<u8>, governance: GovernanceConfiguration,
    lowest: Option<u16>, hooks: RegistrationHooks)
    requires
        a.wf(),
        w.wf(),
        subnet_registered(a, w, key, name, None, governance, lowest),
        crate::subnets::registration_target(a, lowest) matches Some(l) ==> subnet_pos(a.subnets@, l) >= 0,
    ensures
        netuid_for_name(w.subnets@, name) is Some,
        total_modules(w.subnets@) <= total_modules(a.subnets@),
        forall|module_key: u64| register_error(w, key, name, module_key, hooks) is None ==> room_for_target(w, name, hooks),
{
    let (wv, params) = choose|wv: Subspace, params: SubnetParams| {
        &&& wv.wf()
        &&& wv == (Subspace { balances: wv.balances, ..a })
        &&& params.name@ == name
        &&& params.metadata == None::<Vec<u8>>
        &&& params.founder == key
        &&& crate::subnets::new_subnet_valid(a, params)
        &&& wv.balances.free_map() == debited(a.balances.free_map(), key, a.subnet_burn)
        &&& a.balances.can_pay(key, a.subnet_burn)
        &&& wv.balances.min_balance() == a.balances.min_balance()
        &&& wv.subnets@ == a.subnets@
        &&& wv.ledger == a.ledger
        &&& wv.subnet_gaps@ == a.subnet_gaps@
        &&& match crate::subnets::registration_target(a, lowest) {
            Some(l) => exists|m: Subspace| #[trigger] subnet_dropped(wv, m, subnet_pos(a.subnets@, l))
                && crate::subnets::subnet_added(m, w, l, params),
            None => crate::subnets::subnet_added(wv, w, crate::subnets::chosen_netuid(a, None), params),
        }
    };
    crate::subnets::lemma_no_name(a.subnets@, name);
    let prev: Seq<SubnetState> = w.subnets@.drop_last();
    match crate::subnets::registration_target(a, lowest) {
        Some(l) => {
            let m = choose|m: Subspace| #[trigger] subnet_dropped(wv, m, subnet_pos(a.subnets@, l))
                && crate::subnets::subnet_added(m, w, l, params);
            let pos = subnet_pos(a.subnets@, l);
            crate::state::lemma_subnet_pos_pub(a.subnets@, l);
            assert(prev == a.subnets@.remove(pos));
            lemma_total_modules_remove(a.subnets@, pos);
            assert forall|i: int| 0 <= i < prev.len() implies #[trigger] prev[i].params.name@ != name by {
                let t = if i < pos { i } else { i + 1 };
                assert(prev[i] == a.subnets@[t]);
            }
        },
        None => {
            assert(prev == a.subnets@);
        },
    }
    crate::subnets::lemma_no_name(prev, name);
    let last = w.subnets@.last();
    assert(last.params.name@ == name);
    assert(netuid_for_name(w.subnets@, name) == Some(last.netuid));
    assert(total_modules(w.subnets@) == total_modules(prev) + last.keys@.len());
    assert(last.keys@.len() == 0);
    lemma_total_modules_nonneg(prev);
    let t = last.netuid;
    let idx = w.subnets@.len() - 1;
    lemma_pos_of_netuid(w, idx, t);
    assert forall|module_key: u64| register_error(w, key, name, module_key, hooks) is None
        implies room_for_target(w, name, hooks) by {
        if network_full(w, idx, t, hooks) && hooks.lowest_emission_netuid == Some(t) {
            assert(!has_candidate_except(w.subnets@[idx], w.block, None));
        }
    }
}

/// The error with which registering `module_key`, paid by `key`, on the
/// subnet named `network_name` is refused, if any.
pub open spec fn register_error(p: Subspace, key: u64, network_name: Seq<u8>, module_key: u64, hooks: RegistrationHooks)
    -> Option<Error> {
    if p.registrations_per_block >= p.global.max_registrations_per_block {
        Some(Error::TooManyRegistrationsPerBlock)
    } else {
        match netuid_for_name(p.subnets@, network_name) {
            None => Some(Error::NetworkDoesNotExist),
            Some(t) => {
                let idx = subnet_pos(p.subnets@, t);
                let s = p.subnets@[idx];
                if s.registrations_this_interval >= s.params.module_burn_config.max_registrations_per_interval {
                    Some(Error::TooManyRegistrationsPerInterval)
                } else if s.params.max_allowed_uids < 1 {
                    Some(Error::NetworkIsImmuned)
                } else if s.keys@.contains(module_key) {
                    Some(Error::KeyAlreadyRegistered)
                } else if t != hooks.rootnet_id && !p.balances.can_pay(key, s.burn) {
                    Some(Error::NotEnoughBalanceToRegister)
                } else {
                    reserve_error(p, idx, t, module_key, hooks)
                }
            },
        }
    }
}

/// Whether `b` is `a` with `key` paying the registration burn `burn` of
/// subnet `netuid` (the root network registers for free).
pub open spec fn burn_paid(a: Subspace, b: Subspace, key: u64, netuid: u16, burn: u64, hooks: RegistrationHooks) -> bool {
    &&& b.balances.free_map() == (if netuid != hooks.rootnet_id { debited(a.balances.free_map(), key, burn) } else { a.balances.free_map() })
    &&& b.balances.min_balance() == a.balances.min_balance()
    &&& b.subnets@ == a.subnets@
    &&& b.ledger == a.ledger
    &&& b.fees@ == a.fees@
    &&& b.config == a.config
    &&& b.global == a.global
    &&& b.registrations_per_block == a.registrations_per_block
    &&& b.block == a.block
    &&& b.min_fees == a.min_fees
    &&& b.subnet_gaps@ == a.subnet_gaps@
    &&& b.subnet_burn == a.subnet_burn
    &&& b.subnet_burn_config == a.subnet_burn_config
    &&& b.subnet_registrations_this_interval == a.subnet_registrations_this_interval
    &&& b.events == a.events
}

/// Whether `b` is `a` with `module_key` appended to subnet `netuid` with the
/// default fees and the registration counters raised by one (saturating).
pub open spec fn module_registered(a: Subspace, b: Subspace, netuid: u16, module_key: u64, name: Seq<u8>, address: Seq<u8>,
    metadata: Option<Vec<u8>>) -> bool {
    let pa = subnet_pos(a.subnets@, netuid);
    let sa = a.subnets@[pa];
    let sb = b.subnets@[pa];
    &&& b.subnets@.len() == a.subnets@.len()
    &&& forall|q: int| 0 <= q < a.subnets@.len() && q != pa ==> #[trigger] b.subnets@[q] == a.subnets@[q]
    &&& sb.registrations_this_interval == (if sa.registrations_this_interval == u16::MAX { u16::MAX } else {
        (sa.registrations_this_interval + 1) as u16 })
    &&& module_appended(sa, SubnetState { registrations_this_interval: sa.registrations_this_interval, ..sb }, module_key, name,
        address, metadata, a.block)
    &&& b.fees@ == a.fees@.insert(module_key, ModuleFees {
        stake_delegation_fee: crate::percent::Percent { parts: crate::params::STAKE_DELEGATION_DEFAULT },
        validator_weight_fee: crate::percent::Percent { parts: crate::params::VALIDATOR_WEIGHT_DEFAULT },
    })
    &&& b.ledger.model() == stake_added(a.ledger.model(), module_key, module_key, 0)
    &&& b.ledger.wf()
    &&& b.registrations_per_block == (if a.registrations_per_block == u16::MAX { u16::MAX } else {
        (a.registrations_per_block + 1) as u16 })
    &&& b.balances == a.balances
    &&& b.config == a.config
    &&& b.global == a.global
    &&& b.block == a.block
    &&& b.min_fees == a.min_fees
    &&& b.subnet_gaps == a.subnet_gaps
    &&& b.subnet_burn == a.subnet_burn
    &&& b.subnet_burn_config == a.subnet_burn_config
    &&& b.subnet_registrations_this_interval == a.subnet_registrations_this_interval
    &&& b.events@ == a.events@.push(Event::ModuleRegistered(netuid, sa.keys@.len() as u16, module_key))
}

proof fn lemma_netuid_for_name_found(s: Seq<SubnetState>, name: Seq<u8>)
    ensures
        netuid_for_name(s, name) matches Some(t) ==> subnet_pos(s, t) >= 0,
    decreases s.len(),
{
    if s.len() > 0 {
        lemma_netuid_for_name_found(s.drop_last(), name);
        crate::state::lemma_subnet_pos_pub(s, netuid_for_name(s, name)->Some_0);
        crate::state::lemma_subnet_pos_pub(s.drop_last(), netuid_for_name(s, name)->Some_0);
        if let Some(t) = netuid_for_name(s.drop_last(), name) {
            let p = subnet_pos(s.drop_last(), t);
            assert(s[p] == s.drop_last()[p]);
            if subnet_pos(s, t) < 0 {
                assert(s[p].netuid != t);
            }
        } else if let Some(t) = netuid_for_name(s, name) {
            if subnet_pos(s, t) < 0 {
                assert(s[s.len() - 1].netuid != t);
            }
        }
    }
}

/// The pruning score of module `u` (see [`pruning_score`]).
fn compute_pruning_score(s: &SubnetState, u: usize) -> (r: I110F18)
    ensures
        r.bits == pruning_score(*s, u as int),
{
    let e = if u < s.emission.len() { s.emission[u] } else { 0 };
    let d = if u < s.dividends.len() { s.dividends[u] } else { 0 };
    let i = if u < s.incentive.len() { s.incentive[u] } else { 0 };
    let ef = I110F18::from_u64(e);
    let df = I110F18::from_u64(d as u64);
    let inf = I110F18::from_u64(i as u64);
    if df.bits == 0 && inf.bits == 0 {
        return I110F18 { bits: 0 };
    }
    let total = df.saturating_add(inf);
    let dividend = df.saturating_div(total).saturating_mul(ef);
    let incentive = inf.saturating_div(total).saturating_mul(ef);
    I110F18 { bits: PRUNING_DIVIDEND_WEIGHT_BITS }.saturating_mul(dividend).saturating_add(incentive)
}

impl Subspace {
    /// Appends module `key` to subnet number `idx` under the next uid, with
    /// its name, address, fees and metadata, registered at the current block,
    /// and opens its stake entry on itself. Returns the uid.
    pub fn append_module(&mut self, idx: usize, key: u64, name: Vec<u8>, address: Vec<u8>, fees: ModuleFees,
        metadata: Option<Vec<u8>>) -> (r: u16)
        requires
            old(self).wf(),
            idx < old(self).subnets@.len(),
            old(self).subnets@[idx as int].keys@.len() < u16::MAX,
            !old(self).subnets@[idx as int].keys@.contains(key),
            fees.stake_delegation_fee.parts <= 100,
        ensures
            final(self).wf(),
            r == old(self).subnets@[idx as int].keys@.len(),
            final(self).subnets@.len() == old(self).subnets@.len(),
            forall|q: int| 0 <= q < old(self).subnets@.len() && q != idx ==> #[trigger] final(self).subnets@[q] == old(self).subnets@[q],
            module_appended(old(self).subnets@[idx as int], final(self).subnets@[idx as int], key, name@, address@, metadata,
                old(self).block),
            final(self).fees@ == old(self).fees@.insert(key, fees),
            final(self).ledger.model() == stake_added(old(self).ledger.model(), key, key, 0),
            final(self).ledger.wf(),
            final(self).balances == old(self).balances,
            final(self).config == old(self).config,
            final(self).global == old(self).global,
            final(self).registrations_per_block == old(self).registrations_per_block,
            final(self).block == old(self).block,
            final(self).min_fees == old(self).min_fees,
            final(self).subnet_gaps == old(self).subnet_gaps,
            final(self).subnet_burn == old(self).subnet_burn,
            final(self).subnet_burn_config == old(self).subnet_burn_config,
            final(self).subnet_registrations_this_interval == old(self).subnet_registrations_this_interval,
            final(self).events == old(self).events,
    {
        let ghost start = *self;
        let mut sub = self.subnets.remove(idx);
        proof {
            assert(sub == start.subnets@[idx as int]);
            assert(subnet_wf(sub));
        }
        let uid = sub.keys.len() as u16;
        let block = self.block;
        sub.keys.push(key);
        sub.names.push(name);
        sub.addresses.push(address);
        sub.metadata.push(metadata);
        sub.registration_block.push(block);
        sub.last_update.push(block);
        sub.emission.push(0);
        sub.incentive.push(0);
        sub.dividends.push(0);
        sub.trust.push(0);
        sub.validator_permits.push(false);
        sub.weights.push(Vec::new());
        proof {
            let a = start.subnets@[idx as int];
            assert(sub.names@.drop_last() =~= a.names@);
            assert(sub.addresses@.drop_last() =~= a.addresses@);
            assert(sub.weights@.drop_last() =~= a.weights@);
            let k = start.subnets@[idx as int].keys@;
            assert forall|i: int, j: int| 0 <= i < j < sub.keys@.len() implies sub.keys@[i] != sub.keys@[j] by {
                if j == k.len() {
                    assert(sub.keys@[i] == k[i]);
                }
            }
            assert(sub.keys@.no_duplicates());
            assert(subnet_wf(sub));
        }
        self.subnets.insert(idx, sub);
        proof {
            assert(self.subnets@ =~= start.subnets@.update(idx as int, sub));
            assert forall|i: int| 0 <= i < self.subnets@.len() implies subnet_wf(#[trigger] self.subnets@[i]) by {
                if i != idx {
                    assert(subnet_wf(start.subnets@[i]));
                }
            }
            assert forall|i: int, j: int| 0 <= i < j < self.subnets@.len() implies
                #[trigger] self.subnets@[i].netuid != #[trigger] self.subnets@[j].netuid by {
                assert(start.subnets@[i].netuid != start.subnets@[j].netuid);
            }
        }
        self.fees.insert(key, fees);
        self.ledger.increase_stake(key, key, 0);
        uid
    }

    /// The first subnet, in storage order, named `name`.
    pub fn get_netuid_for_name(&self, name: &[u8]) -> (r: Option<u16>)
        ensures
            r == netuid_for_name(self.subnets@, name@),
    {
        let mut i: usize = 0;
        while i < self.subnets.len()
            invariant
                i <= self.subnets@.len(),
                netuid_for_name(self.subnets@.take(i as int), name@) is None,
            decreases self.subnets@.len() - i,
        {
            proof {
                assert(self.subnets@.take(i + 1).drop_last() =~= self.subnets@.take(i as int));
            }
            if bytes_eq(self.subnets[i].params.name.as_slice(), name) {
                proof {
                    lemma_netuid_for_name_prefix(self.subnets@, name@, i as int + 1);
                }
                return Some(self.subnets[i].netuid);
            }
            i = i + 1;
        }
        proof {
            assert(self.subnets@.take(self.subnets@.len() as int) =~= self.subnets@);
        }
        None
    }

    /// The number of modules on all subnets.
    pub fn global_n_modules(&self) -> (r: u64)
        requires
            self.wf(),
        ensures
            r == total_modules(self.subnets@),
    {
        let mut total: u64 = 0;
        let mut i: usize = 0;
        while i < self.subnets.len()
            invariant
                i <= self.subnets@.len(),
                self.wf(),
                total == total_modules(self.subnets@.take(i as int)),
                total <= i * u16::MAX,
            decreases self.subnets@.len() - i,
        {
            proof {
                assert(self.subnets@.take(i + 1).drop_last() =~= self.subnets@.take(i as int));
                assert(subnet_wf(self.subnets@[i as int]));
                assert(i * u16::MAX + u16::MAX <= u16::MAX * u16::MAX) by (nonlinear_arith) requires i < u16::MAX;
                assert((i + 1) * u16::MAX == i * u16::MAX + u16::MAX) by (nonlinear_arith);
            }
            total = total + self.subnets[i].keys.len() as u64;
            i = i + 1;
        }
        proof {
            assert(self.subnets@.take(self.subnets@.len() as int) =~= self.subnets@);
        }
        total
    }

    /// The module of subnet number `idx` with the least stake (first in walk
    /// order among equals); the subnet has modules.
    fn least_staked_uid(&self, idx: usize) -> (r: u16)
        requires
            self.wf(),
            idx < self.subnets@.len(),
            self.subnets@[idx as int].keys@.len() > 0,
        ensures
            is_least_staked(*self, self.subnets@[idx as int], r as int),
    {
        let s = &self.subnets[idx];
        proof {
            assert(subnet_wf(*s));
        }
        let n = s.keys.len();
        let mut best: usize = n;
        let mut best_stake: u64 = 0;
        let mut lo: usize = 0;
        while lo < 256
            invariant
                lo <= 256,
                n == s.keys@.len(),
                0 < n <= u16::MAX,
                *s == self.subnets@[idx as int],
                best < n ==> best_stake == module_stake(*self, *s, best as int) && walk_rank(best as int) < lo * 256
                    && forall|v: int| 0 <= v < n && walk_rank(v) < lo * 256 ==> #[trigger] module_stake(*self, *s, v) > best_stake
                        || (module_stake(*self, *s, v) == best_stake && walk_rank(best as int) <= walk_rank(v)),
                best >= n ==> best == n && forall|v: int| 0 <= v < n ==> walk_rank(v) >= lo * 256,
            decreases 256 - lo,
        {
            let mut hi: usize = 0;
            while hi < 256
                invariant
                    lo < 256,
                    hi <= 256,
                    n == s.keys@.len(),
                    0 < n <= u16::MAX,
                    *s == self.subnets@[idx as int],
                    best < n ==> best_stake == module_stake(*self, *s, best as int) && walk_rank(best as int) < lo * 256 + hi
                        && forall|v: int| 0 <= v < n && walk_rank(v) < lo * 256 + hi ==> #[trigger] module_stake(*self, *s, v) > best_stake
                            || (module_stake(*self, *s, v) == best_stake && walk_rank(best as int) <= walk_rank(v)),
                    best >= n ==> best == n && forall|v: int| 0 <= v < n ==> walk_rank(v) >= lo * 256 + hi,
                decreases 256 - hi,
            {
                let u = hi * 256 + lo;
                proof {
                    lemma_walk_rank_of(u as int, lo as int, hi as int);
                }
                if u < n {
                    let st = self.ledger.get_module_stake(s.keys[u]);
                    if best >= n || st < best_stake {
                        best = u;
                        best_stake = st;
                    }
                }
                hi = hi + 1;
            }
            lo = lo + 1;
        }
        proof {
            assert(walk_rank(0) == 0);
            assert forall|v: int| 0 <= v < n implies walk_rank(v) < 256 * 256 by {
                assert(walk_rank(v) < 65536) by (nonlinear_arith) requires 0 <= v < 65536;
            }
        }
        best as u16
    }

    /// Whether subnet number `idx` has a prunable module (immunity ignored)
    /// other than `except`.
    fn has_candidate_except_at(&self, idx: usize, except: Option<u16>) -> (r: bool)
        requires
            self.wf(),
            idx < self.subnets@.len(),
        ensures
            r == has_candidate_except(self.subnets@[idx as int], self.block, except),
    {
        let s = &self.subnets[idx];
        proof {
            assert(subnet_wf(*s));
        }
        let mut u: usize = 0;
        while u < s.keys.len()
            invariant
                u <= s.keys@.len(),
                s.keys@.len() <= u16::MAX,
                subnet_wf(*s),
                *s == self.subnets@[idx as int],
                forall|v: int| 0 <= v < u ==> !(#[trigger] prunable(*s, v, self.block, true) && except != Some(v as u16)),
            decreases s.keys@.len() - u,
        {
            let permit = if u < s.validator_permits.len() { s.validator_permits[u] } else { false };
            let skip = match except {
                Some(e) => e as usize == u,
                None => false,
            };
            if !permit && !skip {
                assert(prunable(*s, u as int, self.block, true));
                return true;
            }
            u = u + 1;
        }
        false
    }

    /// The error with which making room for module `module_key` on subnet
    /// number `idx` (of `netuid`) is refused, if any; nothing is changed.
    fn check_reserve(&self, idx: usize, netuid: u16, module_key: u64, hooks: &RegistrationHooks) -> (r: Result<(), Error>)
        requires
            self.wf(),
            idx < self.subnets@.len(),
            self.subnets@[idx as int].params.max_allowed_uids >= 1,
        ensures
            r == crate::params::as_result(reserve_error(*self, idx as int, netuid, module_key, *hooks)),
    {
        let n = self.subnets[idx].keys.len();
        let max_uids = self.subnets[idx].params.max_allowed_uids as usize;
        if vec_contains_u16(&hooks.mineable, netuid) && n >= max_uids {
            return match self.get_lowest_uid_at(idx, false) {
                Some(_) => Ok(()),
                None => Err(Error::NetworkIsImmuned),
            };
        }
        let root = netuid == hooks.rootnet_id && n >= max_uids;
        let mut except: Option<u16> = None;
        if root {
            let r = self.least_staked_uid(idx);
            let least = self.ledger.get_module_stake(self.subnets[idx].keys[r as usize]);
            proof {
                let s = self.subnets@[idx as int];
                let c = choose|u: int| is_least_staked(*self, s, u);
                assert(is_least_staked(*self, s, r as int));
                assert(subnet_wf(s));
                lemma_least_staked_unique(*self, s, c, r as int);
            }
            if self.ledger.get_module_stake(module_key) < least {
                return Err(Error::NotEnoughStakeToRegister);
            }
            except = Some(r);
        }
        let total = self.global_n_modules();
        proof {
            lemma_total_modules_ge(self.subnets@, idx as int);
        }
        let removed: u64 = if root { 1 } else { 0 };
        if total - removed >= self.global.max_allowed_modules as u64 {
            match hooks.lowest_emission_netuid {
                None => return Err(Error::NetworkIsImmuned),
                Some(sid) => {
                    match self.subnet_index(sid) {
                        None => return Err(Error::NetworkIsImmuned),
                        Some(sp) => {
                            let ex = if sid == netuid && root { except } else { None };
                            if !self.has_candidate_except_at(sp, ex) {
                                return Err(Error::NetworkIsImmuned);
                            }
                        },
                    }
                },
            }
        }
        Ok(())
    }

    /// Makes room for a module on subnet number `idx` (of `netuid`): replaces
    /// the lowest-priority module of a full mineable subnet; otherwise removes
    /// the least-staked module of a full root network and then, when the
    /// network is full, the lowest-priority module of the lowest-emission
    /// subnet. Room can be made (see [`reserve_error`]) and making it removes
    /// no subnet being registered into.
    pub fn reserve_module_slot(&mut self, idx: usize, netuid: u16, module_key: u64, hooks: &RegistrationHooks)
        requires
            old(self).wf(),
            idx < old(self).subnets@.len(),
            old(self).subnets@[idx as int].netuid == netuid,
            old(self).subnets@[idx as int].params.max_allowed_uids >= 1,
            reserve_error(*old(self), idx as int, netuid, module_key, *hooks) is None,
            hooks.removable@.contains(netuid) && removals_on_target(*old(self), idx as int, netuid, *hooks) > 0 ==>
                old(self).subnets@[idx as int].keys@.len() > removals_on_target(*old(self), idx as int, netuid, *hooks),
        ensures
            final(self).wf(),
            slot_made(*old(self), *final(self), idx as int, netuid, *hooks),
            target_kept(*old(self), *final(self), netuid),
            total_modules(final(self).subnets@) <= total_modules(old(self).subnets@),
    {
        let ghost a = *self;
        proof {
            lemma_pos_of_netuid(a, idx as int, netuid);
        }
        let n = self.subnets[idx].keys.len();
        let max_uids = self.subnets[idx].params.max_allowed_uids as usize;
        if vec_contains_u16(&hooks.mineable, netuid) && n >= max_uids {
            let u = match self.get_lowest_uid_at(idx, false) {
                Some(u) => u,
                None => return,
            };
            proof {
                assert(is_lowest(a.subnets@[idx as int], u as int, a.block, false));
                assert(prunable(a.subnets@[idx as int], u as int, a.block, false));
            }
            let _ = self.remove_module(netuid, u, false, &hooks.removable);
            proof {
                let mid = choose|mid: Subspace| #[trigger] module_dropped(a, mid, idx as int, u as int) && mid.wf() && *self == mid;
                assert(module_dropped(a, *self, idx as int, u as int));
                lemma_dropped_facts(a, *self, idx as int, u as int, netuid);
            }
            return;
        }
        let root = netuid == hooks.rootnet_id && n >= max_uids;
        if root {
            let r = self.least_staked_uid(idx);
            proof {
                assert(is_least_staked(a, a.subnets@[idx as int], r as int));
            }
            let _ = self.remove_module(netuid, r, true, &hooks.removable);
            proof {
                let mid = choose|mid: Subspace| #[trigger] module_dropped(a, mid, idx as int, r as int) && mid.wf() && *self == mid;
                assert(module_dropped(a, *self, idx as int, r as int));
                assert(self.subnets@ =~= a.subnets@.update(idx as int, self.subnets@[idx as int]));
                lemma_total_modules_update(a.subnets@, idx as int, self.subnets@[idx as int]);
                crate::state::lemma_subnet_pos_same_netuids(a.subnets@, self.subnets@, netuid);
                lemma_dropped_facts(a, *self, idx as int, r as int, netuid);
            }
        }
        let ghost m = *self;
        proof {
            if !root {
                assert(target_kept(a, m, netuid));
            }
        }
        proof {
            assert forall|q: int| 0 <= q < a.subnets@.len() implies #[trigger] a.subnets@[q].netuid == m.subnets@[q].netuid by {}
        }
        let total = self.global_n_modules();
        if total >= self.global.max_allowed_modules as u64 {
            let sid = match hooks.lowest_emission_netuid {
                Some(x) => x,
                None => return,
            };
            proof {
                crate::state::lemma_subnet_pos_same_netuids(a.subnets@, m.subnets@, sid);
            }
            let sp = match self.subnet_index(sid) {
                Some(x) => x,
                None => return,
            };
            proof {
                if sid == netuid && root {
                    lemma_pos_of_netuid(a, idx as int, netuid);
                    assert(sp == idx);
                    let r = choose|r: int| is_least_staked(a, a.subnets@[idx as int], r) && #[trigger] module_dropped(a, m, idx as int, r);
                    let c = choose|u: int| is_least_staked(a, a.subnets@[idx as int], u);
                    assert(subnet_wf(a.subnets@[idx as int]));
                    lemma_least_staked_unique(a, a.subnets@[idx as int], c, r);
                    lemma_candidates_after_removal(a.subnets@[idx as int], m.subnets@[idx as int], r, a.block);
                } else if root {
                    assert(m.subnets@[sp as int] == a.subnets@[sp as int]);
                    assert(has_candidate_except(a.subnets@[sp as int], a.block, None) ==> has_candidate(m.subnets@[sp as int], m.block, true));
                } else {
                    assert(has_candidate_except(a.subnets@[sp as int], a.block, None) ==> has_candidate(m.subnets@[sp as int], m.block, true));
                }
            }
            let u = match self.get_lowest_uid_at(sp, true) {
                Some(u) => u,
                None => return,
            };
            proof {
                assert(prunable(m.subnets@[sp as int], u as int, m.block, true));
            }
            let _ = self.remove_module(sid, u, true, &hooks.removable);
            proof {
                let m2 = choose|m2: Subspace| #[trigger] module_dropped(m, m2, sp as int, u as int) && m2.wf()
                    && if m.subnets@[sp as int].keys@.len() == 1 && hooks.removable@.contains(sid) {
                        subnet_dropped(m2, *self, sp as int)
                    } else {
                        *self == m2
                    };
                assert(module_dropped(m, m2, sp as int, u as int));
                lemma_pos_of_netuid(m, sp as int, sid);
                lemma_dropped_facts(m, m2, sp as int, u as int, netuid);
                if m.subnets@[sp as int].keys@.len() == 1 && hooks.removable@.contains(sid) {
                    lemma_total_modules_remove(m2.subnets@, sp as int);
                    let pt = subnet_pos(m2.subnets@, netuid);
                    crate::state::lemma_subnet_pos_pub(m2.subnets@, netuid);
                    assert(pt != sp);
                    let q = if pt < sp { pt } else { pt - 1 };
                    assert(self.subnets@[q] == m2.subnets@[pt]);
                    lemma_pos_of_netuid(*self, q, netuid);
                }
            }
        }
    }

    /// Registers `module_key`, paid for by `key`, on the existing subnet
    /// named `network_name`: checks the registration limits, that the key is
    /// new and that `key` can pay the burn (nothing on the root network),
    /// makes room (see [`Subspace::reserve_module_slot`]) and appends the
    /// module with the default fees. All or nothing.
    fn register_module_in(&mut self, key: u64, network_name: Vec<u8>, name: Vec<u8>, address: Vec<u8>, module_key: u64,
        metadata: Option<Vec<u8>>, hooks: &RegistrationHooks) -> (r: Result<(), Error>)
        requires
            old(self).wf(),
            total_modules(old(self).subnets@) < u16::MAX,
            register_error(*old(self), key, network_name@, module_key, *hooks) is None ==>
                room_for_target(*old(self), network_name@, *hooks),
        ensures
            final(self).wf(),
            r == as_result(register_error(*old(self), key, network_name@, module_key, *hooks)),
            r is Err ==> *final(self) == *old(self),
            r is Ok ==> registration_done(*old(self), *final(self), key, network_name@, module_key, name@, address@, metadata,
                *hooks),
    {
        if self.registrations_per_block >= self.global.max_registrations_per_block {
            return Err(Error::TooManyRegistrationsPerBlock);
        }
        let netuid = match self.get_netuid_for_name(network_name.as_slice()) {
            Some(t) => t,
            None => return Err(Error::NetworkDoesNotExist),
        };
        proof {
            lemma_netuid_for_name_found(self.subnets@, network_name@);
        }
        let idx = match self.subnet_index(netuid) {
            Some(i) => i,
            None => return Err(Error::NetworkDoesNotExist),
        };
        if self.subnets[idx].registrations_this_interval >= self.subnets[idx].params.module_burn_config.max_registrations_per_interval {
            return Err(Error::TooManyRegistrationsPerInterval);
        }
        if self.subnets[idx].params.max_allowed_uids < 1 {
            return Err(Error::NetworkIsImmuned);
        }
        if crate::state::vec_contains(&self.subnets[idx].keys, module_key) {
            return Err(Error::KeyAlreadyRegistered);
        }
        let burn = self.subnets[idx].burn;
        if netuid != hooks.rootnet_id {
            let bal = self.balances.get_balance(key);
            if !(burn <= bal && bal - burn >= self.balances.get_min_balance()) {
                return Err(Error::NotEnoughBalanceToRegister);
            }
        }
        let checked = self.check_reserve(idx, netuid, module_key, hooks);
        if checked.is_err() {
            return checked;
        }
        let ghost a = *self;
        if netuid != hooks.rootnet_id {
            let _ = self.balances.remove_balance_from_account(key, burn);
        }
        let ghost w = *self;
        proof {
            assert(burn_paid(a, w, key, netuid, burn, *hooks));
            assert(reserve_error(w, idx as int, netuid, module_key, *hooks) == reserve_error(a, idx as int, netuid, module_key, *hooks));
        }
        self.reserve_module_slot(idx, netuid, module_key, hooks);
        let ghost m = *self;
        let idx2 = match self.subnet_index(netuid) {
            Some(i) => i,
            None => return Ok(()),
        };
        proof {
            assert(subnet_wf(self.subnets@[idx2 as int]));
            assert(!self.subnets@[idx2 as int].keys@.contains(module_key));
            lemma_total_modules_ge(self.subnets@, idx2 as int);
        }
        let uid = self.append_module(idx2, module_key, name, address, crate::params::ModuleFees::default_fees(), metadata);
        self.registrations_per_block = self.registrations_per_block.saturating_add(1);
        let mut sub = self.subnets.remove(idx2);
        sub.registrations_this_interval = sub.registrations_this_interval.saturating_add(1);
        self.subnets.insert(idx2, sub);
        self.events.push(Event::ModuleRegistered(netuid, uid, module_key));
        proof {
            assert(self.subnets@.len() == m.subnets@.len());
            assert forall|i: int| 0 <= i < self.subnets@.len() implies subnet_wf(#[trigger] self.subnets@[i]) by {}
            assert forall|i: int, j: int| 0 <= i < j < self.subnets@.len() implies
                #[trigger] self.subnets@[i].netuid != #[trigger] self.subnets@[j].netuid by {
                assert(m.subnets@[i].netuid != m.subnets@[j].netuid);
            }
            lemma_pos_of_netuid(m, idx2 as int, netuid);
            assert(module_registered(m, *self, netuid, module_key, name@, address@, metadata));
            let ks = self.subnets@[idx2 as int].keys@;
            assert(ks == m.subnets@[idx2 as int].keys@.push(module_key));
            assert(ks[ks.len() - 1] == module_key);
            assert(self.subnets@[idx2 as int].netuid == netuid);
            lemma_pos_of_netuid(*self, idx2 as int, netuid);
        }
        Ok(())
    }

    /// Registers `module_key`, paid for by `key`, on the subnet named
    /// `network_name`. When no subnet has that name, `key` first registers
    /// one (see [`Subspace::do_register_subnet`], with no metadata and the
    /// hooks' governance configuration); the module is then registered on
    /// the resulting state (see [`register_error`] and
    /// [`registration_done`]). Refused in the first step, nothing changes;
    /// refused in the second, the new subnet stays registered.
    pub fn do_register(&mut self, key: u64, network_name: Vec<u8>, name: Vec<u8>, address: Vec<u8>, module_key: u64,
        metadata: Option<Vec<u8>>, hooks: &RegistrationHooks) -> (r: Result<(), Error>)
        requires
            old(self).wf(),
            total_modules(old(self).subnets@) < u16::MAX,
            register_error(*old(self), key, network_name@, module_key, *hooks) is None ==>
                room_for_target(*old(self), network_name@, *hooks),
            netuid_for_name(old(self).subnets@, network_name@) is None ==> {
                &&& old(self).subnets@.len() >= old(self).global.max_allowed_subnets ==>
                    (hooks.lowest_emission_netuid matches Some(l) ==>
                        subnet_pos(old(self).subnets@, l) >= 0 && hooks.removable@.contains(l))
                &&& old(self).subnets@.len() < old(self).global.max_allowed_subnets ==>
                    subnet_pos(old(self).subnets@, crate::subnets::chosen_netuid(*old(self), None)) < 0
            },
        ensures
            final(self).wf(),
            netuid_for_name(old(self).subnets@, network_name@) is Some
                || old(self).registrations_per_block >= old(self).global.max_registrations_per_block ==> {
                &&& r == as_result(register_error(*old(self), key, network_name@, module_key, *hooks))
                &&& r is Err ==> *final(self) == *old(self)
                &&& r is Ok ==> registration_done(*old(self), *final(self), key, network_name@, module_key, name@,
                    address@, metadata, *hooks)
            },
            netuid_for_name(old(self).subnets@, network_name@) is None
                && old(self).registrations_per_block < old(self).global.max_registrations_per_block ==> {
                match subnet_register_error(*old(self), key, network_name@, None, hooks.subnet_governance,
                    hooks.lowest_emission_netuid) {
                    Some(e) => r == Err::<(), Error>(e) && *final(self) == *old(self),
                    None => exists|w: Subspace| {
                        &&& #[trigger] subnet_registered(*old(self), w, key, network_name@, None, hooks.subnet_governance,
                            hooks.lowest_emission_netuid)
                        &&& w.wf()
                        &&& netuid_for_name(w.subnets@, network_name@) is Some
                        &&& r == as_result(register_error(w, key, network_name@, module_key, *hooks))
                        &&& r is Err ==> *final(self) == w
                        &&& r is Ok ==> registration_done(w, *final(self), key, network_name@, module_key, name@,
                            address@, metadata, *hooks)
                    },
                }
            },
    {
        if self.registrations_per_block < self.global.max_registrations_per_block
            && self.get_netuid_for_name(network_name.as_slice()).is_none() {
            let ghost a = *self;
            let subnet_name = crate::modules::clone_bytes(&network_name);
            let made = self.do_register_subnet(key, subnet_name, None, hooks.subnet_governance,
                hooks.lowest_emission_netuid, &hooks.removable);
            if made.is_err() {
                return made;
            }
            let ghost w = *self;
            proof {
                lemma_registered_subnet(a, w, key, network_name@, hooks.subnet_governance, hooks.lowest_emission_netuid, *hooks);
            }
            self.register_module_in(key, network_name, name, address, module_key, metadata, hooks)
        } else {
            self.register_module_in(key, network_name, name, address, module_key, metadata, hooks)
        }
    }

    /// Deregisters the module `key` from subnet `netuid` (see
    /// [`Subspace::remove_module`]); the subnet goes too when left empty and
    /// `removable` lists it. Deposits `ModuleDeregistered`.
    pub fn do_deregister(&mut self, key: u64, netuid: u16, removable: &Vec<u16>) -> (r: Result<(), Error>)
        requires
            old(self).wf(),
        ensures
            final(self).wf(),
            !old(self).spec_is_registered(Some(netuid), key) ==>
                r == Err::<(), Error>(Error::ModuleDoesNotExist) && *final(self) == *old(self),
            r is Ok ==> !final(self).spec_is_registered(Some(netuid), key),
            old(self).spec_is_registered(Some(netuid), key) ==> r is Ok && exists|mid: Subspace, fin: Subspace| {
                &&& #[trigger] module_dropped(*old(self), mid, subnet_pos(old(self).subnets@, netuid),
                    old(self).uid_of(netuid, key)->Some_0 as int)
                &&& mid.wf()
                &&& if old(self).subnets@[subnet_pos(old(self).subnets@, netuid)].keys@.len() == 1 && removable@.contains(netuid) {
                    crate::modules::subnet_dropped(mid, fin, subnet_pos(old(self).subnets@, netuid))
                } else {
                    fin == mid
                }
                &&& #[trigger] fin.wf()
                &&& (Subspace { events: fin.events, ..*final(self) }) == fin
                &&& final(self).events@ == fin.events@.push(
                    Event::ModuleDeregistered(netuid, old(self).uid_of(netuid, key)->Some_0, key))
            },
    {
        let uid = match self.get_uid_for_key(netuid, key) {
            Some(u) => u,
            None => return Err(Error::ModuleDoesNotExist),
        };
        let ghost a = *self;
        let removed = self.remove_module(netuid, uid, true, removable);
        if removed.is_err() {
            return removed;
        }
        proof {
            crate::state::lemma_subnet_pos_pub(a.subnets@, netuid);
            let p = subnet_pos(a.subnets@, netuid);
            let mid = choose|mid: Subspace| #[trigger] module_dropped(a, mid, p, uid as int) && mid.wf()
                && if true && a.subnets@[p].keys@.len() == 1 && removable@.contains(netuid) {
                    crate::modules::subnet_dropped(mid, *self, p)
                } else {
                    *self == mid
                };
            assert(module_dropped(a, mid, p, uid as int));
            let k = a.subnets@[p].keys@;
            assert(subnet_wf(a.subnets@[p]));
            assert(k[uid as int] == key);
            assert(!crate::modules::swap_removed(k, uid as int, k.len() - 1).contains(key)) by {
                if crate::modules::swap_removed(k, uid as int, k.len() - 1).contains(key) {
                    let t = crate::modules::swap_removed(k, uid as int, k.len() - 1);
                    let i = choose|i: int| 0 <= i < t.len() && t[i] == key;
                    if i == uid {
                        assert(k[k.len() - 1] == key);
                    } else {
                        assert(k[i] == key);
                    }
                }
            }
            lemma_dropped_facts(a, mid, p, uid as int, netuid);
            if a.subnets@[p].keys@.len() == 1 && removable@.contains(netuid) {
                crate::state::lemma_subnet_pos_pub(self.subnets@, netuid);
                if subnet_pos(self.subnets@, netuid) >= 0 {
                    let q = subnet_pos(self.subnets@, netuid);
                    let t = if q < p { q } else { q + 1 };
                    assert(self.subnets@[q] == mid.subnets@[t]);
                    assert(mid.subnets@[p].netuid == netuid);
                    assert(mid.subnets@[t].netuid != mid.subnets@[p].netuid);
                }
            }
        }
        if self.is_registered(Some(netuid), key) {
            return Err(Error::StillRegistered);
        }
        let ghost fin = *self;
        self.events.push(Event::ModuleDeregistered(netuid, uid, key));
        proof {
            assert((Subspace { events: fin.events, ..*self }) == fin);
            assert(fin.wf());
        }
        Ok(())
    }

    /// The module of subnet number `idx` to prune to make room for a new
    /// one: among modules past their immunity period (or all, when
    /// `ignore_immunity`) without a validator permit, the oldest with a zero
    /// score, or else the one with the lowest score and then the oldest.
    /// `None` when no module qualifies.
    pub fn get_lowest_uid_at(&self, idx: usize, ignore_immunity: bool) -> (r: Option<u16>)
        requires
            self.wf(),
            idx < self.subnets@.len(),
        ensures
            r is None <==> !has_candidate(self.subnets@[idx as int], self.block, ignore_immunity),
            r matches Some(u) ==> is_lowest(self.subnets@[idx as int], u as int, self.block, ignore_immunity),
    {
        let s = &self.subnets[idx];
        proof {
            assert(subnet_wf(*s));
        }
        let n = s.keys.len();
        let block = self.block;
        let immunity = s.params.immunity_period as u64;
        let mut best_zero: Option<usize> = None;
        let mut best: Option<(usize, I110F18)> = None;
        let mut lo: usize = 0;
        while lo < 256
            invariant
                lo <= 256,
                n == s.keys@.len(),
                n <= u16::MAX,
                subnet_wf(*s),
                immunity == s.params.immunity_period,
                block == self.block,
                *s == self.subnets@[idx as int],
                // candidates seen so far are those whose walk rank is below lo * 256
                best_zero matches Some(z) ==> z < n && prunable(*s, z as int, block, ignore_immunity) && pruning_score(*s, z as int) == 0
                    && walk_rank(z as int) < lo * 256
                    && forall|v: int| #[trigger] prunable(*s, v, block, ignore_immunity) && pruning_score(*s, v) == 0
                        && walk_rank(v) < lo * 256 ==> zero_before(*s, z as int, v),
                best_zero is None ==> forall|v: int| #[trigger] prunable(*s, v, block, ignore_immunity) && walk_rank(v) < lo * 256
                    ==> pruning_score(*s, v) != 0,
                best matches Some(b) ==> b.0 < n && prunable(*s, b.0 as int, block, ignore_immunity) && b.1.bits == pruning_score(*s, b.0 as int)
                    && walk_rank(b.0 as int) < lo * 256
                    && forall|v: int| #[trigger] prunable(*s, v, block, ignore_immunity) && walk_rank(v) < lo * 256
                        ==> score_before(*s, b.0 as int, v),
                best is None ==> forall|v: int| #[trigger] prunable(*s, v, block, ignore_immunity) ==> walk_rank(v) >= lo * 256,
            decreases 256 - lo,
        {
            let mut hi: usize = 0;
            while hi < 256
                invariant
                    lo < 256,
                    hi <= 256,
                    n == s.keys@.len(),
                    n <= u16::MAX,
                    subnet_wf(*s),
                    immunity == s.params.immunity_period,
                    block == self.block,
                    *s == self.subnets@[idx as int],
                    best_zero matches Some(z) ==> z < n && prunable(*s, z as int, block, ignore_immunity) && pruning_score(*s, z as int) == 0
                        && walk_rank(z as int) < lo * 256 + hi
                        && forall|v: int| #[trigger] prunable(*s, v, block, ignore_immunity) && pruning_score(*s, v) == 0
                            && walk_rank(v) < lo * 256 + hi ==> zero_before(*s, z as int, v),
                    best_zero is None ==> forall|v: int| #[trigger] prunable(*s, v, block, ignore_immunity) && walk_rank(v) < lo * 256 + hi
                        ==> pruning_score(*s, v) != 0,
                    best matches Some(b) ==> b.0 < n && prunable(*s, b.0 as int, block, ignore_immunity) && b.1.bits == pruning_score(*s, b.0 as int)
                        && walk_rank(b.0 as int) < lo * 256 + hi
                        && forall|v: int| #[trigger] prunable(*s, v, block, ignore_immunity) && walk_rank(v) < lo * 256 + hi
                            ==> score_before(*s, b.0 as int, v),
                    best is None ==> forall|v: int| #[trigger] prunable(*s, v, block, ignore_immunity) ==> walk_rank(v) >= lo * 256 + hi,
                decreases 256 - hi,
            {
                let u = hi * 256 + lo;
                proof {
                    assert(walk_rank(u as int) == lo * 256 + hi) by (nonlinear_arith)
                        requires u == hi * 256 + lo, 0 <= lo < 256, 0 <= hi < 256;
                    assert forall|v: int| 0 <= v < 65536 && #[trigger] walk_rank(v) == lo * 256 + hi implies v == u by {
                        let a = v % 256;
                        let b = v / 256;
                        assert(v == b * 256 + a && 0 <= a < 256 && 0 <= b < 256) by (nonlinear_arith)
                            requires 0 <= v < 65536, a == v % 256, b == v / 256;
                        assert(a == lo && b == hi) by (nonlinear_arith)
                            requires a * 256 + b == lo * 256 + hi, 0 <= a < 256, 0 <= b < 256, 0 <= lo < 256, 0 <= hi < 256;
                    }
                }
                if u < n {
                    let reg = s.registration_block[u];
                    let age = block.saturating_sub(reg);
                    let permit = if u < s.validator_permits.len() { s.validator_permits[u] } else { false };
                    if (ignore_immunity || age >= immunity) && !permit {
                        let score = compute_pruning_score(s, u);
                        if score.bits == 0 {
                            match best_zero {
                                Some(z) => {
                                    if reg < s.registration_block[z] {
                                        best_zero = Some(u);
                                    }
                                },
                                None => {
                                    best_zero = Some(u);
                                },
                            }
                        }
                        match best {
                            Some(b) => {
                                if score.bits < b.1.bits || (score.bits == b.1.bits && reg < s.registration_block[b.0]) {
                                    best = Some((u, score));
                                }
                            },
                            None => {
                                best = Some((u, score));
                            },
                        }
                    }
                }
                hi = hi + 1;
            }
            lo = lo + 1;
        }
        proof {
            assert forall|v: int| #[trigger] prunable(*s, v, block, ignore_immunity) implies walk_rank(v) < 256 * 256 by {
                assert(0 <= v < 65536);
                assert(walk_rank(v) < 65536) by (nonlinear_arith) requires 0 <= v < 65536;
            }
        }
        match best_zero {
            Some(z) => Some(z as u16),
            None => match best {
                Some(b) => Some(b.0 as u16),
                None => None,
            },
        }
    }
}

} // verus!
