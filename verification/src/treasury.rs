//! Where the root network's founder emission goes: a share to the founders
//! of the subnets that hold enough of the stake, the rest to the DAO
//! treasury.
use vstd::prelude::*;
use crate::balances::credited;
use crate::ledger::{get_or_zero, StakeModel};
use crate::linear::sat_sum;
use crate::percent::Percent;
use crate::state::{subnet_pos, SubnetState, Subspace};

verus! {

/// What the governance of the network decides about the root network's
/// founder emission: the part handed to subnet founders, and the treasury
/// that receives the rest.
#[derive(Clone, Copy, Debug, PartialEq, Eq, Structural)]
pub struct TreasuryHooks {
    pub dao_treasury_distribution: Percent,
    pub dao_treasury_address: u64,
}

/// The stake of subnet `s` in the stake model `m`: the stake counters of its
/// modules, summed (saturating).
pub open spec fn stake_in(m: StakeModel, s: SubnetState) -> u64 {
    sat_sum(s.keys@.map_values(|k: u64| get_or_zero(m.module_stakes, k)))
}

/// `x` out of `total` in whole percent, as a percentage (the quotient cut to
/// a byte, then capped at 100); zero when `total` is zero.
pub open spec fn stake_percent(x: int, total: int) -> u8 {
    if total == 0 {
        0
    } else {
        let p = ((x * 100) / total) as u8;
        if p > 100 { 100 } else { p }
    }
}

/// Whether subnet `s` is not the root network and holds at least
/// `threshold` of the total stake.
pub open spec fn qualifies(m: StakeModel, s: SubnetState, threshold: Percent) -> bool {
    s.netuid != 0 && threshold.parts <= stake_percent(stake_in(m, s) as int, m.total as int)
}

/// The stake of the subnets that qualify, summed.
pub open spec fn qualifying_sum(m: StakeModel, subs: Seq<SubnetState>, threshold: Percent) -> int
    decreases subs.len(),
{
    if subs.len() == 0 {
        0
    } else {
        qualifying_sum(m, subs.drop_last(), threshold) + (if qualifies(m, subs.last(), threshold) {
            stake_in(m, subs.last()) as int
        } else {
            0
        })
    }
}

/// The balances after the founder of each qualifying subnet, in order, is
/// credited its percentage (of `total`) of `to_distribute`.
pub open spec fn founders_credited(b: Map<u64, u64>, m: StakeModel, subs: Seq<SubnetState>, threshold: Percent, total: int,
    to_distribute: u64) -> Map<u64, u64>
    decreases subs.len(),
{
    if subs.len() == 0 {
        b
    } else {
        let prev = founders_credited(b, m, subs.drop_last(), threshold, total, to_distribute);
        let s = subs.last();
        if qualifies(m, s, threshold) {
            credited(prev, s.params.founder, ((to_distribute * stake_percent(stake_in(m, s) as int, total)) / 100) as u64)
        } else {
            prev
        }
    }
}

/// The stake of the root network, zero when there is none.
pub open spec fn root_stake(m: StakeModel, subs: Seq<SubnetState>) -> int {
    if subnet_pos(subs, 0) >= 0 { stake_in(m, subs[subnet_pos(subs, 0)]) as int } else { 0 }
}

/// The balances after the root network's founder emission is handed out:
/// when the distribution is set and some stake lies outside the root
/// network, the founders of the qualifying subnets get their share of the
/// distributed part (see [`founders_credited`]); the treasury gets the rest.
pub open spec fn treasury_balances(b: Map<u64, u64>, m: StakeModel, subs: Seq<SubnetState>, founder_emission: u64,
    h: TreasuryHooks, threshold: Percent) -> Map<u64, u64> {
    if h.dao_treasury_distribution.parts != 0 && m.total - root_stake(m, subs) > 0 {
        let to_distribute = ((founder_emission * h.dao_treasury_distribution.parts) / 100) as u64;
        let total = qualifying_sum(m, subs, threshold);
        credited(founders_credited(b, m, subs, threshold, total, to_distribute), h.dao_treasury_address,
            (founder_emission - to_distribute) as u64)
    } else {
        credited(b, h.dao_treasury_address, founder_emission)
    }
}

proof fn lemma_qualifying_prefix(m: StakeModel, subs: Seq<SubnetState>, threshold: Percent, k: int)
    requires
        0 <= k <= subs.len(),
    ensures
        0 <= qualifying_sum(m, subs.take(k), threshold) <= qualifying_sum(m, subs, threshold),
    decreases subs.len() - k,
{
    if k < subs.len() {
        lemma_qualifying_prefix(m, subs, threshold, k + 1);
        assert(subs.take(k + 1).drop_last() =~= subs.take(k));
        lemma_qualifying_nonneg(m, subs.take(k), threshold);
    } else {
        assert(subs.take(k) =~= subs);
        lemma_qualifying_nonneg(m, subs, threshold);
    }
}

proof fn lemma_qualifying_nonneg(m: StakeModel, subs: Seq<SubnetState>, threshold: Percent)
    ensures
        qualifying_sum(m, subs, threshold) >= 0,
    decreases subs.len(),
{
    if subs.len() > 0 {
        lemma_qualifying_nonneg(m, subs.drop_last(), threshold);
    }
}

/// Whether two subnet lists agree on what the founder emission depends on:
/// netuids, keys and founders.
pub open spec fn same_shape(a: Seq<SubnetState>, b: Seq<SubnetState>) -> bool {
    &&& a.len() == b.len()
    &&& forall|i: int| 0 <= i < a.len() ==> (#[trigger] a[i]).netuid == b[i].netuid && a[i].keys@ == b[i].keys@
        && a[i].params.founder == b[i].params.founder
}

proof fn lemma_same_shape_sums(m: StakeModel, a: Seq<SubnetState>, b: Seq<SubnetState>, threshold: Percent, total: int,
    to_distribute: u64, bal: Map<u64, u64>)
    requires
        same_shape(a, b),
    ensures
        qualifying_sum(m, a, threshold) == qualifying_sum(m, b, threshold),
        founders_credited(bal, m, a, threshold, total, to_distribute) == founders_credited(bal, m, b, threshold, total, to_distribute),
    decreases a.len(),
{
    if a.len() > 0 {
        assert(same_shape(a.drop_last(), b.drop_last())) by {
            assert forall|i: int| 0 <= i < a.drop_last().len() implies (#[trigger] a.drop_last()[i]).netuid == b.drop_last()[i].netuid
                && a.drop_last()[i].keys@ == b.drop_last()[i].keys@ && a.drop_last()[i].params.founder == b.drop_last()[i].params.founder by {
                assert(a.drop_last()[i] == a[i] && b.drop_last()[i] == b[i]);
            }
        }
        lemma_same_shape_sums(m, a.drop_last(), b.drop_last(), threshold, total, to_distribute, bal);
        assert(a.last() == a[a.len() - 1] && b.last() == b[b.len() - 1]);
        assert(stake_in(m, a.last()) == stake_in(m, b.last()));
    }
}

/// The founder emission is handed out alike over subnet lists of the same
/// shape.
pub proof fn lemma_same_shape_treasury(b: Map<u64, u64>, m: StakeModel, x: Seq<SubnetState>, y: Seq<SubnetState>,
    founder_emission: u64, h: TreasuryHooks, threshold: Percent)
    requires
        same_shape(x, y),
    ensures
        qualifying_sum(m, x, threshold) == qualifying_sum(m, y, threshold),
        treasury_balances(b, m, x, founder_emission, h, threshold) == treasury_balances(b, m, y, founder_emission, h, threshold),
{
    let to_distribute = ((founder_emission * h.dao_treasury_distribution.parts) / 100) as u64;
    let total = qualifying_sum(m, x, threshold);
    lemma_same_shape_sums(m, x, y, threshold, total, to_distribute, b);
    crate::state::lemma_subnet_pos_pub(x, 0);
    crate::state::lemma_subnet_pos_pub(y, 0);
    assert forall|i: int| 0 <= i < x.len() implies #[trigger] x[i].netuid == y[i].netuid by {}
    crate::state::lemma_subnet_pos_same_netuids(x, y, 0);
    if subnet_pos(x, 0) >= 0 {
        assert(stake_in(m, x[subnet_pos(x, 0)]) == stake_in(m, y[subnet_pos(y, 0)]));
    }
}

/// `x` out of `total` in whole percent, as [`stake_percent`] computes it.
fn percent_of(x: u64, total: u128) -> (r: Percent)
    ensures
        r.parts == stake_percent(x as int, total as int),
{
    if total == 0 {
        return Percent { parts: 0 };
    }
    let q: u128 = (x as u128 * 100) / total;
    Percent::from_parts(q as u8)
}

impl Subspace {
    /// Hands out the root network's founder emission (see
    /// [`treasury_balances`]), with the subnets' stake as it stands.
    pub fn distribute_root_founder_emission(&mut self, founder_emission: u64, subnet_stake_threshold: Percent,
        hooks: &TreasuryHooks)
        requires
            old(self).wf(),
            hooks.dao_treasury_distribution.parts <= 100,
            qualifying_sum(old(self).ledger.model(), old(self).subnets@, subnet_stake_threshold) <= u64::MAX,
        ensures
            final(self).wf(),
            final(self).balances.free_map() == treasury_balances(old(self).balances.free_map(), old(self).ledger.model(),
                old(self).subnets@, founder_emission, *hooks, subnet_stake_threshold),
            final(self).balances.min_balance() == old(self).balances.min_balance(),
            *final(self) == (Subspace { balances: final(self).balances, ..*old(self) }),
    {
        let ghost m = self.ledger.model();
        let ghost subs = self.subnets@;
        let total_stake = self.ledger.total_stake() as u128;
        let root = match self.subnet_index(0) {
            Some(i) => self.get_total_subnet_stake(i),
            None => 0,
        };
        let treasury = hooks.dao_treasury_address;
        let distribution = hooks.dao_treasury_distribution;
        if distribution.parts == 0 || total_stake <= root as u128 {
            self.balances.add_balance_to_account(treasury, founder_emission);
            return;
        }
        let to_distribute = distribution.mul_floor(founder_emission);
        proof {
            assert((founder_emission * distribution.parts) / 100 <= founder_emission) by (nonlinear_arith)
                requires distribution.parts <= 100;
        }
        let rest = founder_emission - to_distribute;
        let n = self.subnets.len();
        let mut total: u64 = 0;
        let mut i: usize = 0;
        while i < n
            invariant
                n == subs.len(),
                subs == self.subnets@,
                m == self.ledger.model(),
                total_stake == m.total,
                i <= n,
                qualifying_sum(m, subs, subnet_stake_threshold) <= u64::MAX,
                total == qualifying_sum(m, subs.take(i as int), subnet_stake_threshold),
            decreases n - i,
        {
            proof {
                assert(subs.take(i + 1).drop_last() =~= subs.take(i as int));
                lemma_qualifying_prefix(m, subs, subnet_stake_threshold, i + 1);
            }
            let s = self.get_total_subnet_stake(i);
            if self.subnets[i].netuid != 0
                && subnet_stake_threshold.parts <= percent_of(s, total_stake).parts {
                total = total + s;
            }
            i = i + 1;
        }
        proof {
            assert(subs.take(n as int) =~= subs);
        }
        let ghost start = *self;
        let mut i: usize = 0;
        while i < n
            invariant
                n == subs.len(),
                subs == self.subnets@,
                m == self.ledger.model(),
                total_stake == m.total,
                total == qualifying_sum(m, subs, subnet_stake_threshold),
                i <= n,
                self.wf(),
                *self == (Subspace { balances: self.balances, ..start }),
                self.balances.min_balance() == start.balances.min_balance(),
                self.balances.free_map() == founders_credited(start.balances.free_map(), m, subs.take(i as int),
                    subnet_stake_threshold, total as int, to_distribute),
            decreases n - i,
        {
            proof {
                assert(subs.take(i + 1).drop_last() =~= subs.take(i as int));
                assert(subs.take(i + 1).last() == subs[i as int]);
            }
            let s = self.get_total_subnet_stake(i);
            if self.subnets[i].netuid != 0
                && subnet_stake_threshold.parts <= percent_of(s, total_stake).parts {
                let share = percent_of(s, total as u128);
                let founder = self.subnets[i].params.founder;
                let amount = share.mul_floor(to_distribute);
                self.balances.add_balance_to_account(founder, amount);
            }
            i = i + 1;
        }
        proof {
            assert(subs.take(n as int) =~= subs);
        }
        self.balances.add_balance_to_account(treasury, rest);
    }
}

} // verus!
