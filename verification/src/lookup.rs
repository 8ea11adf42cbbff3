//! Lookups into one subnet: its uids, its keys and the per-module values of
//! the last epoch. A subnet that does not exist reads as one with no module.
use vstd::prelude::*;
use crate::modules::clone_bytes;
use crate::params::SubnetParams;
use crate::ledger::stake_from_seq;
use crate::state::{lemma_subnet_pos_pub, subnet_pos, subnet_wf, Subspace};

verus! {

/// The keys of subnet `netuid` in uid order, or none if it does not exist.
pub open spec fn keys_of(p: Subspace, netuid: u16) -> Seq<u64> {
    let i = subnet_pos(p.subnets@, netuid);
    if i >= 0 { p.subnets@[i].keys@ } else { Seq::empty() }
}

/// Element `uid` of a per-module vector, or zero past its end.
pub open spec fn at_or_zero<T>(v: Seq<T>, uid: u16, zero: T) -> T {
    if (uid as int) < v.len() { v[uid as int] } else { zero }
}

/// What the runtime API reports of one module on one subnet.
#[derive(Clone, Debug)]
pub struct ModuleStats {
    pub last_update: u64,
    pub registration_block: u64,
    /// The stakers on the module and their stake, ordered by staker.
    pub stake_from: Vec<(u64, u64)>,
    pub emission: u64,
    pub incentive: u16,
    pub dividends: u16,
    /// The weights the module set that are not zero, as `(uid, weight)`.
    pub weights: Vec<(u16, u16)>,
}

/// The weights of a list that are not zero, in order.
pub open spec fn nonzero_weights(w: Seq<(u16, u16)>) -> Seq<(u16, u16)>
    decreases w.len(),
{
    if w.len() == 0 {
        Seq::empty()
    } else {
        let p = nonzero_weights(w.drop_last());
        if w.last().1 > 0 { p.push(w.last()) } else { p }
    }
}

/// The uid of `key` on subnet `netuid`, or `u16::MAX` (which no module
/// holds) if it has none.
pub open spec fn uid_or_max(p: Subspace, netuid: u16, key: u64) -> u16 {
    match p.uid_of(netuid, key) {
        Some(u) => u,
        None => u16::MAX,
    }
}

/// A byte string that may be absent, by its contents.
pub open spec fn bytes_view(o: Option<Vec<u8>>) -> Option<Seq<u8>> {
    match o {
        Some(v) => Some(v@),
        None => None,
    }
}

/// Whether two sets of subnet parameters hold the same values.
pub open spec fn same_params(a: SubnetParams, b: SubnetParams) -> bool {
    &&& a.founder == b.founder
    &&& a.founder_share == b.founder_share
    &&& a.immunity_period == b.immunity_period
    &&& a.incentive_ratio == b.incentive_ratio
    &&& a.max_allowed_uids == b.max_allowed_uids
    &&& a.max_allowed_weights == b.max_allowed_weights
    &&& a.min_allowed_weights == b.min_allowed_weights
    &&& a.max_weight_age == b.max_weight_age
    &&& a.name@ == b.name@
    &&& bytes_view(a.metadata) == bytes_view(b.metadata)
    &&& a.tempo == b.tempo
    &&& a.maximum_set_weight_calls_per_epoch == b.maximum_set_weight_calls_per_epoch
    &&& a.bonds_ma == b.bonds_ma
    &&& a.module_burn_config == b.module_burn_config
    &&& a.min_validator_stake == b.min_validator_stake
    &&& a.max_allowed_validators == b.max_allowed_validators
    &&& a.governance_config == b.governance_config
    &&& a.use_weights_encryption == b.use_weights_encryption
    &&& a.copier_margin == b.copier_margin
    &&& a.max_encryption_period == b.max_encryption_period
}

impl Subspace {
    /// The key of module `uid` on subnet `netuid`, if that uid is taken.
    pub fn get_key_for_uid(&self, netuid: u16, uid: u16) -> (r: Option<u64>)
        ensures
            r == (if (uid as int) < keys_of(*self, netuid).len() {
                Some(keys_of(*self, netuid)[uid as int])
            } else {
                None::<u64>
            }),
    {
        match self.subnet_index(netuid) {
            Some(i) => {
                if (uid as usize) < self.subnets[i].keys.len() {
                    Some(self.subnets[i].keys[uid as usize])
                } else {
                    None
                }
            },
            None => None,
        }
    }

    /// Whether `key` holds a uid on subnet `netuid`.
    pub fn key_registered(&self, netuid: u16, key: u64) -> (r: bool)
        ensures
            r == keys_of(*self, netuid).contains(key),
    {
        self.is_registered(Some(netuid), key)
    }

    /// The netuids of all subnets, in the order the subnets are kept.
    pub fn netuids(&self) -> (r: Vec<u16>)
        ensures
            r@.len() == self.subnets@.len(),
            forall|i: int| 0 <= i < r@.len() ==> r@[i] == #[trigger] self.subnets@[i].netuid,
    {
        let mut r: Vec<u16> = Vec::new();
        let mut i: usize = 0;
        while i < self.subnets.len()
            invariant
                i <= self.subnets@.len(),
                r@.len() == i,
                forall|t: int| 0 <= t < i ==> r@[t] == #[trigger] self.subnets@[t].netuid,
            decreases self.subnets@.len() - i,
        {
            r.push(self.subnets[i].netuid);
            i = i + 1;
        }
        r
    }

    /// The uids taken on subnet `netuid`: `0` up to its module count.
    pub fn get_uids(&self, netuid: u16) -> (r: Vec<u16>)
        requires
            self.wf(),
        ensures
            r@.len() == keys_of(*self, netuid).len(),
            forall|u: int| 0 <= u < r@.len() ==> r@[u] == u,
    {
        let n: usize = match self.subnet_index(netuid) {
            Some(i) => {
                proof {
                    assert(subnet_wf(self.subnets@[i as int]));
                }
                self.subnets[i].keys.len()
            },
            None => 0,
        };
        let mut r: Vec<u16> = Vec::new();
        let mut u: usize = 0;
        while u < n
            invariant
                n == keys_of(*self, netuid).len(),
                n <= u16::MAX,
                u <= n,
                r@.len() == u,
                forall|t: int| 0 <= t < u ==> r@[t] == t,
            decreases n - u,
        {
            r.push(u as u16);
            u = u + 1;
        }
        r
    }

    /// The keys of subnet `netuid`, in uid order.
    pub fn get_keys(&self, netuid: u16) -> (r: Vec<u64>)
        ensures
            r@ == keys_of(*self, netuid),
    {
        match self.subnet_index(netuid) {
            Some(i) => crate::state::copy_keys(&self.subnets[i].keys),
            None => Vec::new(),
        }
    }

    /// Each uid of subnet `netuid` with its key, in uid order.
    pub fn get_uid_key_tuples(&self, netuid: u16) -> (r: Vec<(u16, u64)>)
        requires
            self.wf(),
        ensures
            r@.len() == keys_of(*self, netuid).len(),
            forall|u: int| 0 <= u < r@.len() ==> #[trigger] r@[u] == (u as u16, keys_of(*self, netuid)[u]),
    {
        let keys = self.get_keys(netuid);
        proof {
            lemma_subnet_pos_pub(self.subnets@, netuid);
            let p = subnet_pos(self.subnets@, netuid);
            if p >= 0 {
                assert(subnet_wf(self.subnets@[p]));
            }
        }
        let mut r: Vec<(u16, u64)> = Vec::new();
        let mut u: usize = 0;
        while u < keys.len()
            invariant
                keys@ == keys_of(*self, netuid),
                keys@.len() <= u16::MAX,
                u <= keys@.len(),
                r@.len() == u,
                forall|t: int| 0 <= t < u ==> #[trigger] r@[t] == (t as u16, keys@[t]),
            decreases keys@.len() - u,
        {
            r.push((u as u16, keys[u]));
            u = u + 1;
        }
        r
    }

    /// The parameters of subnet `netuid`, or `None` if it does not exist.
    pub fn subnet_params(&self, netuid: u16) -> (r: Option<SubnetParams>)
        ensures
            r.is_some() == (subnet_pos(self.subnets@, netuid) >= 0),
            r matches Some(q) ==> same_params(q, self.subnets@[subnet_pos(self.subnets@, netuid)].params),
    {
        match self.subnet_index(netuid) {
            Some(i) => {
                let p = &self.subnets[i].params;
                let metadata = match &p.metadata {
                    Some(m) => Some(clone_bytes(m)),
                    None => None,
                };
                let r = SubnetParams {
                    founder: p.founder,
                    founder_share: p.founder_share,
                    immunity_period: p.immunity_period,
                    incentive_ratio: p.incentive_ratio,
                    max_allowed_uids: p.max_allowed_uids,
                    max_allowed_weights: p.max_allowed_weights,
                    min_allowed_weights: p.min_allowed_weights,
                    max_weight_age: p.max_weight_age,
                    name: clone_bytes(&p.name),
                    metadata,
                    tempo: p.tempo,
                    maximum_set_weight_calls_per_epoch: p.maximum_set_weight_calls_per_epoch,
                    bonds_ma: p.bonds_ma,
                    module_burn_config: p.module_burn_config,
                    min_validator_stake: p.min_validator_stake,
                    max_allowed_validators: p.max_allowed_validators,
                    governance_config: p.governance_config,
                    use_weights_encryption: p.use_weights_encryption,
                    copier_margin: p.copier_margin,
                    max_encryption_period: p.max_encryption_period,
                };
                Some(r)
            },
            None => None,
        }
    }

    /// What the runtime API reports of module `key` on subnet `netuid`:
    /// the values at its uid (zero, or no weight, where it has none) and
    /// the stake on it.
    pub fn get_module_stats(&self, netuid: u16, key: u64) -> (r: ModuleStats)
        requires
            self.wf(),
        ensures
            ({
                let i = subnet_pos(self.subnets@, netuid);
                let u = uid_or_max(*self, netuid, key);
                &&& r.stake_from@ == stake_from_seq(self.ledger.entry_seq(), key)
                &&& i < 0 ==> r.emission == 0 && r.incentive == 0 && r.dividends == 0 && r.last_update == 0
                    && r.registration_block == 0 && r.weights@ == Seq::<(u16, u16)>::empty()
                &&& i >= 0 ==> {
                    let s = self.subnets@[i];
                    &&& r.emission == at_or_zero(s.emission@, u, 0u64)
                    &&& r.incentive == at_or_zero(s.incentive@, u, 0u16)
                    &&& r.dividends == at_or_zero(s.dividends@, u, 0u16)
                    &&& r.last_update == at_or_zero(s.last_update@, u, 0u64)
                    &&& r.registration_block == at_or_zero(s.registration_block@, u, 0u64)
                    &&& r.weights@ == (if (u as int) < s.weights@.len() {
                        nonzero_weights(s.weights@[u as int]@)
                    } else {
                        Seq::<(u16, u16)>::empty()
                    })
                }
            }),
    {
        let uid: u16 = match self.get_uid_for_key(netuid, key) {
            Some(u) => u,
            None => u16::MAX,
        };
        let stake_from = self.ledger.get_stake_from_vector(key);
        let emission = self.get_emission_for_uid(netuid, uid);
        let incentive = self.get_incentive_for_uid(netuid, uid);
        let dividends = self.get_dividends_for_uid(netuid, uid);
        let last_update = self.get_last_update_for_uid(netuid, uid);
        let mut registration_block: u64 = 0;
        let mut weights: Vec<(u16, u16)> = Vec::new();
        match self.subnet_index(netuid) {
            Some(i) => {
                let s = &self.subnets[i];
                if (uid as usize) < s.registration_block.len() {
                    registration_block = s.registration_block[uid as usize];
                }
                if (uid as usize) < s.weights.len() {
                    let w = &s.weights[uid as usize];
                    let mut j: usize = 0;
                    while j < w.len()
                        invariant
                            j <= w@.len(),
                            weights@ == nonzero_weights(w@.take(j as int)),
                        decreases w@.len() - j,
                    {
                        proof {
                            assert(w@.take(j + 1).drop_last() =~= w@.take(j as int));
                        }
                        if w[j].1 > 0 {
                            weights.push(w[j]);
                        }
                        j = j + 1;
                    }
                    proof {
                        assert(w@.take(w@.len() as int) =~= w@);
                    }
                }
            },
            None => {},
        }
        ModuleStats { last_update, registration_block, stake_from, emission, incentive, dividends, weights }
    }

    /// The emission of module `uid` on subnet `netuid` in the last epoch, or
    /// zero.
    pub fn get_emission_for_uid(&self, netuid: u16, uid: u16) -> (r: u64)
        ensures
            r == (if subnet_pos(self.subnets@, netuid) >= 0 {
                at_or_zero(self.subnets@[subnet_pos(self.subnets@, netuid)].emission@, uid, 0u64)
            } else {
                0u64
            }),
    {
        match self.subnet_index(netuid) {
            Some(i) => {
                if (uid as usize) < self.subnets[i].emission.len() { self.subnets[i].emission[uid as usize] } else { 0 }
            },
            None => 0,
        }
    }

    /// The incentive of module `uid` on subnet `netuid` in the last epoch,
    /// or zero.
    pub fn get_incentive_for_uid(&self, netuid: u16, uid: u16) -> (r: u16)
        ensures
            r == (if subnet_pos(self.subnets@, netuid) >= 0 {
                at_or_zero(self.subnets@[subnet_pos(self.subnets@, netuid)].incentive@, uid, 0u16)
            } else {
                0u16
            }),
    {
        match self.subnet_index(netuid) {
            Some(i) => {
                if (uid as usize) < self.subnets[i].incentive.len() { self.subnets[i].incentive[uid as usize] } else { 0 }
            },
            None => 0,
        }
    }

    /// The dividends of module `uid` on subnet `netuid` in the last epoch,
    /// or zero.
    pub fn get_dividends_for_uid(&self, netuid: u16, uid: u16) -> (r: u16)
        ensures
            r == (if subnet_pos(self.subnets@, netuid) >= 0 {
                at_or_zero(self.subnets@[subnet_pos(self.subnets@, netuid)].dividends@, uid, 0u16)
            } else {
                0u16
            }),
    {
        match self.subnet_index(netuid) {
            Some(i) => {
                if (uid as usize) < self.subnets[i].dividends.len() { self.subnets[i].dividends[uid as usize] } else { 0 }
            },
            None => 0,
        }
    }

    /// The block at which module `uid` on subnet `netuid` last set weights,
    /// or zero.
    pub fn get_last_update_for_uid(&self, netuid: u16, uid: u16) -> (r: u64)
        ensures
            r == (if subnet_pos(self.subnets@, netuid) >= 0 {
                at_or_zero(self.subnets@[subnet_pos(self.subnets@, netuid)].last_update@, uid, 0u64)
            } else {
                0u64
            }),
    {
        match self.subnet_index(netuid) {
            Some(i) => {
                if (uid as usize) < self.subnets[i].last_update.len() { self.subnets[i].last_update[uid as usize] } else { 0 }
            },
            None => 0,
        }
    }
}

} // verus!
