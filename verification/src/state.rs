//! The pallet's storage as plain values, and the operations on it.
use vstd::prelude::*;
use crate::balances::Balances;
use crate::burn::GeneralBurnConfiguration;
use crate::config::PalletConfig;
use crate::errors::Error;
use crate::events::Event;
use crate::ledger::StakeLedger;
use crate::params::{as_result, check_global_params, global_params_error, GlobalParams, MinimumFees, ModuleFees, SubnetParams};
use std::collections::HashMap;

verus! {

broadcast use vstd::std_specs::hash::group_hash_axioms;

/// The storage of one subnet. The per-module vectors are indexed by uid and
/// all have one element per registered module.
pub struct SubnetState {
    pub netuid: u16,
    pub params: SubnetParams,
    /// The key of each module.
    pub keys: Vec<u64>,
    /// The name of each module.
    pub names: Vec<Vec<u8>>,
    /// The address of each module.
    pub addresses: Vec<Vec<u8>>,
    /// The metadata of each module.
    pub metadata: Vec<Option<Vec<u8>>>,
    /// The block at which each module registered.
    pub registration_block: Vec<u64>,
    /// The block at which each module last set weights.
    pub last_update: Vec<u64>,
    /// The emission of each module in the last epoch.
    pub emission: Vec<u64>,
    /// The incentive of each module, as a 16-bit proportion.
    pub incentive: Vec<u16>,
    /// The dividends of each module, as a 16-bit proportion.
    pub dividends: Vec<u16>,
    /// The weights each module set, as `(uid, weight)` pairs.
    pub weights: Vec<Vec<(u16, u16)>>,
    /// The current registration burn.
    pub burn: u64,
    pub registrations_this_interval: u16,
    pub pending_emission: u64,
    /// The share of the incentive given by trust, in percent.
    pub trust_ratio: u16,
    /// The trust of each module, as a 16-bit proportion.
    pub trust: Vec<u16>,
    /// Whether each module holds a validator permit.
    pub validator_permits: Vec<bool>,
}

/// Whether the per-module vectors of a subnet have one element per key and
/// no key occurs twice.
pub open spec fn subnet_wf(s: SubnetState) -> bool {
    let n = s.keys@.len();
    &&& n <= u16::MAX
    &&& s.names@.len() == n
    &&& s.addresses@.len() == n
    &&& s.metadata@.len() == n
    &&& s.registration_block@.len() == n
    &&& s.last_update@.len() == n
    &&& s.weights@.len() == n
    &&& s.validator_permits@.len() == n
    &&& s.keys@.no_duplicates()
}

/// The position of subnet `netuid`, or -1.
pub open spec fn subnet_pos(s: Seq<SubnetState>, netuid: u16) -> int
    decreases s.len(),
{
    if s.len() == 0 {
        -1
    } else {
        let p = subnet_pos(s.drop_last(), netuid);
        if p >= 0 { p } else if s.last().netuid == netuid { s.len() - 1 } else { -1 }
    }
}

/// Whether some subnet has `key` registered.
pub open spec fn registered_anywhere(s: Seq<SubnetState>, key: u64) -> bool {
    exists|i: int| 0 <= i < s.len() && #[trigger] subnet_has_key(s, i, key)
}

/// Whether subnet number `i` has `key` registered.
pub open spec fn subnet_has_key(s: Seq<SubnetState>, i: int, key: u64) -> bool {
    s[i].keys@.contains(key)
}

proof fn lemma_subnet_pos(s: Seq<SubnetState>, netuid: u16)
    ensures
        -1 <= subnet_pos(s, netuid) < s.len(),
        subnet_pos(s, netuid) >= 0 ==> s[subnet_pos(s, netuid)].netuid == netuid,
        subnet_pos(s, netuid) < 0 ==> forall|i: int| 0 <= i < s.len() ==> #[trigger] s[i].netuid != netuid,
    decreases s.len(),
{
    if s.len() > 0 {
        lemma_subnet_pos(s.drop_last(), netuid);
        let p = subnet_pos(s.drop_last(), netuid);
        if p >= 0 {
            assert(s.drop_last()[p] == s[p]);
        } else {
            assert forall|i: int| 0 <= i < s.len() - 1 implies #[trigger] s[i].netuid != netuid by {
                assert(s.drop_last()[i] == s[i]);
            }
        }
    }
}

/// The network's counters, as the runtime API reports them.
#[derive(Clone, Copy, Debug, PartialEq, Eq, Structural)]
pub struct GlobalState {
    pub registrations_per_block: u16,
    pub total_subnets: u16,
}

/// The whole storage of the pallet.
pub struct Subspace {
    pub config: PalletConfig,
    pub global: GlobalParams,
    pub subnets: Vec<SubnetState>,
    pub ledger: StakeLedger,
    pub balances: Balances,
    pub registrations_per_block: u16,
    /// The current block number.
    pub block: u64,
    /// The fees each validator charges; the defaults apply to one without an entry.
    pub fees: HashMap<u64, ModuleFees>,
    /// The lowest fees a validator may charge.
    pub min_fees: MinimumFees,
    /// Netuids freed by removed subnets, ascending.
    pub subnet_gaps: Vec<u16>,
    /// The current burn for registering a subnet.
    pub subnet_burn: u64,
    /// How the subnet registration burn adjusts.
    pub subnet_burn_config: GeneralBurnConfiguration,
    pub subnet_registrations_this_interval: u16,
    /// The events deposited so far, oldest first.
    pub events: Vec<Event>,
}

impl Subspace {
    /// Whether every subnet is well formed, no netuid occurs twice and the
    /// ledger is sorted.
    pub open spec fn wf(&self) -> bool {
        &&& self.ledger.wf()
        &&& self.subnets@.len() <= u16::MAX
        &&& forall|i: int| 0 <= i < self.subnets@.len() ==> subnet_wf(#[trigger] self.subnets@[i])
        &&& forall|i: int, j: int| 0 <= i < j < self.subnets@.len() ==> #[trigger] self.subnets@[i].netuid != #[trigger] self.subnets@[j].netuid
        &&& forall|i: int, j: int| 0 <= i < j < self.subnet_gaps@.len() ==> #[trigger] self.subnet_gaps@[i] < #[trigger] self.subnet_gaps@[j]
        &&& self.global.floor_stake_delegation_fee.parts <= 100
        &&& forall|k: u64| #[trigger] self.fees@.contains_key(k) ==> self.fees@[k].stake_delegation_fee.parts <= 100
    }

    /// Whether `key` is registered on subnet `netuid`, or on any subnet when
    /// `netuid` is `None`.
    pub open spec fn spec_is_registered(&self, netuid: Option<u16>, key: u64) -> bool {
        match netuid {
            Some(n) => {
                let p = subnet_pos(self.subnets@, n);
                p >= 0 && self.subnets@[p].keys@.contains(key)
            },
            None => registered_anywhere(self.subnets@, key),
        }
    }

    /// Whether `self` and `other` agree on everything but the stake storage
    /// and the free balances.
    pub open spec fn same_but_holdings(&self, other: Subspace) -> bool {
        &&& self.balances.min_balance() == other.balances.min_balance()
        &&& self.config == other.config
        &&& self.global == other.global
        &&& self.subnets@ == other.subnets@
        &&& self.registrations_per_block == other.registrations_per_block
        &&& self.block == other.block
        &&& self.fees@ == other.fees@
        &&& self.min_fees == other.min_fees
        &&& self.subnet_gaps@ == other.subnet_gaps@
        &&& self.subnet_burn == other.subnet_burn
        &&& self.subnet_burn_config == other.subnet_burn_config
        &&& self.subnet_registrations_this_interval == other.subnet_registrations_this_interval
        &&& self.events == other.events
    }

    /// Whether `self` and `other` agree on everything but the stake storage,
    /// the free balances and the fees.
    pub open spec fn same_but_holdings_and_fees(&self, other: Subspace) -> bool {
        &&& self.ledger.wf()
        &&& self.balances.min_balance() == other.balances.min_balance()
        &&& self.config == other.config
        &&& self.global == other.global
        &&& self.subnets@ == other.subnets@
        &&& self.registrations_per_block == other.registrations_per_block
        &&& self.block == other.block
        &&& self.min_fees == other.min_fees
        &&& self.subnet_gaps@ == other.subnet_gaps@
        &&& self.subnet_burn == other.subnet_burn
        &&& self.subnet_burn_config == other.subnet_burn_config
        &&& self.subnet_registrations_this_interval == other.subnet_registrations_this_interval
        &&& self.events == other.events
    }

    /// A pallet with no subnet, no stake and no balance.
    pub fn new(config: PalletConfig, global: GlobalParams, existential_deposit: u64, min_fees: MinimumFees,
        subnet_burn_config: GeneralBurnConfiguration) -> (r: Subspace)
        requires
            global.floor_stake_delegation_fee.parts <= 100,
        ensures
            r.wf(),
            r.config == config,
            r.global == global,
            r.subnets@.len() == 0,
            r.ledger.stakes() == Map::<(u64, u64), u64>::empty(),
            r.ledger.module_stakes() == Map::<u64, u64>::empty(),
            r.ledger.total() == 0,
            r.balances.free_map() == Map::<u64, u64>::empty(),
            r.balances.min_balance() == existential_deposit,
            r.registrations_per_block == 0,
            r.block == 0,
            r.fees@ == Map::<u64, ModuleFees>::empty(),
            r.min_fees == min_fees,
            r.subnet_gaps@.len() == 0,
            r.subnet_burn == subnet_burn_config.min_burn,
            r.subnet_burn_config == subnet_burn_config,
            r.subnet_registrations_this_interval == 0,
            r.events@.len() == 0,
    {
        Subspace {
            config,
            global,
            subnets: Vec::new(),
            ledger: StakeLedger::new(),
            balances: Balances::new(existential_deposit),
            registrations_per_block: 0,
            block: 0,
            fees: HashMap::new(),
            min_fees,
            subnet_gaps: Vec::new(),
            subnet_burn: subnet_burn_config.min_burn,
            subnet_burn_config,
            subnet_registrations_this_interval: 0,
            events: Vec::new(),
        }
    }

    /// The global parameters, with the fee floors that the minimum fees hold.
    pub open spec fn current_global_params(&self) -> GlobalParams {
        GlobalParams {
            floor_stake_delegation_fee: self.min_fees.stake_delegation_fee,
            floor_validator_weight_fee: self.min_fees.validator_weight_fee,
            ..self.global
        }
    }

    /// The global parameters, with the fee floors that the minimum fees hold.
    pub fn global_params(&self) -> (r: GlobalParams)
        ensures
            r == self.current_global_params(),
    {
        GlobalParams {
            floor_stake_delegation_fee: self.min_fees.stake_delegation_fee,
            floor_validator_weight_fee: self.min_fees.validator_weight_fee,
            ..self.global
        }
    }

    /// Replaces the global parameters after checking them against the
    /// current ones (see [`check_global_params`]); the fee floors become
    /// the minimum fees, and `GlobalParamsUpdated` is deposited. Nothing
    /// changes when the check fails.
    pub fn set_global_params(&mut self, params: GlobalParams) -> (r: Result<(), Error>)
        requires
            old(self).wf(),
            params.floor_stake_delegation_fee.parts <= 100,
        ensures
            final(self).wf(),
            r == as_result(global_params_error(params, old(self).current_global_params())),
            r is Err ==> *final(self) == *old(self),
            r is Ok ==> *final(self) == (Subspace {
                global: params,
                min_fees: MinimumFees {
                    stake_delegation_fee: params.floor_stake_delegation_fee,
                    validator_weight_fee: params.floor_validator_weight_fee,
                },
                events: final(self).events,
                ..*old(self)
            }) && final(self).events@ == old(self).events@.push(Event::GlobalParamsUpdated(params)),
    {
        let current = self.global_params();
        match check_global_params(&params, &current) {
            Err(e) => Err(e),
            Ok(()) => {
                self.global = params;
                self.min_fees = MinimumFees {
                    stake_delegation_fee: params.floor_stake_delegation_fee,
                    validator_weight_fee: params.floor_validator_weight_fee,
                };
                self.events.push(Event::GlobalParamsUpdated(params));
                Ok(())
            },
        }
    }

    /// The position of subnet `netuid` in the subnet list.
    pub fn subnet_index(&self, netuid: u16) -> (r: Option<usize>)
        ensures
            r.is_some() <==> subnet_pos(self.subnets@, netuid) >= 0,
            r.is_some() ==> r.unwrap() == subnet_pos(self.subnets@, netuid),
            r.is_some() ==> r.unwrap() < self.subnets@.len() && self.subnets@[r.unwrap() as int].netuid == netuid,
    {
        proof {
            lemma_subnet_pos(self.subnets@, netuid);
        }
        let mut i: usize = 0;
        while i < self.subnets.len()
            invariant
                i <= self.subnets@.len(),
                subnet_pos(self.subnets@.take(i as int), netuid) == -1,
            decreases self.subnets@.len() - i,
        {
            proof {
                assert(self.subnets@.take(i + 1).drop_last() =~= self.subnets@.take(i as int));
            }
            if self.subnets[i].netuid == netuid {
                proof {
                    lemma_subnet_pos_prefix(self.subnets@, netuid, i as int + 1);
                }
                return Some(i);
            }
            i = i + 1;
        }
        proof {
            assert(self.subnets@.take(self.subnets@.len() as int) =~= self.subnets@);
        }
        None
    }

    /// Whether subnet `netuid` exists.
    pub fn if_subnet_exist(&self, netuid: u16) -> (r: bool)
        ensures
            r == (subnet_pos(self.subnets@, netuid) >= 0),
    {
        self.subnet_index(netuid).is_some()
    }

    /// The number of subnets.
    pub fn get_total_subnets(&self) -> (r: u16)
        requires
            self.subnets@.len() <= u16::MAX,
        ensures
            r == self.subnets@.len(),
    {
        self.subnets.len() as u16
    }

    /// The network's counters, as the runtime API reports them.
    pub fn get_global_state(&self) -> (r: GlobalState)
        requires
            self.subnets@.len() <= u16::MAX,
        ensures
            r.registrations_per_block == self.registrations_per_block,
            r.total_subnets == self.subnets@.len(),
    {
        GlobalState { registrations_per_block: self.registrations_per_block, total_subnets: self.get_total_subnets() }
    }

    /// Whether `key` is registered on subnet `netuid`, or on any subnet when
    /// `netuid` is `None`.
    pub fn is_registered(&self, netuid: Option<u16>, key: u64) -> (r: bool)
        ensures
            r == self.spec_is_registered(netuid, key),
    {
        match netuid {
            Some(n) => {
                match self.subnet_index(n) {
                    Some(i) => vec_contains(&self.subnets[i].keys, key),
                    None => false,
                }
            },
            None => {
                let mut i: usize = 0;
                while i < self.subnets.len()
                    invariant
                        netuid.is_none(),
                        i <= self.subnets@.len(),
                        forall|t: int| 0 <= t < i ==> !#[trigger] subnet_has_key(self.subnets@, t, key),
                    decreases self.subnets@.len() - i,
                {
                    if vec_contains(&self.subnets[i].keys, key) {
                        assert(subnet_has_key(self.subnets@, i as int, key));
                        assert(registered_anywhere(self.subnets@, key));
                        return true;
                    }
                    i = i + 1;
                }
                false
            },
        }
    }

    /// The uid of `key` on subnet `netuid`, if it is registered there.
    pub open spec fn uid_of(&self, netuid: u16, key: u64) -> Option<u16> {
        if self.spec_is_registered(Some(netuid), key) {
            let keys = self.subnets@[subnet_pos(self.subnets@, netuid)].keys@;
            Some(choose|u: u16| (u as int) < keys.len() && keys[u as int] == key)
        } else {
            None
        }
    }

    /// The uid of `key` on subnet `netuid`, if it is registered there.
    pub fn get_uid_for_key(&self, netuid: u16, key: u64) -> (r: Option<u16>)
        requires
            self.wf(),
        ensures
            r == self.uid_of(netuid, key),
            r.is_some() <==> self.spec_is_registered(Some(netuid), key),
            r.is_some() ==> {
                let p = subnet_pos(self.subnets@, netuid);
                &&& r.unwrap() < self.subnets@[p].keys@.len()
                &&& self.subnets@[p].keys@[r.unwrap() as int] == key
            },
    {
        match self.subnet_index(netuid) {
            Some(i) => {
                proof {
                    assert(subnet_wf(self.subnets@[i as int]));
                }
                let keys = &self.subnets[i].keys;
                let mut u: usize = 0;
                while u < keys.len()
                    invariant
                        keys@ == self.subnets@[i as int].keys@,
                        i == subnet_pos(self.subnets@, netuid),
                        u <= keys@.len(),
                        keys@.len() <= u16::MAX,
                        keys@.no_duplicates(),
                        forall|t: int| 0 <= t < u ==> keys@[t] != key,
                    decreases keys@.len() - u,
                {
                    if keys[u] == key {
                        proof {
                            assert(keys@[u as int] == key);
                            assert(self.spec_is_registered(Some(netuid), key));
                            assert((u as u16) as int == u as int);
                            assert(((u as u16) as int) < keys@.len() && keys@[(u as u16) as int] == key);
                            let c = choose|c: u16| (c as int) < keys@.len() && keys@[c as int] == key;
                            assert(c as int == u as int);
                        }
                        return Some(u as u16);
                    }
                    u = u + 1;
                }
                assert(!keys@.contains(key));
                None
            },
            None => None,
        }
    }
}

/// Accepted global parameters never lower the fee floors: a successful
/// update keeps each floor at least where it was.
pub proof fn fee_floors_never_decrease(p: GlobalParams, current: GlobalParams)
    requires
        global_params_error(p, current) is None,
    ensures
        p.floor_stake_delegation_fee.parts >= current.floor_stake_delegation_fee.parts,
        p.floor_validator_weight_fee.parts >= current.floor_validator_weight_fee.parts,
{
}

/// Where a netuid is found, if anywhere.
pub proof fn lemma_subnet_pos_pub(s: Seq<SubnetState>, netuid: u16)
    ensures
        -1 <= subnet_pos(s, netuid) < s.len(),
        subnet_pos(s, netuid) >= 0 ==> s[subnet_pos(s, netuid)].netuid == netuid,
        subnet_pos(s, netuid) < 0 ==> forall|i: int| 0 <= i < s.len() ==> #[trigger] s[i].netuid != netuid,
{
    lemma_subnet_pos(s, netuid);
}

/// Subnet lists with the same netuid at every position find a netuid at the
/// same position.
pub proof fn lemma_subnet_pos_same_netuids(a: Seq<SubnetState>, b: Seq<SubnetState>, netuid: u16)
    requires
        a.len() == b.len(),
        forall|q: int| 0 <= q < a.len() ==> #[trigger] a[q].netuid == b[q].netuid,
    ensures
        subnet_pos(a, netuid) == subnet_pos(b, netuid),
    decreases a.len(),
{
    if a.len() > 0 {
        assert forall|q: int| 0 <= q < a.drop_last().len() implies #[trigger] a.drop_last()[q].netuid == b.drop_last()[q].netuid by {
            assert(a.drop_last()[q] == a[q]);
            assert(b.drop_last()[q] == b[q]);
        }
        lemma_subnet_pos_same_netuids(a.drop_last(), b.drop_last(), netuid);
        assert(a.last().netuid == b.last().netuid);
    }
}

proof fn lemma_subnet_pos_prefix(s: Seq<SubnetState>, netuid: u16, k: int)
    requires
        0 < k <= s.len(),
        subnet_pos(s.take(k - 1), netuid) == -1,
        s[k - 1].netuid == netuid,
    ensures
        subnet_pos(s, netuid) == k - 1,
    decreases s.len() - k,
{
    assert(s.take(k).drop_last() =~= s.take(k - 1));
    lemma_subnet_pos_prefix_ext(s, netuid, k, k - 1);
}

proof fn lemma_subnet_pos_prefix_ext(s: Seq<SubnetState>, netuid: u16, k: int, p: int)
    requires
        0 < k <= s.len(),
        p >= 0,
        subnet_pos(s.take(k), netuid) == p,
    ensures
        subnet_pos(s, netuid) == p,
    decreases s.len() - k,
{
    if k == s.len() {
        assert(s.take(k) =~= s);
    } else {
        let t = s.take(k + 1);
        assert(t.drop_last() =~= s.take(k));
        assert(subnet_pos(t, netuid) == subnet_pos(t.drop_last(), netuid));
        lemma_subnet_pos_prefix_ext(s, netuid, k + 1, p);
    }
}

/// Whether a vector of keys contains `key`.
pub fn vec_contains(v: &Vec<u64>, key: u64) -> (r: bool)
    ensures
        r == v@.contains(key),
{
    let mut i: usize = 0;
    while i < v.len()
        invariant
            i <= v@.len(),
            forall|t: int| 0 <= t < i ==> v@[t] != key,
        decreases v@.len() - i,
    {
        if v[i] == key {
            assert(v@[i as int] == key);
            return true;
        }
        i = i + 1;
    }
    false
}

/// A copy of a list of keys.
pub fn copy_keys(v: &Vec<u64>) -> (r: Vec<u64>)
    ensures
        r@ == v@,
{
    let mut r: Vec<u64> = Vec::new();
    let mut i: usize = 0;
    while i < v.len()
        invariant
            i <= v@.len(),
            r@ == v@.take(i as int),
        decreases v@.len() - i,
    {
        r.push(v[i]);
        proof {
            assert(v@.take(i + 1) =~= v@.take(i as int).push(v@[i as int]));
        }
        i = i + 1;
    }
    proof {
        assert(v@.take(v@.len() as int) =~= v@);
    }
    r
}

} // verus!
