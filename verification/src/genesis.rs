//! The subnets and modules a chain starts with.
use vstd::prelude::*;
use crate::errors::Error;
use crate::ledger::{stake_added, StakeModel};
use crate::modules::{clone_bytes, fees_of};
use crate::params::{changeset_error, default_subnet_params, GovernanceConfiguration, ModuleFees, SubnetChangeset,
    SubnetParams, VoteMode};
use crate::registration::module_appended;
use crate::state::{subnet_pos, subnet_wf, SubnetState, Subspace};
use crate::subnets::{apply_error, subnet_added, validation_context};

verus! {

/// A module of a subnet at genesis: its key, name and address, the weights
/// it starts with, if any, and who stakes how much on it.
#[derive(Clone, Debug)]
pub struct GenesisModule {
    pub key: u64,
    pub name: Vec<u8>,
    pub address: Vec<u8>,
    pub weights: Option<Vec<(u16, u16)>>,
    pub stake_from: Vec<(u64, u64)>,
}

/// A subnet at genesis: its name and founder, the parameters that differ
/// from the defaults, and its modules.
#[derive(Clone, Debug)]
pub struct GenesisSubnet {
    pub name: Vec<u8>,
    pub founder: u64,
    pub tempo: Option<u16>,
    pub immunity_period: Option<u16>,
    pub min_allowed_weights: Option<u16>,
    pub max_allowed_weights: Option<u16>,
    pub max_allowed_uids: Option<u16>,
    pub modules: Vec<GenesisModule>,
}

/// Whether `params` are the default subnet parameters with what `cfg` sets.
pub open spec fn genesis_params(p: Subspace, params: SubnetParams, cfg: GenesisSubnet, governance: GovernanceConfiguration)
    -> bool {
    &&& params.name@ == cfg.name@
    &&& params.metadata is None
    &&& params.founder == cfg.founder
    &&& params.founder_share == p.global.floor_founder_share
    &&& params.immunity_period == (match cfg.immunity_period { Some(v) => v, None => 0 })
    &&& params.incentive_ratio == 50
    &&& params.max_allowed_uids == (match cfg.max_allowed_uids { Some(v) => v, None => 420 })
    &&& params.max_allowed_weights == (match cfg.max_allowed_weights { Some(v) => v, None => 420 })
    &&& params.min_allowed_weights == (match cfg.min_allowed_weights { Some(v) => v, None => 1 })
    &&& params.max_weight_age == 3_600
    &&& params.tempo == (match cfg.tempo { Some(v) => v, None => 100 })
    &&& params.maximum_set_weight_calls_per_epoch is None
    &&& params.bonds_ma == 900_000
    &&& params.module_burn_config == crate::burn::spec_module_burn_default(p.config)
    &&& params.min_validator_stake == p.config.default_min_validator_stake
    &&& params.max_allowed_validators is None
    &&& params.governance_config == (GovernanceConfiguration { vote_mode: VoteMode::Authority, ..governance })
    &&& params.use_weights_encryption == p.config.default_use_weights_encryption
    &&& params.copier_margin.bits == 0
    &&& params.max_encryption_period is None
}

/// The stake storage after each `(staker, amount)` of `from`, in order, is
/// staked on `module`.
pub open spec fn stakes_added(m: StakeModel, module: u64, from: Seq<(u64, u64)>) -> StakeModel
    decreases from.len(),
{
    if from.len() == 0 {
        m
    } else {
        stake_added(stakes_added(m, module, from.drop_last()), from.last().0, module, from.last().1)
    }
}

/// Whether `b` is `a` with module `m` appended to the subnet at `pos` with
/// fees `fees`, its starting weights set and its stakes added.
pub open spec fn genesis_module_added(a: Subspace, b: Subspace, pos: int, m: GenesisModule, fees: ModuleFees) -> bool {
    let s = a.subnets@[pos];
    let t = b.subnets@[pos];
    &&& b.subnets@.len() == a.subnets@.len()
    &&& forall|q: int| 0 <= q < a.subnets@.len() && q != pos ==> #[trigger] b.subnets@[q] == a.subnets@[q]
    &&& exists|t0: SubnetState| {
        &&& #[trigger] module_appended(s, t0, m.key, m.name@, m.address@, None, a.block)
        &&& t == (SubnetState { weights: t.weights, ..t0 })
        &&& t.weights@.len() == t0.weights@.len()
        &&& t.weights@.drop_last() == t0.weights@.drop_last()
        &&& t.weights@.last()@ == (match m.weights { Some(w) => w@, None => Seq::empty() })
    }
    &&& b.fees@ == a.fees@.insert(m.key, fees)
    &&& b.ledger.model() == stakes_added(stake_added(a.ledger.model(), m.key, m.key, 0), m.key, m.stake_from@)
    &&& b == (Subspace { subnets: b.subnets, fees: b.fees, ledger: b.ledger, ..a })
}

/// Whether no two modules of `modules` share a key.
pub open spec fn distinct_keys(modules: Seq<GenesisModule>) -> bool {
    forall|i: int, j: int| 0 <= i < j < modules.len() ==> #[trigger] modules[i].key != #[trigger] modules[j].key
}

/// Whether `b` is `a` after genesis subnet `cfg` is added under `netuid`
/// with result `r` (see [`Subspace::add_genesis_subnet`]).
pub open spec fn genesis_subnet_step(a: Subspace, b: Subspace, netuid: u16, cfg: GenesisSubnet,
    governance: GovernanceConfiguration, r: Result<(), Error>) -> bool {
    &&& (cfg.name@.len() > 256 ==> r == Err::<(), Error>(Error::SubnetNameTooLong) && b == a)
    &&& (cfg.name@.len() <= 256 ==> exists|params: SubnetParams| {
        &&& #[trigger] genesis_params(a, params, cfg, governance)
        &&& (changeset_error(None, params, validation_context(a, None, params.name@)) matches Some(e)
            ==> r == Err::<(), Error>(e) && b == a)
        &&& (changeset_error(None, params, validation_context(a, None, params.name@)) is None
            && apply_error(a, netuid, params) is Some ==> r == Err::<(), Error>(apply_error(a, netuid, params)->Some_0)
            && b == a)
        &&& (changeset_error(None, params, validation_context(a, None, params.name@)) is None
            && apply_error(a, netuid, params) is None ==> {
            &&& (r is Ok <==> distinct_keys(cfg.modules@))
            &&& r is Ok ==> exists|states: Seq<Subspace>| #![trigger states.len()] {
                let pos = a.subnets@.len() as int;
                &&& states.len() == cfg.modules@.len() + 1
                &&& subnet_added(a, states[0], netuid, params)
                &&& states.last() == b
                &&& forall|i: int| 0 <= i < cfg.modules@.len() ==> genesis_module_added(states[i], #[trigger] states[i + 1],
                    pos, cfg.modules@[i], fees_of(a.fees@, cfg.founder))
            }
        })
    })
}

proof fn lemma_module_chain_shape(states: Seq<Subspace>, pos: int, modules: Seq<GenesisModule>, fees: ModuleFees, k: int)
    requires
        states.len() == modules.len() + 1,
        0 <= pos < states[0].subnets@.len(),
        forall|i: int| 0 <= i < modules.len() ==> genesis_module_added(states[i], states[i + 1], pos, #[trigger] modules[i], fees),
        0 <= k < states.len(),
    ensures
        states[k].subnets@.len() == states[0].subnets@.len(),
        forall|q: int| 0 <= q < states[0].subnets@.len() ==> #[trigger] states[k].subnets@[q].netuid == states[0].subnets@[q].netuid,
    decreases k,
{
    if k > 0 {
        lemma_module_chain_shape(states, pos, modules, fees, k - 1);
        let a = states[k - 1];
        let b = states[k];
        let m = modules[k - 1];
        assert(genesis_module_added(states[k - 1], states[(k - 1) + 1], pos, m, fees));
        assert(genesis_module_added(a, b, pos, m, fees));
        let t0 = choose|t0: SubnetState| {
            &&& #[trigger] module_appended(a.subnets@[pos], t0, m.key, m.name@, m.address@, None, a.block)
            &&& b.subnets@[pos] == (SubnetState { weights: b.subnets@[pos].weights, ..t0 })
            &&& b.subnets@[pos].weights@.len() == t0.weights@.len()
            &&& b.subnets@[pos].weights@.drop_last() == t0.weights@.drop_last()
            &&& b.subnets@[pos].weights@.last()@ == (match m.weights { Some(w) => w@, None => Seq::empty() })
        };
        assert(b.subnets@[pos].netuid == a.subnets@[pos].netuid);
        assert forall|q: int| 0 <= q < states[0].subnets@.len() implies #[trigger] states[k].subnets@[q].netuid
            == states[0].subnets@[q].netuid by {
            assert(states[k - 1].subnets@[q].netuid == states[0].subnets@[q].netuid);
            if q != pos {
                assert(b.subnets@[q] == a.subnets@[q]);
            }
        }
    }
}

proof fn lemma_genesis_step_shape(a: Subspace, b: Subspace, netuid: u16, cfg: GenesisSubnet, governance: GovernanceConfiguration)
    requires
        genesis_subnet_step(a, b, netuid, cfg, governance, Ok(())),
    ensures
        b.subnets@.len() == a.subnets@.len() + 1,
        forall|q: int| 0 <= q < a.subnets@.len() ==> #[trigger] b.subnets@[q].netuid == a.subnets@[q].netuid,
        b.subnets@[a.subnets@.len() as int].netuid == netuid,
{
    let params = choose|params: SubnetParams| {
        &&& #[trigger] genesis_params(a, params, cfg, governance)
        &&& (changeset_error(None, params, validation_context(a, None, params.name@)) matches Some(e)
            ==> Ok::<(), Error>(()) == Err::<(), Error>(e) && b == a)
        &&& (changeset_error(None, params, validation_context(a, None, params.name@)) is None
            && apply_error(a, netuid, params) is Some ==> Ok::<(), Error>(()) == Err::<(), Error>(apply_error(a, netuid, params)->Some_0)
            && b == a)
        &&& (changeset_error(None, params, validation_context(a, None, params.name@)) is None
            && apply_error(a, netuid, params) is None ==> {
            &&& (Ok::<(), Error>(()) is Ok <==> distinct_keys(cfg.modules@))
            &&& Ok::<(), Error>(()) is Ok ==> exists|states: Seq<Subspace>| #![trigger states.len()] {
                let pos = a.subnets@.len() as int;
                &&& states.len() == cfg.modules@.len() + 1
                &&& subnet_added(a, states[0], netuid, params)
                &&& states.last() == b
                &&& forall|i: int| 0 <= i < cfg.modules@.len() ==> genesis_module_added(states[i], #[trigger] states[i + 1],
                    pos, cfg.modules@[i], fees_of(a.fees@, cfg.founder))
            }
        })
    };
    let pos = a.subnets@.len() as int;
    let states = choose|states: Seq<Subspace>| #![trigger states.len()] {
        &&& states.len() == cfg.modules@.len() + 1
        &&& subnet_added(a, states[0], netuid, params)
        &&& states.last() == b
        &&& forall|i: int| 0 <= i < cfg.modules@.len() ==> genesis_module_added(states[i], #[trigger] states[i + 1],
            pos, cfg.modules@[i], fees_of(a.fees@, cfg.founder))
    };
    let s0 = states[0];
    assert(s0.subnets@.drop_last() == a.subnets@);
    assert forall|q: int| 0 <= q < a.subnets@.len() implies #[trigger] s0.subnets@[q].netuid == a.subnets@[q].netuid by {
        assert(s0.subnets@.drop_last()[q] == s0.subnets@[q]);
    }
    lemma_module_chain_shape(states, pos, cfg.modules@, fees_of(a.fees@, cfg.founder), cfg.modules@.len() as int);
    assert(states[cfg.modules@.len() as int] == b);
    assert forall|q: int| 0 <= q < a.subnets@.len() implies #[trigger] b.subnets@[q].netuid == a.subnets@[q].netuid by {
        assert(b.subnets@[q].netuid == s0.subnets@[q].netuid);
    }
    assert(b.subnets@[pos].netuid == s0.subnets@[pos].netuid);
}

/// A copy of a list of weights.
fn copy_weights(v: &Vec<(u16, u16)>) -> (r: Vec<(u16, u16)>)
    ensures
        r@ == v@,
{
    let mut r: Vec<(u16, u16)> = Vec::new();
    let mut i: usize = 0;
    while i < v.len()
        invariant
            i <= v@.len(),
            r@ == v@.take(i as int),
        decreases v@.len() - i,
    {
        r.push(v[i]);
        proof {
            assert(v@.take(i + 1) =~= v@.take(i as int).push(v@[i as int]));
        }
        i = i + 1;
    }
    proof {
        assert(v@.take(v@.len() as int) =~= v@);
    }
    r
}

impl Subspace {
    /// Appends genesis module `m` to the subnet at `idx` with fees `fees`,
    /// sets its starting weights and stakes what `m` lists on it; refused
    /// when the key is already a module of the subnet.
    pub fn add_genesis_module(&mut self, idx: usize, m: &GenesisModule, fees: ModuleFees) -> (r: Result<(), Error>)
        requires
            old(self).wf(),
            idx < old(self).subnets@.len(),
            old(self).subnets@[idx as int].keys@.len() < u16::MAX,
            fees.stake_delegation_fee.parts <= 100,
        ensures
            final(self).wf(),
            old(self).subnets@[idx as int].keys@.contains(m.key) ==> r == Err::<(), Error>(Error::KeyAlreadyRegistered)
                && *final(self) == *old(self),
            !old(self).subnets@[idx as int].keys@.contains(m.key) ==> r is Ok
                && genesis_module_added(*old(self), *final(self), idx as int, *m, fees),
    {
        proof {
            assert(subnet_wf(self.subnets@[idx as int]));
        }
        if crate::state::vec_contains(&self.subnets[idx].keys, m.key) {
            return Err(Error::KeyAlreadyRegistered);
        }
        let ghost a = *self;
        let uid = self.append_module(idx, m.key, clone_bytes(&m.name), clone_bytes(&m.address), fees, None);
        let ghost b = *self;
        match &m.weights {
            Some(w) => {
                let mut sub = self.subnets.remove(idx);
                proof {
                    assert(sub == b.subnets@[idx as int]);
                    assert(subnet_wf(sub));
                }
                sub.weights.set(uid as usize, copy_weights(w));
                self.subnets.insert(idx, sub);
                proof {
                    assert(self.subnets@ =~= b.subnets@.update(idx as int, sub));
                    assert(subnet_wf(sub));
                    assert forall|i: int| 0 <= i < self.subnets@.len() implies subnet_wf(#[trigger] self.subnets@[i]) by {
                        if i != idx {
                            assert(subnet_wf(b.subnets@[i]));
                        }
                    }
                    assert forall|i: int, j: int| 0 <= i < j < self.subnets@.len() implies
                        #[trigger] self.subnets@[i].netuid != #[trigger] self.subnets@[j].netuid by {
                        assert(b.subnets@[i].netuid != b.subnets@[j].netuid);
                    }
                }
            },
            None => {},
        }
        let ghost c = *self;
        proof {
            let t0 = b.subnets@[idx as int];
            let t = c.subnets@[idx as int];
            assert(subnet_wf(t0));
            assert(uid as int == t0.weights@.len() - 1);
            if m.weights is None {
                assert(t.weights@.last()@ =~= Seq::<(u16, u16)>::empty());
            }
            assert(module_appended(a.subnets@[idx as int], t0, m.key, m.name@, m.address@, None, a.block));
            assert(t.weights@.drop_last() =~= t0.weights@.drop_last());
            assert(t == (SubnetState { weights: t.weights, ..t0 }));
        }
        let mut i: usize = 0;
        while i < m.stake_from.len()
            invariant
                i <= m.stake_from@.len(),
                self.wf(),
                self.ledger.model() == stakes_added(c.ledger.model(), m.key, m.stake_from@.take(i as int)),
                *self == (Subspace { ledger: self.ledger, ..c }),
            decreases m.stake_from@.len() - i,
        {
            proof {
                assert(m.stake_from@.take(i + 1).drop_last() =~= m.stake_from@.take(i as int));
            }
            let (staker, amount) = m.stake_from[i];
            self.ledger.increase_stake(staker, m.key, amount);
            i = i + 1;
        }
        proof {
            assert(m.stake_from@.take(m.stake_from@.len() as int) =~= m.stake_from@);
            assert(self.subnets@ == c.subnets@);
        }
        Ok(())
    }

    /// Adds genesis subnet `cfg` under `netuid` (see [`genesis_params`]) and
    /// then its modules, in order, with the fees its founder has. Refused
    /// when the name is longer than 256 bytes, when the parameters fail the
    /// checks of a new subnet, or, after the subnet and the modules before
    /// it were added, at the first module whose key repeats.
    pub fn add_genesis_subnet(&mut self, netuid: u16, cfg: &GenesisSubnet, governance: GovernanceConfiguration)
        -> (r: Result<(), Error>)
        requires
            old(self).wf(),
            old(self).subnets@.len() < u16::MAX,
            subnet_pos(old(self).subnets@, netuid) < 0,
            cfg.modules@.len() < u16::MAX,
        ensures
            final(self).wf(),
            genesis_subnet_step(*old(self), *final(self), netuid, *cfg, governance, r),
    {
        if cfg.name.len() > 256 {
            return Err(Error::SubnetNameTooLong);
        }
        let mut params = default_subnet_params(&self.config, self.global.floor_founder_share, cfg.founder, governance);
        params.name = clone_bytes(&cfg.name);
        match cfg.tempo {
            Some(v) => { params.tempo = v; },
            None => {},
        }
        match cfg.immunity_period {
            Some(v) => { params.immunity_period = v; },
            None => {},
        }
        match cfg.min_allowed_weights {
            Some(v) => { params.min_allowed_weights = v; },
            None => {},
        }
        match cfg.max_allowed_weights {
            Some(v) => { params.max_allowed_weights = v; },
            None => {},
        }
        match cfg.max_allowed_uids {
            Some(v) => { params.max_allowed_uids = v; },
            None => {},
        }
        let ghost pv = params;
        assert(genesis_params(*self, pv, *cfg, governance));
        let fees = self.get_fees(cfg.founder);
        proof {
            if self.fees@.contains_key(cfg.founder) {
                assert(self.fees@[cfg.founder].stake_delegation_fee.parts <= 100);
            }
        }
        let ctx = self.validation_context_for(None, params.name.as_slice());
        let changeset = match SubnetChangeset::new(params, &ctx) {
            Ok(c) => c,
            Err(e) => {
                proof {
                    assert forall|q: SubnetParams| #[trigger] genesis_params(*self, q, *cfg, governance)
                        implies changeset_error(None, q, validation_context(*self, None, q.name@))
                        == changeset_error(None, pv, validation_context(*self, None, pv.name@)) by {
                        assert(q.name@ == pv.name@);
                    }
                }
                return Err(e);
            },
        };
        let ghost a = *self;
        let added = self.add_subnet(changeset, Some(netuid));
        match added {
            Ok(_) => {},
            Err(e) => {
                proof {
                    assert forall|q: SubnetParams| #[trigger] genesis_params(a, q, *cfg, governance)
                        implies changeset_error(None, q, validation_context(a, None, q.name@))
                        == changeset_error(None, pv, validation_context(a, None, pv.name@))
                        && apply_error(a, netuid, q) == apply_error(a, netuid, pv) by {
                        assert(q.name@ == pv.name@);
                    }
                }
                return Err(e);
            },
        }
        let ghost s0 = *self;
        let idx = self.subnets.len() - 1;
        let ghost mut states: Seq<Subspace> = seq![s0];
        let mut i: usize = 0;
        while i < cfg.modules.len()
            invariant
                i <= cfg.modules@.len(),
                cfg.modules@.len() < u16::MAX,
                idx == a.subnets@.len(),
                self.wf(),
                self.subnets@.len() == idx + 1,
                self.subnets@[idx as int].keys@.len() == i,
                forall|t: int| 0 <= t < i ==> #[trigger] self.subnets@[idx as int].keys@[t] == cfg.modules@[t].key,
                forall|t: int, u: int| 0 <= t < u < i ==> #[trigger] cfg.modules@[t].key != #[trigger] cfg.modules@[u].key,
                fees == fees_of(a.fees@, cfg.founder),
                fees.stake_delegation_fee.parts <= 100,
                a == *old(self),
                cfg.name@.len() <= 256,
                genesis_params(a, pv, *cfg, governance),
                changeset_error(None, pv, validation_context(a, None, pv.name@)) is None,
                apply_error(a, netuid, pv) is None,
                subnet_added(a, s0, netuid, pv),
                states.len() == i + 1,
                states[0] == s0,
                states[i as int] == *self,
                forall|t: int| 0 <= t < i ==> genesis_module_added(states[t], #[trigger] states[t + 1], idx as int,
                    cfg.modules@[t], fees),
            decreases cfg.modules@.len() - i,
        {
            let ghost before = *self;
            let res = self.add_genesis_module(idx, &cfg.modules[i], fees);
            match res {
                Ok(()) => {},
                Err(e) => {
                    proof {
                        let k = choose|k: int| 0 <= k < i && before.subnets@[idx as int].keys@[k] == cfg.modules@[i as int].key;
                        assert(cfg.modules@[k].key == cfg.modules@[i as int].key);
                        assert(!distinct_keys(cfg.modules@));
                    }
                    return Err(e);
                },
            }
            proof {
                let t0 = choose|t0: SubnetState| {
                    &&& #[trigger] module_appended(before.subnets@[idx as int], t0, cfg.modules@[i as int].key,
                        cfg.modules@[i as int].name@, cfg.modules@[i as int].address@, None, before.block)
                    &&& self.subnets@[idx as int] == (SubnetState { weights: self.subnets@[idx as int].weights, ..t0 })
                    &&& self.subnets@[idx as int].weights@.len() == t0.weights@.len()
                    &&& self.subnets@[idx as int].weights@.drop_last() == t0.weights@.drop_last()
                    &&& self.subnets@[idx as int].weights@.last()@ == (match cfg.modules@[i as int].weights {
                        Some(w) => w@, None => Seq::empty() })
                };
                assert(self.subnets@[idx as int].keys@ == before.subnets@[idx as int].keys@.push(cfg.modules@[i as int].key));
                assert forall|t: int| 0 <= t < i + 1 implies #[trigger] self.subnets@[idx as int].keys@[t] == cfg.modules@[t].key by {
                    if t < i {
                        assert(before.subnets@[idx as int].keys@[t] == cfg.modules@[t].key);
                    }
                }
                assert forall|t: int, u: int| 0 <= t < u < i + 1 implies #[trigger] cfg.modules@[t].key != #[trigger] cfg.modules@[u].key by {
                    if u == i {
                        assert(before.subnets@[idx as int].keys@[t] == cfg.modules@[t].key);
                    }
                }
                states = states.push(*self);
            }
            i = i + 1;
        }
        proof {
            assert(states.last() == *self);
            assert(subnet_added(a, s0, netuid, pv));
        }
        Ok(())
    }

    /// Builds the genesis subnets, in order, under netuids `0, 1, ...` (see
    /// [`Subspace::add_genesis_subnet`]); stops at the first that is refused.
    pub fn build_genesis(&mut self, subnets: &Vec<GenesisSubnet>, governance: GovernanceConfiguration) -> (r: Result<(), Error>)
        requires
            old(self).wf(),
            old(self).subnets@.len() == 0,
            subnets@.len() < u16::MAX,
            forall|i: int| 0 <= i < subnets@.len() ==> (#[trigger] subnets@[i]).modules@.len() < u16::MAX,
        ensures
            final(self).wf(),
            exists|states: Seq<Subspace>, results: Seq<Result<(), Error>>| #![trigger states.len(), results.len()] {
                &&& states.len() == results.len() + 1
                &&& results.len() <= subnets@.len()
                &&& states[0] == *old(self)
                &&& states.last() == *final(self)
                &&& forall|i: int| 0 <= i < results.len() ==> genesis_subnet_step(states[i], #[trigger] states[i + 1],
                    i as u16, subnets@[i], governance, results[i])
                &&& forall|i: int| 0 <= i < results.len() - 1 ==> #[trigger] results[i] is Ok
                &&& (r is Ok <==> results.len() == subnets@.len() && forall|i: int| 0 <= i < results.len() ==> #[trigger] results[i] is Ok)
                &&& r is Err ==> results.len() > 0 && r == results.last()
            },
    {
        let ghost start = *self;
        let ghost mut states: Seq<Subspace> = seq![start];
        let ghost mut results: Seq<Result<(), Error>> = Seq::empty();
        let mut i: usize = 0;
        while i < subnets.len()
            invariant
                i <= subnets@.len(),
                subnets@.len() < u16::MAX,
                forall|k: int| 0 <= k < subnets@.len() ==> (#[trigger] subnets@[k]).modules@.len() < u16::MAX,
                self.wf(),
                self.subnets@.len() == i,
                forall|k: int| 0 <= k < i ==> (#[trigger] self.subnets@[k]).netuid == k,
                states.len() == i + 1,
                results.len() == i,
                start == *old(self),
                states[0] == start,
                states[i as int] == *self,
                forall|k: int| 0 <= k < i ==> genesis_subnet_step(states[k], #[trigger] states[k + 1], k as u16, subnets@[k],
                    governance, results[k]),
                forall|k: int| 0 <= k < i ==> #[trigger] results[k] is Ok,
            decreases subnets@.len() - i,
        {
            proof {
                crate::state::lemma_subnet_pos_pub(self.subnets@, i as u16);
                if subnet_pos(self.subnets@, i as u16) >= 0 {
                    let p = subnet_pos(self.subnets@, i as u16);
                    assert(self.subnets@[p].netuid == p);
                }
            }
            let ghost before = *self;
            let res = self.add_genesis_subnet(i as u16, &subnets[i], governance);
            proof {
                assert(genesis_subnet_step(before, *self, i as u16, subnets@[i as int], governance, res));
                let old_states = states;
                let old_results = results;
                states = states.push(*self);
                results = results.push(res);
                assert forall|k: int| 0 <= k < results.len() implies genesis_subnet_step(states[k], #[trigger] states[k + 1],
                    k as u16, subnets@[k], governance, results[k]) by {
                    if k < i {
                        assert(states[k] == old_states[k] && states[k + 1] == old_states[k + 1] && results[k] == old_results[k]);
                    }
                }
                assert(states[0] == start);
            }
            match res {
                Ok(()) => {},
                Err(e) => {
                    proof {
                        assert(results.last() == res);
                        assert(states.len() == results.len() + 1);
                        assert(results.len() <= subnets@.len());
                        assert(states[0] == *old(self));
                        assert(states.last() == *self);
                        assert(forall|k: int| 0 <= k < results.len() - 1 ==> #[trigger] results[k] is Ok);
                        assert(!(results.len() == subnets@.len() && forall|k: int| 0 <= k < results.len() ==> #[trigger] results[k] is Ok));
                    }
                    return Err(e);
                },
            }
            proof {
                lemma_genesis_step_shape(before, *self, i as u16, subnets@[i as int], governance);
            }
            i = i + 1;
        }
        Ok(())
    }
}

} // verus!
