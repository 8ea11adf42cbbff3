//! Creating subnets, changing their parameters and registering new ones.
use vstd::prelude::*;
use crate::balances::debited;
use crate::burn::{module_burn_error, GeneralBurnConfiguration};
use crate::errors::Error;
use crate::events::Event;
use crate::modules::{ascending, subnet_dropped, vec_contains_u16};
use crate::params::{default_subnet_params, GovernanceConfiguration};
use crate::params::{as_result, changeset_error, SubnetChangeset, SubnetParams, SubnetValidationContext};
use crate::registration::netuid_for_name;
use crate::state::{lemma_subnet_pos_pub, subnet_pos, subnet_wf, SubnetState, Subspace};

verus! {

/// What validating the parameters of subnet `netuid` (or of a new subnet)
/// named `name` reads from the pallet.
pub open spec fn validation_context(p: Subspace, netuid: Option<u16>, name: Seq<u8>) -> SubnetValidationContext {
    SubnetValidationContext {
        max_allowed_weights_global: p.global.max_allowed_weights,
        floor_founder_share: p.global.floor_founder_share,
        min_name_length: p.global.min_name_length,
        max_name_length: p.global.max_name_length,
        current_modules: match netuid {
            Some(n) => if subnet_pos(p.subnets@, n) >= 0 { p.subnets@[subnet_pos(p.subnets@, n)].keys@.len() as u16 } else { 0 },
            None => 0,
        },
        name_owner: netuid_for_name(p.subnets@, name),
        max_encryption_duration: p.config.max_encryption_duration,
    }
}

/// The cap on weight-setting calls per epoch a subnet holds after `new` is
/// applied to the cap `old`: a zero cap removes it, no cap keeps `old`.
pub open spec fn stored_calls(old: Option<u16>, new: Option<u16>) -> Option<u16> {
    match new {
        Some(c) => if c == 0 { None } else { Some(c) },
        None => old,
    }
}

/// The parameters a subnet holds after `new` is applied to `old`: all of
/// `new`, but metadata and a call cap it does not set stay, and a zero
/// call cap removes the cap.
pub open spec fn applied_params(old: SubnetParams, new: SubnetParams) -> SubnetParams {
    SubnetParams {
        metadata: if new.metadata is Some { new.metadata } else { old.metadata },
        maximum_set_weight_calls_per_epoch: stored_calls(old.maximum_set_weight_calls_per_epoch,
            new.maximum_set_weight_calls_per_epoch),
        ..new
    }
}

/// The parameters a new subnet holds when created with `params`: a zero
/// call cap is not stored.
pub open spec fn fresh_params(params: SubnetParams) -> SubnetParams {
    SubnetParams {
        maximum_set_weight_calls_per_epoch: stored_calls(None, params.maximum_set_weight_calls_per_epoch),
        ..params
    }
}

/// The call cap `stored_calls(old, new)`.
fn store_calls(old: Option<u16>, new: Option<u16>) -> (r: Option<u16>)
    ensures
        r == stored_calls(old, new),
{
    match new {
        Some(c) => if c == 0 { None } else { Some(c) },
        None => old,
    }
}

/// The error with which applying `params` to subnet `netuid` is refused, if any.
pub open spec fn apply_error(p: Subspace, netuid: u16, params: SubnetParams) -> Option<Error> {
    let ctx = validation_context(p, Some(netuid), params.name@);
    let n = if subnet_pos(p.subnets@, netuid) >= 0 { p.subnets@[subnet_pos(p.subnets@, netuid)].keys@.len() } else { 0 };
    if changeset_error(Some(netuid), params, ctx) is Some {
        changeset_error(Some(netuid), params, ctx)
    } else if n > params.max_allowed_uids {
        Some(Error::InvalidMaxAllowedUids)
    } else {
        module_burn_error(params.module_burn_config, p.config)
    }
}

/// Whether `b` is `a` with subnet number `pos` holding `params`.
pub open spec fn params_set(a: Subspace, b: Subspace, pos: int, params: SubnetParams) -> bool {
    &&& b.subnets@ == a.subnets@.update(pos, SubnetState { params: params, ..a.subnets@[pos] })
    &&& b.ledger == a.ledger
    &&& b.balances == a.balances
    &&& b.fees == a.fees
    &&& b.config == a.config
    &&& b.global == a.global
    &&& b.registrations_per_block == a.registrations_per_block
    &&& b.block == a.block
    &&& b.min_fees == a.min_fees
    &&& b.subnet_gaps == a.subnet_gaps
    &&& b.subnet_burn == a.subnet_burn
    &&& b.subnet_burn_config == a.subnet_burn_config
    &&& b.subnet_registrations_this_interval == a.subnet_registrations_this_interval
    &&& b.events == a.events
}

impl Subspace {
    /// What validating the parameters of subnet `netuid` (or of a new
    /// subnet) named `name` reads from the pallet.
    pub fn validation_context_for(&self, netuid: Option<u16>, name: &[u8]) -> (r: SubnetValidationContext)
        requires
            self.wf(),
        ensures
            r == validation_context(*self, netuid, name@),
    {
        let current = match netuid {
            Some(n) => match self.subnet_index(n) {
                Some(i) => {
                    proof {
                        assert(subnet_wf(self.subnets@[i as int]));
                    }
                    self.subnets[i].keys.len() as u16
                },
                None => 0,
            },
            None => 0,
        };
        SubnetValidationContext {
            max_allowed_weights_global: self.global.max_allowed_weights,
            floor_founder_share: self.global.floor_founder_share,
            min_name_length: self.global.min_name_length,
            max_name_length: self.global.max_name_length,
            current_modules: current,
            name_owner: self.get_netuid_for_name(name),
            max_encryption_duration: self.config.max_encryption_duration,
        }
    }

    /// The error with which applying `params` to subnet `netuid` is refused,
    /// if any; nothing changes.
    fn check_apply(&self, netuid: u16, params: &SubnetParams) -> (r: Result<(), Error>)
        requires
            self.wf(),
        ensures
            r == as_result(apply_error(*self, netuid, *params)),
    {
        let ctx = self.validation_context_for(Some(netuid), params.name.as_slice());
        SubnetChangeset::validate_params(Some(netuid), params, &ctx)?;
        let n = match self.subnet_index(netuid) {
            Some(i) => self.subnets[i].keys.len(),
            None => 0,
        };
        if n > params.max_allowed_uids as usize {
            return Err(Error::InvalidMaxAllowedUids);
        }
        params.module_burn_config.validate_module_burn(&self.config)
    }

    /// Sets the module limit of subnet `netuid`, which must be at least its
    /// number of modules.
    pub fn set_max_allowed_uids(&mut self, netuid: u16, max_allowed_uids: u16) -> (r: Result<(), Error>)
        requires
            old(self).wf(),
            subnet_pos(old(self).subnets@, netuid) >= 0,
        ensures
            final(self).wf(),
            ({
                let pos = subnet_pos(old(self).subnets@, netuid);
                let s = old(self).subnets@[pos];
                &&& (s.keys@.len() > max_allowed_uids) ==>
                    r == Err::<(), Error>(Error::InvalidMaxAllowedUids) && *final(self) == *old(self)
                &&& (s.keys@.len() <= max_allowed_uids) ==> r is Ok
                    && params_set(*old(self), *final(self), pos, SubnetParams { max_allowed_uids, ..s.params })
            }),
    {
        proof {
            lemma_subnet_pos_pub(self.subnets@, netuid);
        }
        let idx = match self.subnet_index(netuid) {
            Some(i) => i,
            None => return Ok(()),
        };
        if self.subnets[idx].keys.len() > max_allowed_uids as usize {
            return Err(Error::InvalidMaxAllowedUids);
        }
        let ghost a = *self;
        let mut sub = self.subnets.remove(idx);
        sub.params.max_allowed_uids = max_allowed_uids;
        self.subnets.insert(idx, sub);
        proof {
            assert(self.subnets@ =~= a.subnets@.update(idx as int, sub));
            assert(subnet_wf(a.subnets@[idx as int]));
            assert forall|i: int| 0 <= i < self.subnets@.len() implies subnet_wf(#[trigger] self.subnets@[i]) by {
                if i != idx {
                    assert(subnet_wf(a.subnets@[i]));
                }
            }
            assert forall|i: int, j: int| 0 <= i < j < self.subnets@.len() implies
                #[trigger] self.subnets@[i].netuid != #[trigger] self.subnets@[j].netuid by {
                assert(a.subnets@[i].netuid != a.subnets@[j].netuid);
            }
        }
        Ok(())
    }

    /// The least number of weights a module of subnet `netuid` must set,
    /// capped at its number of modules.
    pub fn get_min_allowed_weights(&self, netuid: u16) -> (r: u16)
        requires
            self.wf(),
        ensures
            subnet_pos(self.subnets@, netuid) >= 0 ==> {
                let s = self.subnets@[subnet_pos(self.subnets@, netuid)];
                r == (if s.params.min_allowed_weights < s.keys@.len() { s.params.min_allowed_weights as int } else { s.keys@.len() as int })
            },
            subnet_pos(self.subnets@, netuid) < 0 ==> r == 0,
    {
        match self.subnet_index(netuid) {
            Some(i) => {
                proof {
                    assert(subnet_wf(self.subnets@[i as int]));
                }
                let n = self.subnets[i].keys.len() as u16;
                let m = self.subnets[i].params.min_allowed_weights;
                if m < n { m } else { n }
            },
            None => 0,
        }
    }
}

/// The netuid a new subnet gets: the one given, else the lowest free
/// netuid, else the number of subnets.
pub open spec fn chosen_netuid(p: Subspace, netuid: Option<u16>) -> u16 {
    match netuid {
        Some(n) => n,
        None => if p.subnet_gaps@.len() > 0 { p.subnet_gaps@[0] } else { p.subnets@.len() as u16 },
    }
}

/// Whether `s` is a new subnet `netuid` with `params`, no module and the
/// starting module burn `burn`.
pub open spec fn fresh_subnet(s: SubnetState, netuid: u16, params: SubnetParams, burn: u64) -> bool {
    &&& s.netuid == netuid
    &&& s.params == fresh_params(params)
    &&& s.keys@.len() == 0
    &&& s.names@.len() == 0
    &&& s.addresses@.len() == 0
    &&& s.metadata@.len() == 0
    &&& s.registration_block@.len() == 0
    &&& s.last_update@.len() == 0
    &&& s.emission@.len() == 0
    &&& s.incentive@.len() == 0
    &&& s.dividends@.len() == 0
    &&& s.weights@.len() == 0
    &&& s.trust@.len() == 0
    &&& s.validator_permits@.len() == 0
    &&& s.burn == burn
    &&& s.registrations_this_interval == 0
    &&& s.pending_emission == 0
    &&& s.trust_ratio == 0
}

/// Whether `b` is `a` with the record of subnet `netuid` opened with
/// `params`: a new subnet with no module, and `SubnetParamsUpdated`
/// deposited.
pub open spec fn subnet_opened(a: Subspace, b: Subspace, netuid: u16, params: SubnetParams) -> bool {
    &&& b.subnets@.len() == a.subnets@.len() + 1
    &&& b.subnets@.drop_last() == a.subnets@
    &&& fresh_subnet(b.subnets@.last(), netuid, params, a.config.default_module_min_burn)
    &&& b == (Subspace { subnets: b.subnets, events: b.events, ..a })
    &&& b.events@ == a.events@.push(Event::SubnetParamsUpdated(netuid))
}

/// Whether `b` is `a` with a new subnet `netuid` holding `params` added.
pub open spec fn subnet_added(a: Subspace, b: Subspace, netuid: u16, params: SubnetParams) -> bool {
    &&& b.subnets@.len() == a.subnets@.len() + 1
    &&& b.subnets@.drop_last() == a.subnets@
    &&& fresh_subnet(b.subnets@.last(), netuid, params, a.config.default_module_min_burn)
    &&& b.subnet_gaps@.to_set() == a.subnet_gaps@.to_set().remove(netuid)
    &&& b.events@.len() == a.events@.len() + 2
    &&& b.events@.drop_last() == a.events@.push(Event::SubnetParamsUpdated(netuid))
    &&& b.events@.last() matches Event::NetworkAdded(n, nm) && n == netuid && nm@ == params.name@
    &&& b.subnet_registrations_this_interval == (if a.subnet_registrations_this_interval == u16::MAX { u16::MAX } else {
        (a.subnet_registrations_this_interval + 1) as u16 })
    &&& b.ledger == a.ledger
    &&& b.balances == a.balances
    &&& b.fees == a.fees
    &&& b.config == a.config
    &&& b.global == a.global
    &&& b.registrations_per_block == a.registrations_per_block
    &&& b.block == a.block
    &&& b.min_fees == a.min_fees
    &&& b.subnet_burn == a.subnet_burn
    &&& b.subnet_burn_config == a.subnet_burn_config
}

/// Drops `netuid` from an ascending list of distinct netuids.
fn remove_gap(gaps: &mut Vec<u16>, netuid: u16)
    requires
        ascending(old(gaps)@),
    ensures
        ascending(final(gaps)@),
        final(gaps)@.to_set() == old(gaps)@.to_set().remove(netuid),
{
    let ghost g = gaps@;
    let mut i: usize = 0;
    while i < gaps.len()
        invariant
            i <= gaps@.len(),
            gaps@ == g,
            g == old(gaps)@,
            ascending(g),
            forall|t: int| 0 <= t < i ==> g[t] != netuid,
        decreases gaps@.len() - i,
    {
        if gaps[i] == netuid {
            gaps.remove(i);
            proof {
                let t = gaps@;
                assert(t == g.remove(i as int));
                assert forall|a: int, b: int| 0 <= a < b < t.len() implies #[trigger] t[a] < #[trigger] t[b] by {
                    let aa = if a < i { a } else { a + 1 };
                    let bb = if b < i { b } else { b + 1 };
                    assert(t[a] == g[aa] && t[b] == g[bb]);
                }
                assert forall|x: u16| #[trigger] t.to_set().contains(x) == g.to_set().remove(netuid).contains(x) by {
                    if t.to_set().contains(x) {
                        let k = choose|k: int| 0 <= k < t.len() && t[k] == x;
                        let kk = if k < i { k } else { k + 1 };
                        assert(g[kk] == x);
                        if x == netuid {
                            assert(g[i as int] == netuid);
                            assert(kk != i);
                            if kk < i {
                                assert(g[kk] < g[i as int]);
                            } else {
                                assert(g[i as int] < g[kk]);
                            }
                        }
                    }
                    if g.to_set().remove(netuid).contains(x) {
                        let k = choose|k: int| 0 <= k < g.len() && g[k] == x;
                        assert(k != i);
                        if k < i {
                            assert(t[k] == x);
                        } else {
                            assert(t[k - 1] == x);
                        }
                    }
                }
                assert(t.to_set() =~= g.to_set().remove(netuid));
            }
            assert(gaps@.to_set() == g.to_set().remove(netuid));
            assert(ascending(gaps@));
            return;
        }
        i = i + 1;
    }
    proof {
        assert(g.to_set().remove(netuid) =~= g.to_set());
    }
}

impl Subspace {
    /// Opens the record of subnet `netuid`, which has none, with `params`
    /// and no module.
    fn open_subnet(&mut self, netuid: u16, params: SubnetParams)
        requires
            old(self).wf(),
            old(self).subnets@.len() < u16::MAX,
            subnet_pos(old(self).subnets@, netuid) < 0,
        ensures
            final(self).wf(),
            subnet_opened(*old(self), *final(self), netuid, params),
    {
        let mut params = params;
        params.maximum_set_weight_calls_per_epoch = store_calls(None, params.maximum_set_weight_calls_per_epoch);
        let sub = SubnetState {
            netuid,
            params,
            keys: Vec::new(),
            names: Vec::new(),
            addresses: Vec::new(),
            metadata: Vec::new(),
            registration_block: Vec::new(),
            last_update: Vec::new(),
            emission: Vec::new(),
            incentive: Vec::new(),
            dividends: Vec::new(),
            weights: Vec::new(),
            burn: self.config.default_module_min_burn,
            registrations_this_interval: 0,
            pending_emission: 0,
            trust_ratio: 0,
            trust: Vec::new(),
            validator_permits: Vec::new(),
        };
        let ghost a = *self;
        proof {
            lemma_subnet_pos_pub(a.subnets@, netuid);
            assert(sub.keys@.no_duplicates());
            assert(subnet_wf(sub));
        }
        self.subnets.push(sub);
        self.events.push(Event::SubnetParamsUpdated(netuid));
        proof {
            assert(self.subnets@.drop_last() =~= a.subnets@);
            assert forall|i: int| 0 <= i < self.subnets@.len() implies subnet_wf(#[trigger] self.subnets@[i]) by {
                if i < a.subnets@.len() {
                    assert(subnet_wf(a.subnets@[i]));
                }
            }
            assert forall|i: int, j: int| 0 <= i < j < self.subnets@.len() implies
                #[trigger] self.subnets@[i].netuid != #[trigger] self.subnets@[j].netuid by {
                if j < a.subnets@.len() {
                    assert(a.subnets@[i].netuid != a.subnets@[j].netuid);
                } else {
                    assert(a.subnets@[i].netuid != netuid);
                }
            }
        }
    }

    /// Adds a subnet with the parameters of `changeset` under `netuid`, or
    /// else the lowest free netuid, or else the number of subnets: the
    /// changeset is applied to that netuid, which opens its record (see
    /// [`SubnetChangeset::apply`]), and the netuid is no longer free.
    /// Returns the netuid.
    pub fn add_subnet(&mut self, changeset: SubnetChangeset, netuid: Option<u16>) -> (r: Result<u16, Error>)
        requires
            old(self).wf(),
            old(self).subnets@.len() < u16::MAX,
            subnet_pos(old(self).subnets@, chosen_netuid(*old(self), netuid)) < 0,
        ensures
            final(self).wf(),
            apply_error(*old(self), chosen_netuid(*old(self), netuid), changeset.spec_params()) matches Some(e) ==>
                r == Err::<u16, Error>(e) && *final(self) == *old(self),
            apply_error(*old(self), chosen_netuid(*old(self), netuid), changeset.spec_params()) is None ==>
                r == Ok::<u16, Error>(chosen_netuid(*old(self), netuid))
                && subnet_added(*old(self), *final(self), chosen_netuid(*old(self), netuid), changeset.spec_params()),
    {
        let netuid = match netuid {
            Some(n) => n,
            None => if self.subnet_gaps.len() > 0 { self.subnet_gaps[0] } else { self.subnets.len() as u16 },
        };
        let ghost a = *self;
        let name = crate::modules::clone_bytes(&changeset.params().name);
        let applied = changeset.apply(self, netuid);
        if applied.is_err() {
            return Err(applied.unwrap_err());
        }
        let ghost mid = *self;
        self.events.push(Event::NetworkAdded(netuid, name));
        proof {
            assert(self.events@.drop_last() =~= mid.events@);
        }
        self.subnet_registrations_this_interval = self.subnet_registrations_this_interval.saturating_add(1);
        remove_gap(&mut self.subnet_gaps, netuid);
        Ok(netuid)
    }

    /// Applies `changeset` to subnet `netuid` on behalf of `key`, who must be
    /// its founder.
    pub fn do_update_subnet(&mut self, key: u64, netuid: u16, changeset: SubnetChangeset) -> (r: Result<(), Error>)
        requires
            old(self).wf(),
        ensures
            final(self).wf(),
            subnet_pos(old(self).subnets@, netuid) < 0 ==>
                r == Err::<(), Error>(Error::NetuidDoesNotExist) && *final(self) == *old(self),
            subnet_pos(old(self).subnets@, netuid) >= 0 && old(self).subnets@[subnet_pos(old(self).subnets@, netuid)].params.founder != key
                ==> r == Err::<(), Error>(Error::NotFounder) && *final(self) == *old(self),
            subnet_pos(old(self).subnets@, netuid) >= 0 && old(self).subnets@[subnet_pos(old(self).subnets@, netuid)].params.founder == key
                ==> {
                let pos = subnet_pos(old(self).subnets@, netuid);
                &&& r == as_result(apply_error(*old(self), netuid, changeset.spec_params()))
                &&& r is Err ==> *final(self) == *old(self)
                &&& r is Ok ==> params_set(*old(self), Subspace { events: old(self).events, ..*final(self) }, pos,
                    applied_params(old(self).subnets@[pos].params, changeset.spec_params()))
                &&& r is Ok ==> final(self).events@ == old(self).events@.push(Event::SubnetParamsUpdated(netuid))
            },
    {
        let idx = match self.subnet_index(netuid) {
            Some(i) => i,
            None => return Err(Error::NetuidDoesNotExist),
        };
        if self.subnets[idx].params.founder != key {
            return Err(Error::NotFounder);
        }
        changeset.apply(self, netuid)
    }
}

/// No subnet named `name` when none of the subnets carries it.
pub(crate) proof fn lemma_no_name(s: Seq<SubnetState>, name: Seq<u8>)
    ensures
        netuid_for_name(s, name) is None <==> forall|i: int| 0 <= i < s.len() ==> #[trigger] s[i].params.name@ != name,
    decreases s.len(),
{
    if s.len() > 0 {
        lemma_no_name(s.drop_last(), name);
        if netuid_for_name(s, name) is None {
            assert forall|i: int| 0 <= i < s.len() implies #[trigger] s[i].params.name@ != name by {
                if i < s.len() - 1 {
                    assert(s.drop_last()[i] == s[i]);
                }
            }
        } else {
            if netuid_for_name(s.drop_last(), name) is Some {
                let j = choose|j: int| 0 <= j < s.drop_last().len() && #[trigger] s.drop_last()[j].params.name@ == name;
                assert(s[j] == s.drop_last()[j]);
            } else {
                assert(s[s.len() - 1].params.name@ == name);
            }
        }
    }
}

/// Whether the parameters pass the checks of a new subnet against `p`, and
/// their name is free.
pub open spec fn new_subnet_valid(p: Subspace, params: SubnetParams) -> bool {
    &&& netuid_for_name(p.subnets@, params.name@) is None
    &&& changeset_error(None, params, validation_context(p, None, params.name@)) is None
    &&& module_burn_error(params.module_burn_config, p.config) is None
}

/// Whether `params` are the default parameters of a subnet registered by
/// `key` under `name` with `metadata`.
pub open spec fn registration_params(p: Subspace, params: SubnetParams, key: u64, name: Seq<u8>, metadata: Option<Vec<u8>>,
    governance: GovernanceConfiguration) -> bool {
    &&& params.name@ == name
    &&& params.metadata == metadata
    &&& params.founder == key
    &&& params.founder_share == p.global.floor_founder_share
    &&& params.immunity_period == 0
    &&& params.incentive_ratio == 50
    &&& params.max_allowed_uids == 420
    &&& params.max_allowed_weights == 420
    &&& params.min_allowed_weights == 1
    &&& params.max_weight_age == 3_600
    &&& params.tempo == 100
    &&& params.maximum_set_weight_calls_per_epoch is None
    &&& params.bonds_ma == 900_000
    &&& params.module_burn_config == crate::burn::spec_module_burn_default(p.config)
    &&& params.min_validator_stake == p.config.default_min_validator_stake
    &&& params.max_allowed_validators is None
    &&& params.governance_config == (GovernanceConfiguration { vote_mode: crate::params::VoteMode::Authority, ..governance })
    &&& params.use_weights_encryption == p.config.default_use_weights_encryption
    &&& params.copier_margin.bits == 0
    &&& params.max_encryption_period is None
}

/// The error with which `key` registering a subnet named `name` with
/// `metadata` is refused, if any: the name must be free and at most 256
/// bytes long, the metadata at most 120 bytes, the default parameters with
/// that name must pass the checks of a new subnet, `key` must pay the
/// subnet burn, and a full network needs a subnet to replace.
pub open spec fn subnet_register_error(p: Subspace, key: u64, name: Seq<u8>, metadata: Option<Vec<u8>>,
    governance: GovernanceConfiguration, lowest: Option<u16>) -> Option<Error> {
    if netuid_for_name(p.subnets@, name) is Some {
        Some(Error::SubnetNameAlreadyExists)
    } else if name.len() > 256 {
        Some(Error::SubnetNameTooLong)
    } else if metadata matches Some(m) && m@.len() > 120 {
        Some(Error::SubnetNameTooLong)
    } else {
        let params = choose|q: SubnetParams| registration_params(p, q, key, name, metadata, governance);
        if changeset_error(None, params, validation_context(p, None, name)) is Some {
            changeset_error(None, params, validation_context(p, None, name))
        } else if module_burn_error(params.module_burn_config, p.config) is Some {
            module_burn_error(params.module_burn_config, p.config)
        } else if !p.balances.can_pay(key, p.subnet_burn) {
            Some(Error::NotEnoughBalanceToRegisterSubnet)
        } else if p.subnets@.len() >= p.global.max_allowed_subnets && lowest is None {
            Some(Error::InvalidMaxAllowedSubnets)
        } else {
            None
        }
    }
}

/// Whether `b` is `a` after `key` registered a subnet named `name`: the
/// subnet burn is paid, the lowest-emission subnet goes when the network is
/// full, and the new subnet holds the default parameters with that name.
pub open spec fn subnet_registered(a: Subspace, b: Subspace, key: u64, name: Seq<u8>, metadata: Option<Vec<u8>>,
    governance: GovernanceConfiguration, lowest: Option<u16>) -> bool {
    exists|w: Subspace, params: SubnetParams| #![trigger new_subnet_valid(a, params), w.wf()] {
        &&& w.wf()
        &&& w == (Subspace { balances: w.balances, ..a })
        &&& params.name@ == name
        &&& params.metadata == metadata
        &&& params.founder == key
        &&& registration_params(a, params, key, name, metadata, governance)
        &&& new_subnet_valid(a, params)
        &&& w.balances.free_map() == debited(a.balances.free_map(), key, a.subnet_burn)
        &&& a.balances.can_pay(key, a.subnet_burn)
        &&& w.balances.min_balance() == a.balances.min_balance()
        &&& w.subnets@ == a.subnets@
        &&& w.ledger == a.ledger
        &&& w.subnet_gaps@ == a.subnet_gaps@
        &&& match registration_target(a, lowest) {
            Some(l) => exists|m: Subspace| #[trigger] subnet_dropped(w, m, subnet_pos(a.subnets@, l))
                && subnet_added(m, b, l, params),
            None => subnet_added(w, b, chosen_netuid(a, None), params),
        }
    }
}

/// The netuid a subnet registration takes: the lowest-emission subnet's
/// when the network is at its subnet limit, else a new one.
pub open spec fn registration_target(p: Subspace, lowest_emission_netuid: Option<u16>) -> Option<u16> {
    if p.subnets@.len() >= p.global.max_allowed_subnets { lowest_emission_netuid } else { None }
}

impl Subspace {
    /// Adds the subnet of a registration: when the network is at its subnet
    /// limit, the lowest-emission subnet is removed and its netuid reused.
    pub fn add_subnet_from_registration(&mut self, changeset: SubnetChangeset, lowest_emission_netuid: Option<u16>,
        removable: &Vec<u16>) -> (r: Result<(), Error>)
        requires
            old(self).wf(),
            new_subnet_valid(*old(self), changeset.spec_params()),
            old(self).subnets@.len() >= old(self).global.max_allowed_subnets ==> (lowest_emission_netuid matches Some(l) ==>
                subnet_pos(old(self).subnets@, l) >= 0 && removable@.contains(l)),
            old(self).subnets@.len() < old(self).global.max_allowed_subnets ==>
                subnet_pos(old(self).subnets@, chosen_netuid(*old(self), None)) < 0,
        ensures
            final(self).wf(),
            old(self).subnets@.len() >= old(self).global.max_allowed_subnets && lowest_emission_netuid is None ==>
                r == Err::<(), Error>(Error::InvalidMaxAllowedSubnets) && *final(self) == *old(self),
            !(old(self).subnets@.len() >= old(self).global.max_allowed_subnets && lowest_emission_netuid is None) ==> r is Ok
                && match registration_target(*old(self), lowest_emission_netuid) {
                    Some(l) => exists|m: Subspace| #[trigger] subnet_dropped(*old(self), m, subnet_pos(old(self).subnets@, l))
                        && subnet_added(m, *final(self), l, changeset.spec_params()),
                    None => subnet_added(*old(self), *final(self), chosen_netuid(*old(self), None), changeset.spec_params()),
                },
    {
        let num = self.subnets.len();
        let ghost params = changeset.spec_params();
        let ghost a = *self;
        let target = if num >= self.global.max_allowed_subnets as usize {
            let l = match lowest_emission_netuid {
                Some(l) => l,
                None => return Err(Error::InvalidMaxAllowedSubnets),
            };
            let _ = self.remove_subnet(l, removable);
            proof {
                lemma_subnet_pos_pub(a.subnets@, l);
                let pos = subnet_pos(a.subnets@, l);
                assert(subnet_dropped(a, *self, pos));
                lemma_subnet_pos_pub(self.subnets@, l);
                if subnet_pos(self.subnets@, l) >= 0 {
                    let q = subnet_pos(self.subnets@, l);
                    let t = if q < pos { q } else { q + 1 };
                    assert(self.subnets@[q] == a.subnets@[t]);
                    assert(a.subnets@[t].netuid != a.subnets@[pos].netuid);
                }
            }
            Some(l)
        } else {
            None
        };
        proof {
            lemma_no_name(a.subnets@, params.name@);
            lemma_no_name(self.subnets@, params.name@);
            assert forall|i: int| 0 <= i < self.subnets@.len() implies #[trigger] self.subnets@[i].params.name@ != params.name@ by {
                if target is Some {
                    let pos = subnet_pos(a.subnets@, target->Some_0);
                    let t = if i < pos { i } else { i + 1 };
                    assert(self.subnets@[i] == a.subnets@[t]);
                }
            }
            assert(netuid_for_name(self.subnets@, params.name@) is None);
            assert(validation_context(*self, Some(chosen_netuid(*self, target)), params.name@).current_modules == 0) by {
                lemma_subnet_pos_pub(self.subnets@, chosen_netuid(*self, target));
            }
            assert(apply_error(*self, chosen_netuid(*self, target), params) is None);
        }
        let added = self.add_subnet(changeset, target);
        match added {
            Ok(_) => Ok(()),
            Err(e) => Err(e),
        }
    }

    /// Registers a subnet named `network_name` founded by `key`, who pays the
    /// subnet burn: the name must be free, at most 256 bytes long, the
    /// metadata at most 120 bytes, and the default parameters with that
    /// name, metadata and founder must pass the checks of a new subnet.
    pub fn do_register_subnet(&mut self, key: u64, network_name: Vec<u8>, network_metadata: Option<Vec<u8>>,
        governance: GovernanceConfiguration, lowest_emission_netuid: Option<u16>, removable: &Vec<u16>) -> (r: Result<(), Error>)
        requires
            old(self).wf(),
            old(self).subnets@.len() >= old(self).global.max_allowed_subnets ==> (lowest_emission_netuid matches Some(l) ==>
                subnet_pos(old(self).subnets@, l) >= 0 && removable@.contains(l)),
            old(self).subnets@.len() < old(self).global.max_allowed_subnets ==>
                subnet_pos(old(self).subnets@, chosen_netuid(*old(self), None)) < 0,
        ensures
            final(self).wf(),
            r == as_result(subnet_register_error(*old(self), key, network_name@, network_metadata, governance,
                lowest_emission_netuid)),
            r is Err ==> *final(self) == *old(self),
            r is Ok ==> subnet_registered(*old(self), *final(self), key, network_name@, network_metadata, governance,
                lowest_emission_netuid),
    {
        if self.get_netuid_for_name(network_name.as_slice()).is_some() {
            return Err(Error::SubnetNameAlreadyExists);
        }
        if network_name.len() > 256 {
            return Err(Error::SubnetNameTooLong);
        }
        match &network_metadata {
            Some(m) => {
                if m.len() > 120 {
                    return Err(Error::SubnetNameTooLong);
                }
            },
            None => {},
        }
        let mut params = default_subnet_params(&self.config, self.global.floor_founder_share, key, governance);
        params.name = network_name;
        params.metadata = network_metadata;
        let ctx = self.validation_context_for(None, params.name.as_slice());
        let burn_check = params.module_burn_config.validate_module_burn(&self.config);
        let ghost pv = params;
        proof {
            assert(registration_params(*self, pv, key, network_name@, network_metadata, governance));
            assert forall|q: SubnetParams| #[trigger] registration_params(*self, q, key, network_name@, network_metadata, governance)
                implies new_subnet_valid(*self, q) == new_subnet_valid(*self, pv) by {
                assert(q.name@ == pv.name@);
                assert(validation_context(*self, None, q.name@) == validation_context(*self, None, pv.name@));
                assert(changeset_error(None, q, validation_context(*self, None, q.name@))
                    == changeset_error(None, pv, validation_context(*self, None, pv.name@)));
            }
        }
        proof {
            let c = choose|q: SubnetParams| registration_params(*self, q, key, network_name@, network_metadata, governance);
            assert(registration_params(*self, c, key, network_name@, network_metadata, governance));
            assert(c.name@ == pv.name@);
            assert(validation_context(*self, None, c.name@) == validation_context(*self, None, pv.name@));
            assert(changeset_error(None, c, validation_context(*self, None, c.name@))
                == changeset_error(None, pv, validation_context(*self, None, pv.name@)));
            assert(c.module_burn_config == pv.module_burn_config);
        }
        let changeset = match SubnetChangeset::new(params, &ctx) {
            Ok(c) => c,
            Err(e) => return Err(e),
        };
        if burn_check.is_err() {
            return burn_check;
        }
        let burn = self.subnet_burn;
        let bal = self.balances.get_balance(key);
        if !(burn <= bal && bal - burn >= self.balances.get_min_balance()) {
            return Err(Error::NotEnoughBalanceToRegisterSubnet);
        }
        if self.subnets.len() >= self.global.max_allowed_subnets as usize && lowest_emission_netuid.is_none() {
            return Err(Error::InvalidMaxAllowedSubnets);
        }
        let ghost a = *self;
        let _ = self.balances.remove_balance_from_account(key, burn);
        let ghost w = *self;
        proof {
            assert(new_subnet_valid(w, changeset.spec_params()));
        }
        let ghost ps = changeset.spec_params();
        let r = self.add_subnet_from_registration(changeset, lowest_emission_netuid, removable);
        proof {
            assert(registration_target(w, lowest_emission_netuid) == registration_target(a, lowest_emission_netuid));
            assert(chosen_netuid(w, None) == chosen_netuid(a, None));
            assert(new_subnet_valid(a, ps));
            assert(w.wf());
            let c = choose|q: SubnetParams| registration_params(a, q, key, network_name@, network_metadata, governance);
            assert(changeset_error(None, c, validation_context(a, None, network_name@)) is None);
            assert(module_burn_error(c.module_burn_config, a.config) is None);
            assert(subnet_register_error(a, key, network_name@, network_metadata, governance, lowest_emission_netuid) is None);
        }
        match r {
            Ok(_) => Ok(()),
            Err(e) => Err(e),
        }
    }
}

impl SubnetChangeset {
    /// Applies the parameters to subnet `netuid`: they are validated again,
    /// the module limit must cover the subnet's modules and the module burn
    /// configuration must be valid; then all of them are stored, keeping the
    /// subnet's metadata and call cap when none is given; a zero call cap
    /// removes the cap. For a netuid with no subnet yet (a subnet being
    /// created), the parameters open its record, with no module.
    pub fn apply(self, pallet: &mut Subspace, netuid: u16) -> (r: Result<(), Error>)
        requires
            old(pallet).wf(),
            subnet_pos(old(pallet).subnets@, netuid) < 0 ==> old(pallet).subnets@.len() < u16::MAX,
        ensures
            final(pallet).wf(),
            r == as_result(apply_error(*old(pallet), netuid, self.spec_params())),
            r is Err ==> *final(pallet) == *old(pallet),
            r is Ok && subnet_pos(old(pallet).subnets@, netuid) >= 0 ==> {
                let pos = subnet_pos(old(pallet).subnets@, netuid);
                &&& params_set(*old(pallet), Subspace { events: old(pallet).events, ..*final(pallet) }, pos,
                    applied_params(old(pallet).subnets@[pos].params, self.spec_params()))
                &&& final(pallet).events@ == old(pallet).events@.push(Event::SubnetParamsUpdated(netuid))
            },
            r is Ok && subnet_pos(old(pallet).subnets@, netuid) < 0 ==>
                subnet_opened(*old(pallet), *final(pallet), netuid, self.spec_params()),
    {
        let params = self.into_params();
        match pallet.check_apply(netuid, &params) {
            Ok(()) => {},
            Err(e) => return Err(e),
        }
        proof {
            lemma_subnet_pos_pub(pallet.subnets@, netuid);
        }
        let idx = match pallet.subnet_index(netuid) {
            Some(i) => i,
            None => {
                pallet.open_subnet(netuid, params);
                return Ok(());
            },
        };
        let ghost a = *pallet;
        let mut sub = pallet.subnets.remove(idx);
        let old_meta = sub.params.metadata;
        let mut params = params;
        if params.metadata.is_none() {
            params.metadata = old_meta;
        }
        params.maximum_set_weight_calls_per_epoch = store_calls(sub.params.maximum_set_weight_calls_per_epoch,
            params.maximum_set_weight_calls_per_epoch);
        sub.params = params;
        pallet.subnets.insert(idx, sub);
        proof {
            assert(pallet.subnets@ =~= a.subnets@.update(idx as int, sub));
            assert(subnet_wf(a.subnets@[idx as int]));
            assert forall|i: int| 0 <= i < pallet.subnets@.len() implies subnet_wf(#[trigger] pallet.subnets@[i]) by {
                if i != idx {
                    assert(subnet_wf(a.subnets@[i]));
                }
            }
            assert forall|i: int, j: int| 0 <= i < j < pallet.subnets@.len() implies
                #[trigger] pallet.subnets@[i].netuid != #[trigger] pallet.subnets@[j].netuid by {
                assert(a.subnets@[i].netuid != a.subnets@[j].netuid);
            }
        }
        pallet.events.push(Event::SubnetParamsUpdated(netuid));
        Ok(())
    }
}

impl GeneralBurnConfiguration {
    /// Validates the configuration as a module burn configuration (see
    /// [`GeneralBurnConfiguration::validate_module_burn`]) and stores it as
    /// the module burn configuration of subnet `netuid`. The pallet holds
    /// parameters only of subnets that exist, so for another netuid the
    /// valid configuration is accepted and nothing is kept.
    pub fn apply_module_burn(self, pallet: &mut Subspace, netuid: u16) -> (r: Result<(), Error>)
        requires
            old(pallet).wf(),
        ensures
            final(pallet).wf(),
            r == as_result(module_burn_error(self, old(pallet).config)),
            r is Err ==> *final(pallet) == *old(pallet),
            subnet_pos(old(pallet).subnets@, netuid) < 0 ==> *final(pallet) == *old(pallet),
            r is Ok && subnet_pos(old(pallet).subnets@, netuid) >= 0 ==> {
                let pos = subnet_pos(old(pallet).subnets@, netuid);
                params_set(*old(pallet), *final(pallet), pos,
                    SubnetParams { module_burn_config: self, ..old(pallet).subnets@[pos].params })
            },
    {
        let checked = self.validate_module_burn(&pallet.config);
        if checked.is_err() {
            return checked;
        }
        proof {
            lemma_subnet_pos_pub(pallet.subnets@, netuid);
        }
        let idx = match pallet.subnet_index(netuid) {
            Some(i) => i,
            None => return Ok(()),
        };
        let ghost a = *pallet;
        let mut sub = pallet.subnets.remove(idx);
        sub.params.module_burn_config = self;
        pallet.subnets.insert(idx, sub);
        proof {
            assert(pallet.subnets@ =~= a.subnets@.update(idx as int, sub));
            assert(subnet_wf(a.subnets@[idx as int]));
            assert forall|i: int| 0 <= i < pallet.subnets@.len() implies subnet_wf(#[trigger] pallet.subnets@[i]) by {
                if i != idx {
                    assert(subnet_wf(a.subnets@[i]));
                }
            }
            assert forall|i: int, j: int| 0 <= i < j < pallet.subnets@.len() implies
                #[trigger] pallet.subnets@[i].netuid != #[trigger] pallet.subnets@[j].netuid by {
                assert(a.subnets@[i].netuid != a.subnets@[j].netuid);
            }
        }
        Ok(())
    }
}

impl Subspace {
    /// Records that module `uid` of subnet `netuid` last set weights at
    /// block `last_update`; nothing happens when there is no such module.
    pub fn set_last_update_for_uid(&mut self, netuid: u16, uid: u16, last_update: u64)
        requires
            old(self).wf(),
        ensures
            final(self).wf(),
            ({
                let p = subnet_pos(old(self).subnets@, netuid);
                if p >= 0 && (uid as int) < old(self).subnets@[p].last_update@.len() {
                    &&& final(self).subnets@ == old(self).subnets@.update(p, final(self).subnets@[p])
                    &&& final(self).subnets@[p] == (SubnetState { last_update: final(self).subnets@[p].last_update, ..old(self).subnets@[p] })
                    &&& final(self).subnets@[p].last_update@ == old(self).subnets@[p].last_update@.update(uid as int, last_update)
                    &&& *final(self) == (Subspace { subnets: final(self).subnets, ..*old(self) })
                } else {
                    *final(self) == *old(self)
                }
            }),
    {
        let idx = match self.subnet_index(netuid) {
            Some(i) => i,
            None => return,
        };
        if uid as usize >= self.subnets[idx].last_update.len() {
            return;
        }
        let ghost a = *self;
        let mut sub = self.subnets.remove(idx);
        proof {
            assert(sub == a.subnets@[idx as int]);
            assert(subnet_wf(sub));
        }
        sub.last_update.set(uid as usize, last_update);
        self.subnets.insert(idx, sub);
        proof {
            assert(self.subnets@ =~= a.subnets@.update(idx as int, sub));
            assert(subnet_wf(sub));
            assert forall|i: int| 0 <= i < self.subnets@.len() implies subnet_wf(#[trigger] self.subnets@[i]) by {
                if i != idx {
                    assert(subnet_wf(a.subnets@[i]));
                }
            }
            assert forall|i: int, j: int| 0 <= i < j < self.subnets@.len() implies
                #[trigger] self.subnets@[i].netuid != #[trigger] self.subnets@[j].netuid by {
                assert(a.subnets@[i].netuid != a.subnets@[j].netuid);
            }
        }
    }

    /// Gives module `origin` of subnet `netuid` the last weight update of
    /// module `target`; nothing happens when either does not exist.
    pub fn copy_last_update_for_uid(&mut self, netuid: u16, origin: u16, target: u16)
        requires
            old(self).wf(),
        ensures
            final(self).wf(),
            ({
                let p = subnet_pos(old(self).subnets@, netuid);
                if p >= 0 && (origin as int) < old(self).subnets@[p].last_update@.len()
                    && (target as int) < old(self).subnets@[p].last_update@.len() {
                    &&& final(self).subnets@ == old(self).subnets@.update(p, final(self).subnets@[p])
                    &&& final(self).subnets@[p] == (SubnetState { last_update: final(self).subnets@[p].last_update, ..old(self).subnets@[p] })
                    &&& final(self).subnets@[p].last_update@ == old(self).subnets@[p].last_update@.update(origin as int,
                        old(self).subnets@[p].last_update@[target as int])
                    &&& *final(self) == (Subspace { subnets: final(self).subnets, ..*old(self) })
                } else {
                    *final(self) == *old(self)
                }
            }),
    {
        let idx = match self.subnet_index(netuid) {
            Some(i) => i,
            None => return,
        };
        if target as usize >= self.subnets[idx].last_update.len() || origin as usize >= self.subnets[idx].last_update.len() {
            return;
        }
        let value = self.subnets[idx].last_update[target as usize];
        self.set_last_update_for_uid(netuid, origin, value);
    }

    /// The block at which each module of subnet `netuid` registered, by uid;
    /// empty when there is no such subnet.
    pub fn get_block_at_registration(&self, netuid: u16) -> (r: Vec<u64>)
        requires
            self.wf(),
        ensures
            r@ == (if subnet_pos(self.subnets@, netuid) >= 0 {
                self.subnets@[subnet_pos(self.subnets@, netuid)].registration_block@
            } else {
                Seq::empty()
            }),
    {
        match self.subnet_index(netuid) {
            Some(i) => crate::state::copy_keys(&self.subnets[i].registration_block),
            None => Vec::new(),
        }
    }

    /// The stake counter of each module of subnet `netuid`, by uid; empty
    /// when there is no such subnet.
    pub fn get_stakes(&self, netuid: u16) -> (r: Vec<u64>)
        requires
            self.wf(),
        ensures
            r@ == (if subnet_pos(self.subnets@, netuid) >= 0 {
                self.subnets@[subnet_pos(self.subnets@, netuid)].keys@.map_values(
                    |k: u64| crate::ledger::get_or_zero(self.ledger.model().module_stakes, k))
            } else {
                Seq::empty()
            }),
    {
        let idx = match self.subnet_index(netuid) {
            Some(i) => i,
            None => return Vec::new(),
        };
        let keys = &self.subnets[idx].keys;
        let mut r: Vec<u64> = Vec::new();
        let mut i: usize = 0;
        while i < keys.len()
            invariant
                i <= keys@.len(),
                r@ == keys@.take(i as int).map_values(|k: u64| crate::ledger::get_or_zero(self.ledger.model().module_stakes, k)),
            decreases keys@.len() - i,
        {
            r.push(self.ledger.get_module_stake(keys[i]));
            proof {
                assert(keys@.take(i + 1).map_values(|k: u64| crate::ledger::get_or_zero(self.ledger.model().module_stakes, k))
                    =~= keys@.take(i as int).map_values(|k: u64| crate::ledger::get_or_zero(self.ledger.model().module_stakes, k))
                        .push(crate::ledger::get_or_zero(self.ledger.model().module_stakes, keys@[i as int])));
            }
            i = i + 1;
        }
        proof {
            assert(keys@.take(keys@.len() as int) =~= keys@);
        }
        r
    }
}

} // verus!
