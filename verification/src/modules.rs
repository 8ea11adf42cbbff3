//! Adding and removing modules of a subnet, and removing subnets.
//!
//! A module is removed by moving the last module into its uid, so that uids
//! stay contiguous.
use vstd::prelude::*;
use crate::errors::Error;
use crate::events::Event;
use crate::params::{module_params_error, ModuleFees, ModuleParams, STAKE_DELEGATION_DEFAULT, VALIDATOR_WEIGHT_DEFAULT};
use crate::percent::Percent;
use crate::staking::{unstaked_module, Holdings};
use crate::state::{registered_anywhere, subnet_has_key, subnet_pos, subnet_wf, SubnetState, Subspace};

verus! {

broadcast use vstd::std_specs::hash::group_hash_axioms;

/// `s` with entry `replace` copied into `uid` and the last entry dropped,
/// when both exist; unchanged otherwise.
pub open spec fn swap_removed<T>(s: Seq<T>, uid: int, replace: int) -> Seq<T> {
    if 0 <= uid < s.len() && 0 <= replace < s.len() { s.update(uid, s[replace]).drop_last() } else { s }
}

/// Copies entry `replace` into `uid` and drops the last entry, when both exist.
fn swap_remove_copy<T: Copy>(v: &mut Vec<T>, uid: usize, replace: usize)
    ensures
        final(v)@ == swap_removed(old(v)@, uid as int, replace as int),
{
    if uid < v.len() && replace < v.len() {
        let x = v[replace];
        v.set(uid, x);
        v.pop();
    }
}

/// Moves the last entry into `uid` (dropping it when `uid` is the last).
fn swap_remove_last<T>(v: &mut Vec<T>, uid: usize)
    requires
        uid < old(v)@.len(),
    ensures
        final(v)@ == swap_removed(old(v)@, uid as int, old(v)@.len() - 1),
{
    let ghost s = v@;
    let x = v.pop().unwrap();
    if uid < v.len() {
        v.set(uid, x);
    }
    proof {
        assert(v@ =~= swap_removed(s, uid as int, s.len() - 1));
    }
}

/// Whether `b` is subnet `a` with module `uid` removed: the last module
/// moves into `uid` in every per-module vector.
pub open spec fn module_removed(a: SubnetState, b: SubnetState, uid: int) -> bool {
    let r = a.keys@.len() - 1;
    &&& b.keys@ == swap_removed(a.keys@, uid, r)
    &&& b.names@ == swap_removed(a.names@, uid, r)
    &&& b.addresses@ == swap_removed(a.addresses@, uid, r)
    &&& b.metadata@ == swap_removed(a.metadata@, uid, r)
    &&& b.registration_block@ == swap_removed(a.registration_block@, uid, r)
    &&& b.last_update@ == swap_removed(a.last_update@, uid, r)
    &&& b.emission@ == swap_removed(a.emission@, uid, r)
    &&& b.incentive@ == swap_removed(a.incentive@, uid, r)
    &&& b.dividends@ == swap_removed(a.dividends@, uid, r)
    &&& b.weights@ == swap_removed(a.weights@, uid, r)
    &&& b.trust@ == swap_removed(a.trust@, uid, r)
    &&& b.validator_permits@ == swap_removed(a.validator_permits@, uid, r)
    &&& b.netuid == a.netuid
    &&& b.params == a.params
    &&& b.burn == a.burn
    &&& b.registrations_this_interval == a.registrations_this_interval
    &&& b.pending_emission == a.pending_emission
    &&& b.trust_ratio == a.trust_ratio
}

/// Removes module `uid` from a subnet, moving the last module into its uid.
fn remove_from_subnet(s: &mut SubnetState, uid: usize)
    requires
        subnet_wf(*old(s)),
        uid < old(s).keys@.len(),
    ensures
        subnet_wf(*final(s)),
        module_removed(*old(s), *final(s), uid as int),
        final(s).keys@.to_set() == old(s).keys@.to_set().remove(old(s).keys@[uid as int]),
{
    let ghost a = *s;
    let replace = s.keys.len() - 1;
    swap_remove_last(&mut s.keys, uid);
    swap_remove_last(&mut s.names, uid);
    swap_remove_last(&mut s.addresses, uid);
    swap_remove_last(&mut s.metadata, uid);
    swap_remove_last(&mut s.registration_block, uid);
    swap_remove_last(&mut s.last_update, uid);
    swap_remove_last(&mut s.weights, uid);
    swap_remove_last(&mut s.validator_permits, uid);
    swap_remove_copy(&mut s.emission, uid, replace);
    swap_remove_copy(&mut s.incentive, uid, replace);
    swap_remove_copy(&mut s.dividends, uid, replace);
    swap_remove_copy(&mut s.trust, uid, replace);
    proof {
        let k = a.keys@;
        let r = k.len() - 1;
        let t = s.keys@;
        assert(t == k.update(uid as int, k[r]).drop_last());
        assert forall|i: int, j: int| 0 <= i < j < t.len() implies t[i] != t[j] by {
            let ii = if i == uid { r } else { i };
            let jj = if j == uid { r } else { j };
            assert(t[i] == k[ii]);
            assert(t[j] == k[jj]);
            assert(ii != jj);
        }
        assert(t.no_duplicates());
        assert forall|x: u64| #[trigger] t.to_set().contains(x) == k.to_set().remove(k[uid as int]).contains(x) by {
            if t.to_set().contains(x) {
                let i = choose|i: int| 0 <= i < t.len() && t[i] == x;
                let ii = if i == uid { r } else { i };
                assert(k[ii] == x);
                assert(ii != uid);
            }
            if k.to_set().remove(k[uid as int]).contains(x) {
                let i = choose|i: int| 0 <= i < k.len() && k[i] == x;
                assert(i != uid);
                if i == r {
                    assert(t[uid as int] == x);
                } else {
                    assert(t[i] == x);
                }
            }
        }
        assert(t.to_set() =~= k.to_set().remove(k[uid as int]));
    }
}

/// Whether a list of netuids is strictly ascending.
pub open spec fn ascending(s: Seq<u16>) -> bool {
    forall|i: int, j: int| 0 <= i < j < s.len() ==> #[trigger] s[i] < #[trigger] s[j]
}

/// Adds `netuid` to an ascending list of distinct netuids.
fn insert_gap(gaps: &mut Vec<u16>, netuid: u16)
    requires
        ascending(old(gaps)@),
    ensures
        ascending(final(gaps)@),
        final(gaps)@.to_set() == old(gaps)@.to_set().insert(netuid),
{
    let ghost g = gaps@;
    let mut pos: usize = 0;
    while pos < gaps.len() && gaps[pos] < netuid
        invariant
            pos <= gaps@.len(),
            gaps@ == g,
            forall|i: int| 0 <= i < pos ==> #[trigger] g[i] < netuid,
        decreases gaps@.len() - pos,
    {
        pos = pos + 1;
    }
    if pos < gaps.len() && gaps[pos] == netuid {
        assert(g.to_set().insert(netuid) =~= g.to_set());
        return;
    }
    gaps.insert(pos, netuid);
    proof {
        let t = gaps@;
        assert(t == g.insert(pos as int, netuid));
        assert forall|i: int, j: int| 0 <= i < j < t.len() implies #[trigger] t[i] < #[trigger] t[j] by {
            if j < pos {
                assert(t[i] == g[i] && t[j] == g[j]);
            } else if j == pos {
                assert(t[i] == g[i]);
            } else if i < pos {
                assert(t[i] == g[i] && t[j] == g[j - 1]);
                assert(g[pos as int] > netuid);
                if j - 1 > pos {
                    assert(g[pos as int] < g[j - 1]);
                }
            } else if i == pos {
                assert(t[j] == g[j - 1]);
                assert(g[pos as int] > netuid);
                if j - 1 > pos {
                    assert(g[pos as int] < g[j - 1]);
                }
            } else {
                assert(t[i] == g[i - 1] && t[j] == g[j - 1]);
            }
        }
        assert forall|x: u16| #[trigger] t.to_set().contains(x) == g.to_set().insert(netuid).contains(x) by {
            if t.to_set().contains(x) {
                let i = choose|i: int| 0 <= i < t.len() && t[i] == x;
                if i < pos {
                    assert(g[i] == x);
                } else if i > pos {
                    assert(g[i - 1] == x);
                }
            }
            if g.to_set().contains(x) {
                let i = choose|i: int| 0 <= i < g.len() && g[i] == x;
                if i < pos {
                    assert(t[i] == x);
                } else {
                    assert(t[i + 1] == x);
                }
            }
            if x == netuid {
                assert(t[pos as int] == x);
            }
        }
        assert(t.to_set() =~= g.to_set().insert(netuid));
    }
}

/// Whether `netuid` is listed.
pub fn vec_contains_u16(v: &Vec<u16>, netuid: u16) -> (r: bool)
    ensures
        r == v@.contains(netuid),
{
    let mut i: usize = 0;
    while i < v.len()
        invariant
            i <= v@.len(),
            forall|t: int| 0 <= t < i ==> v@[t] != netuid,
        decreases v@.len() - i,
    {
        if v[i] == netuid {
            assert(v@[i as int] == netuid);
            return true;
        }
        i = i + 1;
    }
    false
}

/// The holdings and fees after the stake and fees of each key of `keys[..k]`
/// that `keep` does not hold are cleared.
pub open spec fn cleared_accounts(h: Holdings, fees: Map<u64, ModuleFees>, keys: Seq<u64>, others: Seq<SubnetState>, k: int)
    -> (Holdings, Map<u64, ModuleFees>)
    decreases k,
{
    if k <= 0 || k > keys.len() {
        (h, fees)
    } else {
        let (h1, f1) = cleared_accounts(h, fees, keys, others, k - 1);
        let key = keys[k - 1];
        if registered_anywhere(others, key) { (h1, f1) } else { (unstaked_module(h1, key), f1.remove(key)) }
    }
}

/// Whether `new` is `old` with the subnet at `pos` removed: the stake and
/// fees of its modules that are registered on no other subnet are cleared,
/// and its netuid becomes free.
pub open spec fn subnet_dropped(old: Subspace, new: Subspace, pos: int) -> bool {
    let s = old.subnets@[pos];
    let others = old.subnets@.remove(pos);
    let (h, f) = cleared_accounts(old.holdings(), old.fees@, s.keys@, others, s.keys@.len() as int);
    &&& new.subnets@ == others
    &&& new.subnet_gaps@.to_set() == old.subnet_gaps@.to_set().insert(s.netuid)
    &&& new.holdings() == h
    &&& new.fees@ == f
    &&& new.ledger.wf()
    &&& new.balances.min_balance() == old.balances.min_balance()
    &&& new.config == old.config
    &&& new.global == old.global
    &&& new.registrations_per_block == old.registrations_per_block
    &&& new.block == old.block
    &&& new.min_fees == old.min_fees
    &&& new.subnet_burn == old.subnet_burn
    &&& new.subnet_burn_config == old.subnet_burn_config
    &&& new.subnet_registrations_this_interval == old.subnet_registrations_this_interval
    &&& new.events@ == old.events@.push(Event::NetworkRemoved(s.netuid))
}

/// Whether `new` is `old` with module `uid` of the subnet at `pos` removed;
/// when its key is then registered on no subnet, its stake and fees are
/// cleared.
pub open spec fn module_dropped(old: Subspace, new: Subspace, pos: int, uid: int) -> bool {
    let s = old.subnets@[pos];
    let key = s.keys@[uid];
    &&& new.subnets@.len() == old.subnets@.len()
    &&& forall|q: int| 0 <= q < old.subnets@.len() && q != pos ==> #[trigger] new.subnets@[q] == old.subnets@[q]
    &&& module_removed(s, new.subnets@[pos], uid)
    &&& if registered_anywhere(new.subnets@, key) {
        new.holdings() == old.holdings() && new.fees@ == old.fees@
    } else {
        new.holdings() == unstaked_module(old.holdings(), key) && new.fees@ == old.fees@.remove(key)
    }
    &&& new.ledger.wf()
    &&& new.balances.min_balance() == old.balances.min_balance()
    &&& new.config == old.config
    &&& new.global == old.global
    &&& new.registrations_per_block == old.registrations_per_block
    &&& new.block == old.block
    &&& new.min_fees == old.min_fees
    &&& new.subnet_gaps@ == old.subnet_gaps@
    &&& new.subnet_burn == old.subnet_burn
    &&& new.subnet_burn_config == old.subnet_burn_config
    &&& new.subnet_registrations_this_interval == old.subnet_registrations_this_interval
    &&& new.events == old.events
}

/// Whether `b` is `a` after module `uid` of subnet `netuid` (at `p`) is
/// removed (see [`module_dropped`]), the subnet going too when it is left
/// empty, `deregister` is set and the runtime lets it go.
pub open spec fn module_removal(a: Subspace, b: Subspace, p: int, uid: int, netuid: u16, deregister: bool,
    removable: Seq<u16>) -> bool {
    exists|mid: Subspace| {
        &&& #[trigger] module_dropped(a, mid, p, uid)
        &&& mid.wf()
        &&& if deregister && a.subnets@[p].keys@.len() == 1 && removable.contains(netuid) {
            subnet_dropped(mid, b, p)
        } else {
            b == mid
        }
    }
}

impl Subspace {
    /// Whether `key` is registered on some subnet other than the one at `pos`.
    fn registered_elsewhere(&self, pos: usize, key: u64) -> (r: bool)
        requires
            pos < self.subnets@.len(),
        ensures
            r == registered_anywhere(self.subnets@.remove(pos as int), key),
    {
        let ghost others = self.subnets@.remove(pos as int);
        let mut i: usize = 0;
        while i < self.subnets.len()
            invariant
                i <= self.subnets@.len(),
                pos < self.subnets@.len(),
                others == self.subnets@.remove(pos as int),
                forall|t: int| 0 <= t < i && t != pos ==> !#[trigger] self.subnets@[t].keys@.contains(key),
            decreases self.subnets@.len() - i,
        {
            if i != pos && crate::state::vec_contains(&self.subnets[i].keys, key) {
                proof {
                    let j = if i < pos { i as int } else { i - 1 };
                    assert(others[j] == self.subnets@[i as int]);
                    assert(subnet_has_key(others, j, key));
                }
                return true;
            }
            i = i + 1;
        }
        proof {
            assert forall|j: int| 0 <= j < others.len() implies !#[trigger] subnet_has_key(others, j, key) by {
                let t = if j < pos { j } else { j + 1 };
                assert(others[j] == self.subnets@[t]);
            }
        }
        false
    }

    /// Removes module `uid` from subnet `netuid`, moving the last module into
    /// its uid. When the key is then registered on no subnet, its stake is
    /// returned to the stakers and its fees are dropped. When
    /// `deregister_subnet_if_empty` is set and the subnet is left empty, the
    /// subnet is removed too (when `removable` lists it). Nothing happens on a
    /// subnet that does not exist or has no module.
    pub fn remove_module(&mut self, netuid: u16, uid: u16, deregister_subnet_if_empty: bool, removable: &Vec<u16>)
        -> (r: Result<(), Error>)
        requires
            old(self).wf(),
        ensures
            final(self).wf(),
            ({
                let p = subnet_pos(old(self).subnets@, netuid);
                &&& (p < 0 || old(self).subnets@[p].keys@.len() == 0) ==> r is Ok && *final(self) == *old(self)
                &&& (p >= 0 && 0 < old(self).subnets@[p].keys@.len() <= uid) ==>
                    r == Err::<(), Error>(Error::ModuleDoesNotExist) && *final(self) == *old(self)
                &&& (p >= 0 && uid < old(self).subnets@[p].keys@.len()) ==> r is Ok
                    && module_removal(*old(self), *final(self), p, uid as int, netuid, deregister_subnet_if_empty, removable@)
            }),
    {
        let idx = match self.subnet_index(netuid) {
            Some(i) => i,
            None => return Ok(()),
        };
        let n = self.subnets[idx].keys.len();
        if n == 0 {
            return Ok(());
        }
        if uid as usize >= n {
            return Err(Error::ModuleDoesNotExist);
        }
        let ghost start = *self;
        let key = self.subnets[idx].keys[uid as usize];
        let mut sub = self.subnets.remove(idx);
        proof {
            assert(sub == start.subnets@[idx as int]);
            assert(subnet_wf(sub));
        }
        remove_from_subnet(&mut sub, uid as usize);
        let left = sub.keys.len();
        self.subnets.insert(idx, sub);
        proof {
            assert(self.subnets@ =~= start.subnets@.update(idx as int, sub));
            assert forall|i: int| 0 <= i < self.subnets@.len() implies subnet_wf(#[trigger] self.subnets@[i]) by {
                if i != idx {
                    assert(subnet_wf(start.subnets@[i]));
                }
            }
            assert forall|i: int, j: int| 0 <= i < j < self.subnets@.len() implies
                #[trigger] self.subnets@[i].netuid != #[trigger] self.subnets@[j].netuid by {
                assert(start.subnets@[i].netuid != start.subnets@[j].netuid);
            }
        }
        if !self.is_registered(None, key) {
            self.fees.remove(&key);
            self.remove_stake_from_storage(key);
        }
        let ghost mid = *self;
        proof {
            assert(module_dropped(start, mid, idx as int, uid as int));
            crate::state::lemma_subnet_pos_same_netuids(start.subnets@, mid.subnets@, netuid);
        }
        if deregister_subnet_if_empty && left == 0 {
            let _ = self.remove_subnet(netuid, removable);
        }
        Ok(())
    }

    /// Removes subnet `netuid` when it exists and the runtime lets it go
    /// (`removable` lists those): the stake and fees of its modules that are
    /// registered on no other subnet are cleared, and its netuid becomes free.
    /// Returns the `NetworkRemoved` event of a removal, nothing otherwise.
    pub fn remove_subnet(&mut self, netuid: u16, removable: &Vec<u16>) -> (ev: Option<Event>)
        requires
            old(self).wf(),
        ensures
            final(self).wf(),
            subnet_pos(old(self).subnets@, netuid) >= 0 && removable@.contains(netuid)
                ==> subnet_dropped(*old(self), *final(self), subnet_pos(old(self).subnets@, netuid))
                && ev == Some(Event::NetworkRemoved(netuid)),
            !(subnet_pos(old(self).subnets@, netuid) >= 0 && removable@.contains(netuid))
                ==> *final(self) == *old(self) && ev is None,
    {
        let idx = match self.subnet_index(netuid) {
            Some(i) => i,
            None => return None,
        };
        if !vec_contains_u16(removable, netuid) {
            return None;
        }
        let ghost start = *self;
        let ghost others = start.subnets@.remove(idx as int);
        let ghost keys = start.subnets@[idx as int].keys@;
        let n = self.subnets[idx].keys.len();
        let mut k: usize = 0;
        while k < n
            invariant
                k <= n,
                n == keys.len(),
                idx < self.subnets@.len(),
                self.wf(),
                self.subnets@ == start.subnets@,
                keys == start.subnets@[idx as int].keys@,
                others == start.subnets@.remove(idx as int),
                self.same_but_holdings_and_fees(start),
                (self.holdings(), self.fees@) == cleared_accounts(start.holdings(), start.fees@, keys, others, k as int),
            decreases n - k,
        {
            let key = self.subnets[idx].keys[k];
            if !self.registered_elsewhere(idx, key) {
                self.remove_stake_from_storage(key);
                self.fees.remove(&key);
            }
            proof {
                assert(self.fees@.dom().finite());
            }
            k = k + 1;
        }
        self.subnets.remove(idx);
        let ghost gaps = self.subnet_gaps@;
        insert_gap(&mut self.subnet_gaps, netuid);
        proof {
            assert(self.subnets@ == others);
            assert forall|i: int| 0 <= i < self.subnets@.len() implies subnet_wf(#[trigger] self.subnets@[i]) by {
                let t = if i < idx { i } else { i + 1 };
                assert(self.subnets@[i] == start.subnets@[t]);
            }
            assert forall|i: int, j: int| 0 <= i < j < self.subnets@.len() implies
                #[trigger] self.subnets@[i].netuid != #[trigger] self.subnets@[j].netuid by {
                let ti = if i < idx { i } else { i + 1 };
                let tj = if j < idx { j } else { j + 1 };
                assert(self.subnets@[i] == start.subnets@[ti]);
                assert(self.subnets@[j] == start.subnets@[tj]);
            }
        }
        self.events.push(Event::NetworkRemoved(netuid));
        Some(Event::NetworkRemoved(netuid))
    }
}

/// Marker for how a subnet's emission is distributed among its modules.
pub struct SubnetDistributionParameters;

/// Whether `b` is `a` with the changeset `c` written to module `uid`
/// (key `key`) of subnet number `pos`: its name, address and metadata where
/// the changeset sets them, the fees of `key`, and `ModuleUpdated` deposited.
pub open spec fn module_updated(a: Subspace, b: Subspace, pos: int, uid: int, key: u64, c: ModuleParams) -> bool {
    let s = a.subnets@[pos];
    let t = b.subnets@[pos];
    &&& b.subnets@ == a.subnets@.update(pos, t)
    &&& t == (SubnetState { names: t.names, addresses: t.addresses, metadata: t.metadata, ..s })
    &&& t.names@ == (match c.name { Some(n) => s.names@.update(uid, n), None => s.names@ })
    &&& t.addresses@ == (match c.url { Some(u) => s.addresses@.update(uid, u), None => s.addresses@ })
    &&& t.metadata@ == (match c.metadata { Some(m) => s.metadata@.update(uid, Some(m)), None => s.metadata@ })
    &&& b.fees@ == (match c.fees { Some(f) => a.fees@.insert(key, f), None => a.fees@ })
    &&& b == (Subspace { subnets: b.subnets, fees: b.fees, events: b.events, ..a })
    &&& b.events@ == a.events@.push(Event::ModuleUpdated(key))
}

impl ModuleParams {
    /// Writes what the changeset sets to module `uid` (key `key`) of subnet
    /// `netuid`: name, address and metadata in the subnet, fees under the key.
    pub fn apply(self, pallet: &mut Subspace, netuid: u16, key: u64, uid: u16)
        requires
            old(pallet).wf(),
            subnet_pos(old(pallet).subnets@, netuid) >= 0,
            (uid as int) < old(pallet).subnets@[subnet_pos(old(pallet).subnets@, netuid)].keys@.len(),
            self.fees matches Some(f) ==> f.stake_delegation_fee.parts <= 100,
        ensures
            final(pallet).wf(),
            module_updated(*old(pallet), *final(pallet), subnet_pos(old(pallet).subnets@, netuid), uid as int, key, self),
    {
        let idx = match pallet.subnet_index(netuid) {
            Some(i) => i,
            None => return,
        };
        let ghost a = *pallet;
        let ModuleParams { name, url, fees, metadata } = self;
        let mut sub = pallet.subnets.remove(idx);
        proof {
            assert(sub == a.subnets@[idx as int]);
            assert(subnet_wf(sub));
        }
        let ghost s0 = sub;
        let u = uid as usize;
        match name {
            Some(n) => { sub.names.set(u, n); },
            None => {},
        }
        match url {
            Some(x) => { sub.addresses.set(u, x); },
            None => {},
        }
        match metadata {
            Some(m) => { sub.metadata.set(u, Some(m)); },
            None => {},
        }
        pallet.subnets.insert(idx, sub);
        match fees {
            Some(f) => { pallet.fees.insert(key, f); },
            None => {},
        }
        pallet.events.push(Event::ModuleUpdated(key));
        proof {
            assert(pallet.subnets@ =~= a.subnets@.update(idx as int, sub));
            assert(sub == (SubnetState { names: sub.names, addresses: sub.addresses, metadata: sub.metadata, ..s0 }));
            assert(subnet_wf(sub));
            assert forall|k: int| 0 <= k < pallet.subnets@.len() implies subnet_wf(#[trigger] pallet.subnets@[k]) by {
                if k != idx {
                    assert(subnet_wf(a.subnets@[k]));
                }
            }
            assert forall|k: int, j: int| 0 <= k < j < pallet.subnets@.len() implies
                #[trigger] pallet.subnets@[k].netuid != #[trigger] pallet.subnets@[j].netuid by {
                assert(a.subnets@[k].netuid != a.subnets@[j].netuid);
            }
            assert forall|k: u64| #[trigger] pallet.fees@.contains_key(k) implies pallet.fees@[k].stake_delegation_fee.parts <= 100 by {
                if k != key || fees is None {
                    assert(a.fees@.contains_key(k));
                }
            }
        }
    }
}

impl Subspace {
    /// `key` updates its module on subnet `netuid` with `changeset`, which
    /// must pass the module checks against the names in the subnet, the
    /// name-length bounds and the minimum fees.
    pub fn do_update_module(&mut self, key: u64, netuid: u16, changeset: ModuleParams) -> (r: Result<(), Error>)
        requires
            old(self).wf(),
            changeset.fees matches Some(f) ==> f.stake_delegation_fee.parts <= 100,
        ensures
            final(self).wf(),
            old(self).uid_of(netuid, key) is None ==> r == Err::<(), Error>(Error::ModuleDoesNotExist),
            r is Err ==> *final(self) == *old(self),
            old(self).uid_of(netuid, key) matches Some(uid) ==> {
                let pos = subnet_pos(old(self).subnets@, netuid);
                let e = module_params_error(changeset, old(self).global.min_name_length as int,
                    old(self).global.max_name_length as int, old(self).subnets@[pos].names@, old(self).min_fees);
                &&& e matches Some(err) ==> r == Err::<(), Error>(err)
                &&& e is None ==> r is Ok && module_updated(*old(self), *final(self), pos, uid as int, key, changeset)
            },
    {
        let uid = match self.get_uid_for_key(netuid, key) {
            Some(u) => u,
            None => return Err(Error::ModuleDoesNotExist),
        };
        let idx = match self.subnet_index(netuid) {
            Some(i) => i,
            None => return Err(Error::ModuleDoesNotExist),
        };
        changeset.validate(self.global.min_name_length, self.global.max_name_length, self.subnets[idx].names.as_slice(),
            &self.min_fees)?;
        changeset.apply(self, netuid, key, uid);
        Ok(())
    }

    /// `key` changes its module on subnet `netuid`: the name and address
    /// given (changed only where they differ from the current ones), the fees
    /// where either is given (the other kept), and the metadata.
    pub fn update_module(&mut self, key: u64, netuid: u16, name: Vec<u8>, address: Vec<u8>,
        stake_delegation_fee: Option<Percent>, validator_weight_fee: Option<Percent>, metadata: Option<Vec<u8>>)
        -> (r: Result<(), Error>)
        requires
            old(self).wf(),
            stake_delegation_fee matches Some(f) ==> f.parts <= 100,
        ensures
            final(self).wf(),
            old(self).uid_of(netuid, key) is None ==> r == Err::<(), Error>(Error::ModuleDoesNotExist),
            r is Err ==> *final(self) == *old(self),
            old(self).uid_of(netuid, key) matches Some(uid) ==> {
                let pos = subnet_pos(old(self).subnets@, netuid);
                let s = old(self).subnets@[pos];
                let c = updated_params(s, uid as int, old(self).fees@, key, name, address, stake_delegation_fee,
                    validator_weight_fee, metadata);
                let e = module_params_error(c, old(self).global.min_name_length as int,
                    old(self).global.max_name_length as int, s.names@, old(self).min_fees);
                &&& e matches Some(err) ==> r == Err::<(), Error>(err)
                &&& e is None ==> r is Ok && module_updated(*old(self), *final(self), pos, uid as int, key, c)
            },
    {
        let uid = match self.get_uid_for_key(netuid, key) {
            Some(u) => u,
            None => return Err(Error::ModuleDoesNotExist),
        };
        let idx = match self.subnet_index(netuid) {
            Some(i) => i,
            None => return Err(Error::ModuleDoesNotExist),
        };
        proof {
            assert(subnet_wf(self.subnets@[idx as int]));
        }
        let current = ModuleParams {
            name: Some(clone_bytes(&self.subnets[idx].names[uid as usize])),
            url: Some(clone_bytes(&self.subnets[idx].addresses[uid as usize])),
            fees: None,
            metadata: None,
        };
        let fees = match (stake_delegation_fee, validator_weight_fee) {
            (None, None) => None,
            (stake_fee, weight_fee) => {
                let cur = self.get_fees(key);
                Some(ModuleFees {
                    stake_delegation_fee: match stake_fee { Some(f) => f, None => cur.stake_delegation_fee },
                    validator_weight_fee: match weight_fee { Some(f) => f, None => cur.validator_weight_fee },
                })
            },
        };
        proof {
            if stake_delegation_fee is None && fees is Some {
                if self.fees@.contains_key(key) {
                    assert(self.fees@[key].stake_delegation_fee.parts <= 100);
                }
            }
        }
        let changeset = ModuleParams::update(&current, name, address, fees, metadata);
        self.do_update_module(key, netuid, changeset)
    }

    /// The fees of `key`: its own, or the defaults when it has set none.
    pub fn get_fees(&self, key: u64) -> (r: ModuleFees)
        ensures
            r == fees_of(self.fees@, key),
    {
        match self.fees.get(&key) {
            Some(f) => *f,
            None => ModuleFees::default_fees(),
        }
    }
}

/// The fees of `key`: its own, or the defaults when it has set none.
pub open spec fn fees_of(fees: Map<u64, ModuleFees>, key: u64) -> ModuleFees {
    if fees.contains_key(key) {
        fees[key]
    } else {
        ModuleFees {
            stake_delegation_fee: Percent { parts: STAKE_DELEGATION_DEFAULT },
            validator_weight_fee: Percent { parts: VALIDATOR_WEIGHT_DEFAULT },
        }
    }
}

/// The changeset that `update_module` builds for module `uid` of subnet `s`.
pub open spec fn updated_params(s: SubnetState, uid: int, fees: Map<u64, ModuleFees>, key: u64, name: Vec<u8>,
    address: Vec<u8>, stake_fee: Option<Percent>, weight_fee: Option<Percent>, metadata: Option<Vec<u8>>) -> ModuleParams {
    let cur = fees_of(fees, key);
    ModuleParams {
        name: if s.names@[uid]@ == name@ { None } else { Some(name) },
        url: if s.addresses@[uid]@ == address@ { None } else { Some(address) },
        fees: if stake_fee is None && weight_fee is None { None } else {
            Some(ModuleFees {
                stake_delegation_fee: match stake_fee { Some(f) => f, None => cur.stake_delegation_fee },
                validator_weight_fee: match weight_fee { Some(f) => f, None => cur.validator_weight_fee },
            })
        },
        metadata: metadata,
    }
}

/// A copy of a byte string.
pub fn clone_bytes(v: &Vec<u8>) -> (r: Vec<u8>)
    ensures
        r@ == v@,
{
    let mut r: Vec<u8> = Vec::new();
    let mut i: usize = 0;
    while i < v.len()
        invariant
            i <= v@.len(),
            r@ == v@.take(i as int),
        decreases v@.len() - i,
    {
        r.push(v[i]);
        proof {
            assert(v@.take(i + 1) =~= v@.take(i as int).push(v@[i as int]));
        }
        i = i + 1;
    }
    proof {
        assert(v@.take(v@.len() as int) =~= v@);
    }
    r
}

} // verus!
