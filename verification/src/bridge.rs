//! Bridging: a key locks part of its free balance as bridged tokens and may
//! withdraw bridged tokens back into its balance.
use vstd::prelude::*;
use crate::events::Event;
use crate::balances::{credited, debited, Balances};
use crate::errors::Error;
use std::collections::HashMap;

verus! {

broadcast use vstd::std_specs::hash::group_hash_axioms;

/// The bridged tokens of each key.
pub struct Bridged {
    pub amounts: HashMap<u64, u64>,
}

impl Bridged {
    /// The bridged tokens of each key that has some entry.
    pub open spec fn amounts_map(&self) -> Map<u64, u64> {
        self.amounts@
    }

    /// The bridged tokens of `key`, zero when it has none.
    pub open spec fn bridged_of(&self, key: u64) -> u64 {
        if self.amounts@.contains_key(key) { self.amounts@[key] } else { 0 }
    }

    /// Nothing bridged.
    pub fn new() -> (r: Bridged)
        ensures
            r.amounts_map() == Map::<u64, u64>::empty(),
    {
        Bridged { amounts: HashMap::new() }
    }

    /// The bridged tokens of `key`.
    pub fn get_bridged(&self, key: u64) -> (r: u64)
        ensures
            r == self.bridged_of(key),
    {
        match self.amounts.get(&key) {
            Some(v) => *v,
            None => 0,
        }
    }

    /// `key` bridges `amount` of its free balance, which must cover it and
    /// leave the minimum balance; `Bridged` is deposited to `events`.
    pub fn bridge(&mut self, balances: &mut Balances, events: &mut Vec<Event>, key: u64, amount: u64) -> (r: Result<(), Error>)
        ensures
            r is Err ==> *final(events) == *old(events),
            r is Ok ==> final(events)@ == old(events)@.push(Event::Bridged(key, amount)),
            !old(balances).has_enough(key, amount) ==> r == Err::<(), Error>(Error::NotEnoughBalance),
            old(balances).has_enough(key, amount) && !old(balances).can_pay(key, amount)
                ==> r == Err::<(), Error>(Error::BalanceNotRemoved),
            r is Err ==> *final(self) == *old(self) && *final(balances) == *old(balances),
            r is Ok <==> old(balances).has_enough(key, amount) && old(balances).can_pay(key, amount),
            r is Ok ==> final(balances).free_map() == debited(old(balances).free_map(), key, amount)
                && final(balances).min_balance() == old(balances).min_balance()
                && final(self).amounts_map() == old(self).amounts_map().insert(key,
                    (if old(self).bridged_of(key) + amount > u64::MAX { u64::MAX as int }
                     else { old(self).bridged_of(key) + amount }) as u64),
    {
        if !balances.has_enough_balance(key, amount) {
            return Err(Error::NotEnoughBalance);
        }
        if !balances.remove_balance_from_account(key, amount) {
            return Err(Error::BalanceNotRemoved);
        }
        let cur = self.get_bridged(key);
        self.amounts.insert(key, cur.saturating_add(amount));
        events.push(Event::Bridged(key, amount));
        Ok(())
    }

    /// `key` withdraws `amount` of its bridged tokens, which must be
    /// positive and covered, back into its free balance; `BridgeWithdrawn`
    /// is deposited to `events`.
    pub fn bridge_withdraw(&mut self, balances: &mut Balances, events: &mut Vec<Event>, key: u64, amount: u64)
        -> (r: Result<(), Error>)
        ensures
            r is Err ==> *final(events) == *old(events),
            r is Ok ==> final(events)@ == old(events)@.push(Event::BridgeWithdrawn(key, amount)),
            r is Ok <==> amount > 0 && old(self).bridged_of(key) >= amount,
            r is Err ==> r == Err::<(), Error>(Error::NotEnoughBridgedTokens) && *final(self) == *old(self)
                && *final(balances) == *old(balances),
            r is Ok ==> final(balances).free_map() == credited(old(balances).free_map(), key, amount)
                && final(balances).min_balance() == old(balances).min_balance()
                && final(self).amounts_map() == old(self).amounts_map().insert(key, (old(self).bridged_of(key) - amount) as u64),
    {
        let cur = self.get_bridged(key);
        if !(cur >= amount && amount > 0) {
            return Err(Error::NotEnoughBridgedTokens);
        }
        balances.add_balance_to_account(key, amount);
        self.amounts.insert(key, cur - amount);
        events.push(Event::BridgeWithdrawn(key, amount));
        Ok(())
    }
}

/// Bridging an amount and withdrawing it again gives back the balance and
/// the bridged tokens there were, when no count saturates.
pub proof fn bridge_round_trip(b0: Map<u64, u64>, m0: Map<u64, u64>, min: u64, key: u64, amount: u64)
    requires
        amount > 0,
        (if b0.contains_key(key) { b0[key] } else { 0 }) >= amount,
        (if b0.contains_key(key) { b0[key] } else { 0 }) - amount >= min,
        (if m0.contains_key(key) { m0[key] } else { 0 }) + amount <= u64::MAX,
    ensures
        ({
            let b1 = debited(b0, key, amount);
            let m1 = m0.insert(key, ((if m0.contains_key(key) { m0[key] } else { 0 }) + amount) as u64);
            let b2 = credited(b1, key, amount);
            let m2 = m1.insert(key, (m1[key] - amount) as u64);
            &&& b2 == b0.insert(key, if b0.contains_key(key) { b0[key] } else { 0 })
            &&& m2 == m0.insert(key, if m0.contains_key(key) { m0[key] } else { 0 })
        }),
{
    let b1 = debited(b0, key, amount);
    let m1 = m0.insert(key, ((if m0.contains_key(key) { m0[key] } else { 0 }) + amount) as u64);
    let b2 = credited(b1, key, amount);
    let m2 = m1.insert(key, (m1[key] - amount) as u64);
    assert(b2 =~= b0.insert(key, if b0.contains_key(key) { b0[key] } else { 0 }));
    assert(m2 =~= m0.insert(key, if m0.contains_key(key) { m0[key] } else { 0 }));
}

} // verus!
