//! Free balances of accounts, as the pallet's currency holds them.
use vstd::prelude::*;
use std::collections::HashMap;

verus! {

broadcast use vstd::std_specs::hash::group_hash_axioms;

/// Free balance of each account, and the least balance an account must keep
/// when it pays from its balance.
pub struct Balances {
    free: HashMap<u64, u64>,
    existential_deposit: u64,
}

/// The balances after `amount` is credited to `key` (saturating).
pub open spec fn credited(m: Map<u64, u64>, key: u64, amount: u64) -> Map<u64, u64> {
    let b = if m.contains_key(key) { m[key] } else { 0 };
    m.insert(key, (if b + amount > u64::MAX { u64::MAX as int } else { b + amount }) as u64)
}

/// The balances after `amount` is taken from `key`, which holds at least that much.
pub open spec fn debited(m: Map<u64, u64>, key: u64, amount: u64) -> Map<u64, u64> {
    let b = if m.contains_key(key) { m[key] } else { 0 };
    m.insert(key, (b - amount) as u64)
}

impl Balances {
    /// An identical set of balances.
    pub fn copy(&self) -> (r: Balances)
        ensures
            r.free_map() == self.free_map(),
            r.min_balance() == self.min_balance(),
    {
        Balances { free: self.free.clone(), existential_deposit: self.existential_deposit }
    }

    /// The free balance of each account that has one.
    pub closed spec fn free_map(&self) -> Map<u64, u64> {
        self.free@
    }

    /// The least balance an account keeps when it pays.
    pub closed spec fn min_balance(&self) -> u64 {
        self.existential_deposit
    }

    /// The free balance of `key`, zero when it has none.
    pub open spec fn balance_of(&self, key: u64) -> u64 {
        if self.free_map().contains_key(key) { self.free_map()[key] } else { 0 }
    }

    /// Whether `key` holds at least `amount`, which is positive.
    pub open spec fn has_enough(&self, key: u64, amount: u64) -> bool {
        amount != 0 && self.balance_of(key) >= amount
    }

    /// Whether paying `amount` from `key` leaves at least the minimum balance.
    pub open spec fn can_pay(&self, key: u64, amount: u64) -> bool {
        amount <= self.balance_of(key) && self.balance_of(key) - amount >= self.min_balance()
    }

    /// No account has a balance and accounts must keep `existential_deposit`.
    pub fn new(existential_deposit: u64) -> (r: Balances)
        ensures
            r.free_map() == Map::<u64, u64>::empty(),
            r.min_balance() == existential_deposit,
    {
        Balances { free: HashMap::new(), existential_deposit }
    }

    /// Sets the free balance of `key`.
    pub fn set_balance(&mut self, key: u64, amount: u64)
        ensures
            final(self).free_map() == old(self).free_map().insert(key, amount),
            final(self).min_balance() == old(self).min_balance(),
    {
        self.free.insert(key, amount);
    }

    /// The least balance an account keeps when it pays.
    pub fn get_min_balance(&self) -> (r: u64)
        ensures
            r == self.min_balance(),
    {
        self.existential_deposit
    }

    /// The free balance of `key`.
    pub fn get_balance(&self, key: u64) -> (r: u64)
        ensures
            r == self.balance_of(key),
    {
        match self.free.get(&key) {
            Some(v) => *v,
            None => 0,
        }
    }

    /// Whether `key` holds at least `amount`, which must be positive.
    pub fn has_enough_balance(&self, key: u64, amount: u64) -> (r: bool)
        ensures
            r == self.has_enough(key, amount),
    {
        if amount == 0 {
            false
        } else {
            self.get_balance(key) >= amount
        }
    }

    /// Takes `amount` from `key`, keeping the minimum balance; returns whether
    /// it was taken. Nothing changes when it is not.
    pub fn remove_balance_from_account(&mut self, key: u64, amount: u64) -> (ok: bool)
        ensures
            ok == old(self).can_pay(key, amount),
            ok ==> final(self).free_map() == old(self).free_map().insert(key, (old(self).balance_of(key) - amount) as u64),
            !ok ==> *final(self) == *old(self),
            final(self).min_balance() == old(self).min_balance(),
    {
        let bal = self.get_balance(key);
        if amount <= bal && bal - amount >= self.existential_deposit {
            self.free.insert(key, bal - amount);
            true
        } else {
            false
        }
    }

    /// Credits `amount` to `key` (saturating).
    pub fn add_balance_to_account(&mut self, key: u64, amount: u64)
        ensures
            final(self).free_map() == old(self).free_map().insert(key,
                (if old(self).balance_of(key) + amount > u64::MAX { u64::MAX as int } else { old(self).balance_of(key) + amount }) as u64),
            final(self).min_balance() == old(self).min_balance(),
    {
        let bal = self.get_balance(key);
        self.free.insert(key, bal.saturating_add(amount));
    }

    /// Moves `amount` from `from` to `to`, keeping the minimum balance of the
    /// payer; returns whether it moved. A transfer to oneself changes nothing.
    pub fn transfer_balance_to_account(&mut self, from: u64, to: u64, amount: u64) -> (ok: bool)
        ensures
            ok == old(self).can_pay(from, amount),
            ok && from != to ==> final(self).free_map() == old(self).free_map()
                .insert(from, (old(self).balance_of(from) - amount) as u64)
                .insert(to, (if old(self).balance_of(to) + amount > u64::MAX { u64::MAX as int } else { old(self).balance_of(to) + amount }) as u64),
            !ok || from == to ==> final(self).free_map() == old(self).free_map(),
            final(self).min_balance() == old(self).min_balance(),
    {
        let bal = self.get_balance(from);
        if !(amount <= bal && bal - amount >= self.existential_deposit) {
            return false;
        }
        if from == to {
            return true;
        }
        self.free.insert(from, bal - amount);
        let to_bal = self.get_balance(to);
        self.free.insert(to, to_bal.saturating_add(amount));
        true
    }
}

} // verus!
