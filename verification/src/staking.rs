//! Staking: moving tokens between free balances and stake on modules.
//!
//! Each operation is described by a step over what the stake storage and the
//! balances hold; a refused operation leaves the pallet as it was.
use vstd::prelude::*;
use crate::events::Event;
use crate::balances::{credited, debited};
use crate::errors::Error;
use crate::ledger::{get_or_zero, sorted_entries, stake_added, stake_from_seq, stake_removed, StakeModel};
use crate::params::{ModuleFees, STAKE_DELEGATION_DEFAULT};
use crate::percent::Percent;
use crate::state::{registered_anywhere, SubnetState, Subspace};

verus! {

/// What the staking operations read and write: the stake storage and the free
/// balances.
#[verifier::ext_equal]
pub struct Holdings {
    pub stake: StakeModel,
    pub balances: Map<u64, u64>,
}

/// Whether paying `amount` from `key` leaves it at least `min`.
pub open spec fn payable(balances: Map<u64, u64>, min: u64, key: u64, amount: u64) -> bool {
    amount <= get_or_zero(balances, key) && get_or_zero(balances, key) - amount >= min
}

/// Staking `amount` from the free balance of `key` on `module`: the error it
/// is refused with, or what the storage holds afterwards.
pub open spec fn add_stake_step(h: Holdings, min: u64, subnets: Seq<SubnetState>, key: u64, module: u64, amount: u64)
    -> Result<Holdings, Error>
{
    if !registered_anywhere(subnets, module) {
        Err(Error::NotRegistered)
    } else if !(amount != 0 && get_or_zero(h.balances, key) >= amount) {
        Err(Error::NotEnoughBalanceToStake)
    } else if !payable(h.balances, min, key, amount) {
        Err(Error::BalanceCouldNotBeRemoved)
    } else {
        Ok(Holdings { stake: stake_added(h.stake, key, module, amount), balances: debited(h.balances, key, amount) })
    }
}

/// Unstaking `amount` that `key` staked on `module` back to its free
/// balance: the error it is refused with, or what the storage holds afterwards.
pub open spec fn remove_stake_step(h: Holdings, subnets: Seq<SubnetState>, key: u64, module: u64, amount: u64)
    -> Result<Holdings, Error>
{
    if !registered_anywhere(subnets, module) {
        Err(Error::NotRegistered)
    } else if !(amount > 0 && get_or_zero(h.stake.stakes, (key, module)) >= amount) {
        Err(Error::NotEnoughStaketoWithdraw)
    } else {
        Ok(Holdings { stake: stake_removed(h.stake, key, module, amount), balances: credited(h.balances, key, amount) })
    }
}

/// Moving `amount` of the stake of `key` from `module` to `new_module`.
pub open spec fn transfer_stake_step(h: Holdings, min: u64, subnets: Seq<SubnetState>, key: u64, module: u64,
    new_module: u64, amount: u64) -> Result<Holdings, Error>
{
    if !registered_anywhere(subnets, module) || !registered_anywhere(subnets, new_module) {
        Err(Error::NotRegistered)
    } else if !(amount > 0 && get_or_zero(h.stake.stakes, (key, module)) >= amount) {
        Err(Error::NotEnoughStaketoWithdraw)
    } else {
        match remove_stake_step(h, subnets, key, module, amount) {
            Ok(mid) => add_stake_step(mid, min, subnets, key, new_module, amount),
            Err(e) => Err(e),
        }
    }
}

/// Staking `amounts[i]` on `modules[i]` for `i` from `from` on, stopping at
/// the first refusal.
pub open spec fn add_stake_steps(h: Holdings, min: u64, subnets: Seq<SubnetState>, key: u64, modules: Seq<u64>,
    amounts: Seq<u64>, from: int) -> Result<Holdings, Error>
    decreases amounts.len() - from,
{
    if from < 0 || from >= amounts.len() || from >= modules.len() {
        Ok(h)
    } else {
        match add_stake_step(h, min, subnets, key, modules[from], amounts[from]) {
            Ok(next) => add_stake_steps(next, min, subnets, key, modules, amounts, from + 1),
            Err(e) => Err(e),
        }
    }
}

/// Unstaking `amounts[i]` from `modules[i]` for `i` from `from` on, each
/// first checked for enough stake, stopping at the first refusal.
pub open spec fn remove_stake_steps(h: Holdings, subnets: Seq<SubnetState>, key: u64, modules: Seq<u64>,
    amounts: Seq<u64>, from: int) -> Result<Holdings, Error>
    decreases amounts.len() - from,
{
    if from < 0 || from >= amounts.len() || from >= modules.len() {
        Ok(h)
    } else if !(amounts[from] > 0 && get_or_zero(h.stake.stakes, (key, modules[from])) >= amounts[from]) {
        Err(Error::NotEnoughStaketoWithdraw)
    } else {
        match remove_stake_step(h, subnets, key, modules[from], amounts[from]) {
            Ok(next) => remove_stake_steps(next, subnets, key, modules, amounts, from + 1),
            Err(e) => Err(e),
        }
    }
}

/// The balances after `key` pays `amount` to `to` when it can keep `min`;
/// unchanged when it cannot or pays itself.
pub open spec fn transferred(b: Map<u64, u64>, min: u64, key: u64, to: u64, amount: u64) -> Map<u64, u64> {
    if payable(b, min, key, amount) && key != to {
        credited(debited(b, key, amount), to, amount)
    } else {
        b
    }
}

/// Paying `amounts[i]` to `destinations[i]` for `i` from `from` on, each
/// first checked for a positive amount covered by the balance.
pub open spec fn transfer_steps(b: Map<u64, u64>, min: u64, key: u64, destinations: Seq<u64>, amounts: Seq<u64>,
    from: int) -> Result<Map<u64, u64>, Error>
    decreases amounts.len() - from,
{
    if from < 0 || from >= amounts.len() || from >= destinations.len() {
        Ok(b)
    } else if !(amounts[from] != 0 && get_or_zero(b, key) >= amounts[from]) {
        Err(Error::NotEnoughBalanceToTransfer)
    } else {
        transfer_steps(transferred(b, min, key, destinations[from], amounts[from]), min, key, destinations, amounts, from + 1)
    }
}

/// The sum of a sequence of amounts.
pub open spec fn amount_sum(s: Seq<u64>) -> int
    decreases s.len(),
{
    if s.len() == 0 { 0 } else { amount_sum(s.drop_last()) + s.last() }
}

/// Most keys one staking call may name.
pub const MAX_STAKE_KEYS: usize = 100;

/// The sum of `amounts`, which fits in a `u64`.
fn sum_amounts(amounts: &Vec<u64>) -> (r: u64)
    requires
        amount_sum(amounts@) <= u64::MAX,
    ensures
        r == amount_sum(amounts@),
{
    let mut total: u64 = 0;
    let mut i: usize = 0;
    while i < amounts.len()
        invariant
            i <= amounts@.len(),
            total == amount_sum(amounts@.take(i as int)),
            amount_sum(amounts@) <= u64::MAX,
        decreases amounts@.len() - i,
    {
        proof {
            assert(amounts@.take(i + 1).drop_last() =~= amounts@.take(i as int));
            lemma_sum_prefix_le(amounts@, i + 1);
        }
        total = total + amounts[i];
        i = i + 1;
    }
    proof {
        assert(amounts@.take(amounts@.len() as int) =~= amounts@);
    }
    total
}

/// A prefix sums to no more than the whole.
proof fn lemma_sum_prefix_le(s: Seq<u64>, k: int)
    requires
        0 <= k <= s.len(),
    ensures
        amount_sum(s.take(k)) <= amount_sum(s),
    decreases s.len() - k,
{
    if k < s.len() {
        lemma_sum_prefix_le(s, k + 1);
        assert(s.take(k + 1).drop_last() =~= s.take(k));
    } else {
        assert(s.take(k) =~= s);
    }
}

impl Subspace {
    /// What the stake storage and the balances hold.
    pub open spec fn holdings(&self) -> Holdings {
        Holdings { stake: self.ledger.model(), balances: self.balances.free_map() }
    }

    /// Whether `self` is `old` with the stake storage and balances holding `h`.
    pub open spec fn holds(&self, old: Subspace, h: Holdings) -> bool {
        &&& self.holdings() == h
        &&& self.ledger.wf()
        &&& self.same_but_holdings(old)
    }

    /// Stakes `amount` from the free balance of `key` on `module_key`,
    /// depositing no event.
    fn stake_from_balance(&mut self, key: u64, module_key: u64, amount: u64) -> (r: Result<(), Error>)
        requires
            old(self).wf(),
        ensures
            final(self).wf(),
            match add_stake_step(old(self).holdings(), old(self).balances.min_balance(), old(self).subnets@, key,
                module_key, amount) {
                Ok(h) => r is Ok && final(self).holds(*old(self), h),
                Err(e) => r == Err::<(), Error>(e) && *final(self) == *old(self),
            },
    {
        if !self.is_registered(None, module_key) {
            return Err(Error::NotRegistered);
        }
        if !self.balances.has_enough_balance(key, amount) {
            return Err(Error::NotEnoughBalanceToStake);
        }
        let stake_before = self.ledger.get_stake_to_module(key, module_key);
        let balance_before = self.balances.get_balance(key);
        let module_stake_before = self.ledger.get_module_stake(module_key);
        if !self.balances.remove_balance_from_account(key, amount) {
            return Err(Error::BalanceCouldNotBeRemoved);
        }
        self.ledger.increase_stake(key, module_key, amount);
        let stake_after = self.ledger.get_stake_to_module(key, module_key);
        let balance_after = self.balances.get_balance(key);
        let module_stake_after = self.ledger.get_module_stake(module_key);
        if stake_after != stake_before.saturating_add(amount) {
            return Err(Error::StakeNotAdded);
        }
        if balance_after != balance_before.saturating_sub(amount) {
            return Err(Error::BalanceNotRemoved);
        }
        if module_stake_after != module_stake_before.saturating_add(amount) {
            return Err(Error::StakeNotAdded);
        }
        proof {
            assert(self.holdings() =~= add_stake_step(old(self).holdings(), old(self).balances.min_balance(),
                old(self).subnets@, key, module_key, amount)->Ok_0);
        }
        Ok(())
    }

    /// Unstakes `amount` that `key` staked on `module_key` back to its free
    /// balance, depositing no event.
    fn unstake_to_balance(&mut self, key: u64, module_key: u64, amount: u64) -> (r: Result<(), Error>)
        requires
            old(self).wf(),
        ensures
            final(self).wf(),
            match remove_stake_step(old(self).holdings(), old(self).subnets@, key, module_key, amount) {
                Ok(h) => r is Ok && final(self).holds(*old(self), h),
                Err(e) => r == Err::<(), Error>(e) && *final(self) == *old(self),
            },
    {
        if !self.is_registered(None, module_key) {
            return Err(Error::NotRegistered);
        }
        if !self.ledger.has_enough_stake(key, module_key, amount) {
            return Err(Error::NotEnoughStaketoWithdraw);
        }
        let stake_before = self.ledger.get_stake_to_module(key, module_key);
        let balance_before = self.balances.get_balance(key);
        let module_stake_before = self.ledger.get_module_stake(module_key);
        self.ledger.decrease_stake(key, module_key, amount);
        self.balances.add_balance_to_account(key, amount);
        let stake_after = self.ledger.get_stake_to_module(key, module_key);
        let balance_after = self.balances.get_balance(key);
        let module_stake_after = self.ledger.get_module_stake(module_key);
        if stake_after != stake_before.saturating_sub(amount) {
            return Err(Error::StakeNotRemoved);
        }
        if balance_after != balance_before.saturating_add(amount) {
            return Err(Error::BalanceNotAdded);
        }
        if module_stake_after != module_stake_before.saturating_sub(amount) {
            return Err(Error::StakeNotRemoved);
        }
        proof {
            assert(self.holdings() =~= remove_stake_step(old(self).holdings(), old(self).subnets@, key, module_key,
                amount)->Ok_0);
        }
        Ok(())
    }
}

impl Subspace {
    /// Stakes `amount` from the free balance of `key` on `module_key` and
    /// deposits `StakeAdded`.
    pub fn do_add_stake(&mut self, key: u64, module_key: u64, amount: u64) -> (r: Result<(), Error>)
        requires
            old(self).wf(),
        ensures
            final(self).wf(),
            match add_stake_step(old(self).holdings(), old(self).balances.min_balance(), old(self).subnets@, key,
                module_key, amount) {
                Ok(h) => r is Ok && (Subspace { events: old(self).events, ..*final(self) }).holds(*old(self), h)
                    && final(self).events@ == old(self).events@.push(Event::StakeAdded(key, module_key, amount)),
                Err(e) => r == Err::<(), Error>(e) && *final(self) == *old(self),
            },
    {
        let r = self.stake_from_balance(key, module_key, amount);
        if r.is_ok() {
            self.events.push(Event::StakeAdded(key, module_key, amount));
        }
        r
    }

    /// Unstakes `amount` that `key` staked on `module_key` back to its free
    /// balance and deposits `StakeRemoved`.
    pub fn do_remove_stake(&mut self, key: u64, module_key: u64, amount: u64) -> (r: Result<(), Error>)
        requires
            old(self).wf(),
        ensures
            final(self).wf(),
            match remove_stake_step(old(self).holdings(), old(self).subnets@, key, module_key, amount) {
                Ok(h) => r is Ok && (Subspace { events: old(self).events, ..*final(self) }).holds(*old(self), h)
                    && final(self).events@ == old(self).events@.push(Event::StakeRemoved(key, module_key, amount)),
                Err(e) => r == Err::<(), Error>(e) && *final(self) == *old(self),
            },
    {
        let r = self.unstake_to_balance(key, module_key, amount);
        if r.is_ok() {
            self.events.push(Event::StakeRemoved(key, module_key, amount));
        }
        r
    }

    /// Deposits one `StakeAdded` (or `StakeRemoved`) per module, in order.
    fn deposit_stake_events(&mut self, key: u64, module_keys: &Vec<u64>, amounts: &Vec<u64>, added: bool)
        requires
            module_keys@.len() == amounts@.len(),
        ensures
            final(self).events@ == old(self).events@ + stake_events(key, module_keys@, amounts@, added),
            (Subspace { events: old(self).events, ..*final(self) }) == *old(self),
    {
        let ghost start = *self;
        let mut i: usize = 0;
        while i < amounts.len()
            invariant
                i <= amounts@.len(),
                module_keys@.len() == amounts@.len(),
                self.events@ == start.events@ + stake_events(key, module_keys@, amounts@, added).take(i as int),
                (Subspace { events: start.events, ..*self }) == start,
            decreases amounts@.len() - i,
        {
            let ev = if added {
                Event::StakeAdded(key, module_keys[i], amounts[i])
            } else {
                Event::StakeRemoved(key, module_keys[i], amounts[i])
            };
            self.events.push(ev);
            proof {
                assert(stake_events(key, module_keys@, amounts@, added).take(i + 1)
                    =~= stake_events(key, module_keys@, amounts@, added).take(i as int).push(ev));
            }
            i = i + 1;
        }
        proof {
            assert(stake_events(key, module_keys@, amounts@, added).take(amounts@.len() as int)
                =~= stake_events(key, module_keys@, amounts@, added));
        }
    }

    /// Moves `amount` of the stake of `key` from `module_key` to `new_module_key`.
    pub fn do_transfer_stake(&mut self, key: u64, module_key: u64, new_module_key: u64, amount: u64) -> (r: Result<(), Error>)
        requires
            old(self).wf(),
        ensures
            final(self).wf(),
            match transfer_stake_step(old(self).holdings(), old(self).balances.min_balance(), old(self).subnets@, key,
                module_key, new_module_key, amount) {
                Ok(h) => r is Ok && (Subspace { events: old(self).events, ..*final(self) }).holds(*old(self), h)
                    && final(self).events@ == old(self).events@.push(Event::StakeRemoved(key, module_key, amount))
                        .push(Event::StakeAdded(key, new_module_key, amount)),
                Err(e) => r == Err::<(), Error>(e) && *final(self) == *old(self),
            },
    {
        if !self.is_registered(None, module_key) {
            return Err(Error::NotRegistered);
        }
        if !self.is_registered(None, new_module_key) {
            return Err(Error::NotRegistered);
        }
        if !self.ledger.has_enough_stake(key, module_key, amount) {
            return Err(Error::NotEnoughStaketoWithdraw);
        }
        // The stake comes back to the free balance first and is then staked
        // again; the second half is refused when it would leave the account
        // under its minimum balance, and then nothing is done.
        let after_unstake = self.balances.get_balance(key).saturating_add(amount);
        if after_unstake - amount < self.balances.get_min_balance() {
            return Err(Error::BalanceCouldNotBeRemoved);
        }
        let ghost before = *self;
        let removed = self.unstake_to_balance(key, module_key, amount);
        if removed.is_err() {
            return removed;
        }
        let ghost mid = *self;
        let added = self.stake_from_balance(key, new_module_key, amount);
        if added.is_err() {
            return added;
        }
        proof {
            assert(mid.holds(before, mid.holdings()));
        }
        self.events.push(Event::StakeRemoved(key, module_key, amount));
        self.events.push(Event::StakeAdded(key, new_module_key, amount));
        Ok(())
    }

    /// Stakes `amounts[i]` from the free balance of `key` on `module_keys[i]`,
    /// in order; all or nothing.
    pub fn do_add_stake_multiple(&mut self, key: u64, module_keys: Vec<u64>, amounts: Vec<u64>) -> (r: Result<(), Error>)
        requires
            old(self).wf(),
            amounts@.len() == module_keys@.len() && 0 < amounts@.len() <= MAX_STAKE_KEYS ==> amount_sum(amounts@) <= u64::MAX,
        ensures
            final(self).wf(),
            match add_multiple_outcome(old(self).holdings(), old(self).balances.min_balance(), old(self).subnets@, key,
                module_keys@, amounts@) {
                Ok(h) => r is Ok && (Subspace { events: old(self).events, ..*final(self) }).holds(*old(self), h)
                    && final(self).events@ == old(self).events@ + stake_events(key, module_keys@, amounts@, true),
                Err(e) => r == Err::<(), Error>(e) && final(self).holds(*old(self), old(self).holdings()),
            },
    {
        if amounts.len() != module_keys.len() {
            return Err(Error::DifferentLengths);
        }
        if amounts.len() == 0 {
            return Err(Error::EmptyKeys);
        }
        if amounts.len() > MAX_STAKE_KEYS {
            return Err(Error::TooManyKeys);
        }
        let total_amount = sum_amounts(&amounts);
        if !self.balances.has_enough_balance(key, total_amount) {
            return Err(Error::NotEnoughStaketoWithdraw);
        }
        let saved_ledger = self.ledger.copy();
        let saved_balances = self.balances.copy();
        let ghost start = *self;
        let mut i: usize = 0;
        while i < amounts.len()
            invariant
                self.wf(),
                i <= amounts@.len(),
                amounts@.len() == module_keys@.len(),
                self.holds(start, self.holdings()),
                start == *old(self),
                add_multiple_outcome(start.holdings(), start.balances.min_balance(), start.subnets@, key, module_keys@, amounts@)
                    == add_stake_steps(self.holdings(), start.balances.min_balance(), start.subnets@, key, module_keys@, amounts@, i as int),
                saved_ledger.model() == start.ledger.model(),
                saved_ledger.wf(),
                saved_balances.free_map() == start.balances.free_map(),
                saved_balances.min_balance() == start.balances.min_balance(),
            decreases amounts@.len() - i,
        {
            let ghost cur = *self;
            let res = self.stake_from_balance(key, module_keys[i], amounts[i]);
            match res {
                Ok(()) => {},
                Err(e) => {
                    proof {
                        assert(cur.holdings() == self.holdings());
                        assert(add_stake_steps(cur.holdings(), start.balances.min_balance(), start.subnets@, key,
                            module_keys@, amounts@, i as int) == Err::<Holdings, Error>(e));
                    }
                    self.ledger = saved_ledger;
                    self.balances = saved_balances;
                    return Err(e);
                },
            }
            proof {
                assert(cur.holds(start, cur.holdings()));
            }
            i = i + 1;
        }
        self.deposit_stake_events(key, &module_keys, &amounts, true);
        Ok(())
    }

    /// Unstakes `amounts[i]` that `key` staked on `module_keys[i]`, in order;
    /// all or nothing.
    pub fn do_remove_stake_multiple(&mut self, key: u64, module_keys: Vec<u64>, amounts: Vec<u64>) -> (r: Result<(), Error>)
        requires
            old(self).wf(),
        ensures
            final(self).wf(),
            match remove_multiple_outcome(old(self).holdings(), old(self).subnets@, key, module_keys@, amounts@) {
                Ok(h) => r is Ok && (Subspace { events: old(self).events, ..*final(self) }).holds(*old(self), h)
                    && final(self).events@ == old(self).events@ + stake_events(key, module_keys@, amounts@, false),
                Err(e) => r == Err::<(), Error>(e) && final(self).holds(*old(self), old(self).holdings()),
            },
    {
        if amounts.len() != module_keys.len() {
            return Err(Error::DifferentLengths);
        }
        if amounts.len() == 0 {
            return Err(Error::EmptyKeys);
        }
        if amounts.len() > MAX_STAKE_KEYS {
            return Err(Error::TooManyKeys);
        }
        let saved_ledger = self.ledger.copy();
        let saved_balances = self.balances.copy();
        let ghost start = *self;
        let mut i: usize = 0;
        while i < amounts.len()
            invariant
                self.wf(),
                i <= amounts@.len(),
                amounts@.len() == module_keys@.len(),
                self.holds(start, self.holdings()),
                start == *old(self),
                remove_multiple_outcome(start.holdings(), start.subnets@, key, module_keys@, amounts@)
                    == remove_stake_steps(self.holdings(), start.subnets@, key, module_keys@, amounts@, i as int),
                saved_ledger.model() == start.ledger.model(),
                saved_ledger.wf(),
                saved_balances.free_map() == start.balances.free_map(),
                saved_balances.min_balance() == start.balances.min_balance(),
            decreases amounts@.len() - i,
        {
            let ghost cur = *self;
            if !self.ledger.has_enough_stake(key, module_keys[i], amounts[i]) {
                proof {
                    assert(remove_stake_steps(cur.holdings(), start.subnets@, key, module_keys@, amounts@, i as int)
                        == Err::<Holdings, Error>(Error::NotEnoughStaketoWithdraw));
                }
                self.ledger = saved_ledger;
                self.balances = saved_balances;
                return Err(Error::NotEnoughStaketoWithdraw);
            }
            let res = self.unstake_to_balance(key, module_keys[i], amounts[i]);
            match res {
                Ok(()) => {},
                Err(e) => {
                    proof {
                        assert(cur.holdings() == self.holdings());
                        assert(remove_stake_steps(cur.holdings(), start.subnets@, key, module_keys@, amounts@, i as int)
                            == Err::<Holdings, Error>(e));
                    }
                    self.ledger = saved_ledger;
                    self.balances = saved_balances;
                    return Err(e);
                },
            }
            proof {
                assert(cur.holds(start, cur.holdings()));
            }
            i = i + 1;
        }
        self.deposit_stake_events(key, &module_keys, &amounts, false);
        Ok(())
    }

    /// Pays `amounts[i]` from `key` to `destinations[i]`, in order; all or
    /// nothing. A payment that would leave `key` under its minimum balance is
    /// skipped.
    pub fn do_transfer_multiple(&mut self, key: u64, destinations: Vec<u64>, amounts: Vec<u64>) -> (r: Result<(), Error>)
        requires
            old(self).wf(),
            amounts@.len() == destinations@.len() ==> amount_sum(amounts@) <= u64::MAX,
        ensures
            final(self).wf(),
            match transfer_multiple_outcome(old(self).balances.free_map(), old(self).balances.min_balance(), key,
                destinations@, amounts@) {
                Ok(b) => r is Ok && final(self).holds(*old(self), Holdings { stake: old(self).ledger.model(), balances: b }),
                Err(e) => r == Err::<(), Error>(e) && final(self).holds(*old(self), old(self).holdings()),
            },
    {
        if amounts.len() != destinations.len() {
            return Err(Error::DifferentLengths);
        }
        let total_amount = sum_amounts(&amounts);
        if !self.balances.has_enough_balance(key, total_amount) {
            return Err(Error::NotEnoughBalanceToTransfer);
        }
        let saved_balances = self.balances.copy();
        let ghost start = *self;
        let ghost min = start.balances.min_balance();
        let mut i: usize = 0;
        while i < amounts.len()
            invariant
                self.wf(),
                i <= amounts@.len(),
                amounts@.len() == destinations@.len(),
                self.holds(start, Holdings { stake: start.ledger.model(), balances: self.balances.free_map() }),
                start == *old(self),
                min == start.balances.min_balance(),
                transfer_multiple_outcome(start.balances.free_map(), min, key, destinations@, amounts@)
                    == transfer_steps(self.balances.free_map(), min, key, destinations@, amounts@, i as int),
                saved_balances.free_map() == start.balances.free_map(),
                saved_balances.min_balance() == start.balances.min_balance(),
            decreases amounts@.len() - i,
        {
            if !self.balances.has_enough_balance(key, amounts[i]) {
                self.balances = saved_balances;
                return Err(Error::NotEnoughBalanceToTransfer);
            }
            let ghost cur = self.balances.free_map();
            let _ = self.balances.transfer_balance_to_account(key, destinations[i], amounts[i]);
            proof {
                assert(self.balances.free_map() =~= transferred(cur, min, key, destinations@[i as int], amounts@[i as int]));
            }
            i = i + 1;
        }
        Ok(())
    }
}

/// The holdings after every staker in `from[k..]` gets its stake on `module`
/// back to its free balance.
pub open spec fn unstake_all(h: Holdings, module: u64, from: Seq<(u64, u64)>, k: int) -> Holdings
    decreases from.len() - k,
{
    if k < 0 || k >= from.len() {
        h
    } else {
        let (staker, amount) = from[k];
        unstake_all(
            Holdings { stake: stake_removed(h.stake, staker, module, amount), balances: credited(h.balances, staker, amount) },
            module, from, k + 1)
    }
}

/// The holdings after every stake on `module` is returned to its staker and
/// the module's stake counter is dropped.
pub open spec fn unstaked_module(h: Holdings, module: u64) -> Holdings {
    let h1 = unstake_all(h, module, stake_from_seq(sorted_entries(h.stake.stakes), module), 0);
    Holdings { stake: StakeModel { module_stakes: h1.stake.module_stakes.remove(module), ..h1.stake }, ..h1 }
}

/// The stake-delegation fee `fees` set for `key` (the default when none),
/// raised to `floor`.
pub open spec fn delegation_fee_of(fees: Map<u64, ModuleFees>, key: u64, floor: Percent) -> Percent {
    let fee = if fees.contains_key(key) { fees[key].stake_delegation_fee.parts } else { STAKE_DELEGATION_DEFAULT };
    Percent { parts: if fee < floor.parts { floor.parts } else { fee } }
}

impl Subspace {
    /// Returns every stake on `module_key` to its staker's free balance and
    /// drops the module's stake counter.
    pub fn remove_stake_from_storage(&mut self, module_key: u64)
        requires
            old(self).wf(),
        ensures
            final(self).wf(),
            final(self).holds(*old(self), unstaked_module(old(self).holdings(), module_key)),
    {
        proof {
            self.ledger.lemma_entries_canonical();
        }
        let stake_from = self.ledger.get_stake_from_vector(module_key);
        let ghost start = *self;
        let mut i: usize = 0;
        while i < stake_from.len()
            invariant
                self.wf(),
                i <= stake_from@.len(),
                stake_from@ == stake_from_seq(start.ledger.entry_seq(), module_key),
                self.holds(start, self.holdings()),
                unstake_all(start.holdings(), module_key, stake_from@, 0)
                    == unstake_all(self.holdings(), module_key, stake_from@, i as int),
            decreases stake_from@.len() - i,
        {
            let (staker, amount) = stake_from[i];
            let ghost cur = *self;
            self.ledger.decrease_stake(staker, module_key, amount);
            self.balances.add_balance_to_account(staker, amount);
            proof {
                assert(self.holdings() =~= Holdings {
                    stake: stake_removed(cur.holdings().stake, staker, module_key, amount),
                    balances: credited(cur.holdings().balances, staker, amount),
                });
            }
            i = i + 1;
        }
        let ghost before_drop = self.holdings();
        self.ledger.remove_module_stake(module_key);
        proof {
            assert(self.holdings() =~= Holdings {
                stake: StakeModel { module_stakes: before_drop.stake.module_stakes.remove(module_key), ..before_drop.stake },
                ..before_drop
            });
        }
    }

    /// The stake-delegation fee of `module_key`, never below the network floor.
    pub fn get_delegation_fee(&self, module_key: u64) -> (r: Percent)
        ensures
            r == delegation_fee_of(self.fees@, module_key, self.global.floor_stake_delegation_fee),
    {
        let fee = match self.fees.get(&module_key) {
            Some(f) => f.stake_delegation_fee.parts,
            None => STAKE_DELEGATION_DEFAULT,
        };
        let floor = self.global.floor_stake_delegation_fee.parts;
        Percent { parts: if fee < floor { floor } else { fee } }
    }
}

/// Staking an amount and then unstaking the same amount gives back the
/// balances and the stake that were there before, when no counter saturates
/// and the pair had no stake entry or a positive one.
pub proof fn stake_round_trip(h: Holdings, min: u64, subnets: Seq<SubnetState>, key: u64, module: u64, amount: u64)
    requires
        add_stake_step(h, min, subnets, key, module, amount) is Ok,
        get_or_zero(h.stake.stakes, (key, module)) + amount <= u64::MAX,
        get_or_zero(h.stake.module_stakes, module) + amount <= u64::MAX,
        h.stake.total + amount <= u64::MAX,
        h.stake.stakes.contains_key((key, module)) ==> h.stake.stakes[(key, module)] > 0,
    ensures
        ({
            let h1 = add_stake_step(h, min, subnets, key, module, amount)->Ok_0;
            &&& remove_stake_step(h1, subnets, key, module, amount) is Ok
            &&& {
                let h2 = remove_stake_step(h1, subnets, key, module, amount)->Ok_0;
                &&& h2.balances == h.balances
                &&& h2.stake.stakes == h.stake.stakes
                &&& h2.stake.total == h.stake.total
                &&& forall|m: u64| get_or_zero(#[trigger] h2.stake.module_stakes, m) == get_or_zero(h.stake.module_stakes, m)
            }
        }),
{
    let h1 = add_stake_step(h, min, subnets, key, module, amount)->Ok_0;
    let h2 = remove_stake_step(h1, subnets, key, module, amount)->Ok_0;
    assert(h2.balances =~= h.balances);
    assert(h2.stake.stakes =~= h.stake.stakes);
}

/// A successful stake moves the amount from the free balance of the staker to
/// its stake on the module, when neither counter saturates.
pub proof fn stake_conserves_tokens(h: Holdings, min: u64, subnets: Seq<SubnetState>, key: u64, module: u64, amount: u64)
    requires
        add_stake_step(h, min, subnets, key, module, amount) is Ok,
        get_or_zero(h.stake.stakes, (key, module)) + amount <= u64::MAX,
    ensures
        ({
            let h1 = add_stake_step(h, min, subnets, key, module, amount)->Ok_0;
            get_or_zero(h1.balances, key) + get_or_zero(h1.stake.stakes, (key, module))
                == get_or_zero(h.balances, key) + get_or_zero(h.stake.stakes, (key, module))
        }),
{
}

/// Moving stake from one module to another leaves the free balance of the
/// staker and the total stake as they were, and moves the amount from the
/// first stake to the second, when no counter saturates.
pub proof fn transfer_moves_stake(h: Holdings, min: u64, subnets: Seq<SubnetState>, key: u64, module: u64,
    new_module: u64, amount: u64)
    requires
        transfer_stake_step(h, min, subnets, key, module, new_module, amount) is Ok,
        module != new_module,
        get_or_zero(h.balances, key) + amount <= u64::MAX,
        get_or_zero(h.stake.stakes, (key, new_module)) + amount <= u64::MAX,
        amount <= h.stake.total,
    ensures
        ({
            let h1 = transfer_stake_step(h, min, subnets, key, module, new_module, amount)->Ok_0;
            &&& get_or_zero(h1.balances, key) == get_or_zero(h.balances, key)
            &&& get_or_zero(h1.stake.stakes, (key, module)) == get_or_zero(h.stake.stakes, (key, module)) - amount
            &&& get_or_zero(h1.stake.stakes, (key, new_module)) == get_or_zero(h.stake.stakes, (key, new_module)) + amount
            &&& h1.stake.total == h.stake.total
        }),
{
}

/// The events of staking (`added`) or unstaking each `amounts[i]` on
/// `modules[i]`, in order.
pub open spec fn stake_events(key: u64, modules: Seq<u64>, amounts: Seq<u64>, added: bool) -> Seq<Event> {
    Seq::new(amounts.len(), |i: int| if added {
        Event::StakeAdded(key, modules[i], amounts[i])
    } else {
        Event::StakeRemoved(key, modules[i], amounts[i])
    })
}

/// The outcome of staking many amounts at once.
pub open spec fn add_multiple_outcome(h: Holdings, min: u64, subnets: Seq<SubnetState>, key: u64, modules: Seq<u64>,
    amounts: Seq<u64>) -> Result<Holdings, Error>
{
    if amounts.len() != modules.len() {
        Err(Error::DifferentLengths)
    } else if amounts.len() == 0 {
        Err(Error::EmptyKeys)
    } else if amounts.len() > MAX_STAKE_KEYS {
        Err(Error::TooManyKeys)
    } else if !(amount_sum(amounts) != 0 && get_or_zero(h.balances, key) >= amount_sum(amounts)) {
        Err(Error::NotEnoughStaketoWithdraw)
    } else {
        add_stake_steps(h, min, subnets, key, modules, amounts, 0)
    }
}

/// The outcome of unstaking many amounts at once.
pub open spec fn remove_multiple_outcome(h: Holdings, subnets: Seq<SubnetState>, key: u64, modules: Seq<u64>,
    amounts: Seq<u64>) -> Result<Holdings, Error>
{
    if amounts.len() != modules.len() {
        Err(Error::DifferentLengths)
    } else if amounts.len() == 0 {
        Err(Error::EmptyKeys)
    } else if amounts.len() > MAX_STAKE_KEYS {
        Err(Error::TooManyKeys)
    } else {
        remove_stake_steps(h, subnets, key, modules, amounts, 0)
    }
}

/// The outcome of many payments at once.
pub open spec fn transfer_multiple_outcome(b: Map<u64, u64>, min: u64, key: u64, destinations: Seq<u64>,
    amounts: Seq<u64>) -> Result<Map<u64, u64>, Error>
{
    if amounts.len() != destinations.len() {
        Err(Error::DifferentLengths)
    } else if !(amount_sum(amounts) != 0 && get_or_zero(b, key) >= amount_sum(amounts)) {
        Err(Error::NotEnoughBalanceToTransfer)
    } else {
        transfer_steps(b, min, key, destinations, amounts, 0)
    }
}

} // verus!
