//! The stake ledger: how much each staker has staked on each module, kept as
//! a list of entries sorted by module and then by staker, with no key twice.
use vstd::prelude::*;
use std::collections::HashMap;

verus! {

broadcast use vstd::std_specs::hash::group_hash_axioms;

/// The stake of one staker on one module.
#[derive(Clone, Copy, Debug, PartialEq, Eq, Structural)]
pub struct StakeEntry {
    pub staker: u64,
    pub module: u64,
    pub amount: u64,
}

/// Whether entry `a` sorts strictly before entry `b` (by module, then staker).
pub open spec fn key_before(a: StakeEntry, b: StakeEntry) -> bool {
    a.module < b.module || (a.module == b.module && a.staker < b.staker)
}

/// Whether entries are sorted strictly by key, so that no key occurs twice.
pub open spec fn entries_sorted(s: Seq<StakeEntry>) -> bool {
    forall|i: int, j: int| 0 <= i < j < s.len() ==> key_before(#[trigger] s[i], #[trigger] s[j])
}

/// Whether entry `i` holds the key `(staker, module)`.
pub open spec fn entry_has_key(s: Seq<StakeEntry>, i: int, staker: u64, module: u64) -> bool {
    s[i].staker == staker && s[i].module == module
}

/// Whether some entry holds the key `(staker, module)`.
pub open spec fn has_key(s: Seq<StakeEntry>, staker: u64, module: u64) -> bool {
    exists|i: int| 0 <= i < s.len() && #[trigger] entry_has_key(s, i, staker, module)
}

/// The entries as a map from `(staker, module)` to the amount staked.
pub open spec fn stake_view(s: Seq<StakeEntry>) -> Map<(u64, u64), u64> {
    Map::new(
        |k: (u64, u64)| has_key(s, k.0, k.1),
        |k: (u64, u64)| s[choose|i: int| 0 <= i < s.len() && #[trigger] entry_has_key(s, i, k.0, k.1)].amount,
    )
}

/// Two entries with the same key are the same entry.
proof fn lemma_key_unique(s: Seq<StakeEntry>, i: int, j: int)
    requires
        entries_sorted(s),
        0 <= i < s.len(),
        0 <= j < s.len(),
        s[i].staker == s[j].staker,
        s[i].module == s[j].module,
    ensures
        i == j,
{
    if i < j {
        assert(key_before(s[i], s[j]));
    } else if j < i {
        assert(key_before(s[j], s[i]));
    }
}

/// The amount mapped to the key of entry `i` is the amount of entry `i`.
proof fn lemma_view_at(s: Seq<StakeEntry>, i: int)
    requires
        entries_sorted(s),
        0 <= i < s.len(),
    ensures
        stake_view(s).contains_key((s[i].staker, s[i].module)),
        stake_view(s)[(s[i].staker, s[i].module)] == s[i].amount,
{
    assert(entry_has_key(s, i, s[i].staker, s[i].module));
    let j = choose|j: int| 0 <= j < s.len() && #[trigger] entry_has_key(s, j, s[i].staker, s[i].module);
    lemma_key_unique(s, i, j);
}

/// Replacing the amount of entry `i` updates the map at its key.
proof fn lemma_view_set(s: Seq<StakeEntry>, i: int, amount: u64)
    requires
        entries_sorted(s),
        0 <= i < s.len(),
    ensures
        entries_sorted(s.update(i, StakeEntry { amount, ..s[i] })),
        stake_view(s.update(i, StakeEntry { amount, ..s[i] })) == stake_view(s).insert((s[i].staker, s[i].module), amount),
{
    let t = s.update(i, StakeEntry { amount, ..s[i] });
    assert forall|a: int, b: int| 0 <= a < b < t.len() implies key_before(#[trigger] t[a], #[trigger] t[b]) by {
        assert(key_before(s[a], s[b]));
    }
    let k0 = (s[i].staker, s[i].module);
    assert forall|k: (u64, u64)| #[trigger] stake_view(t).contains_key(k) == stake_view(s).insert(k0, amount).contains_key(k) by {
        if has_key(t, k.0, k.1) {
            let j = choose|j: int| 0 <= j < t.len() && #[trigger] entry_has_key(t, j, k.0, k.1);
            assert(entry_has_key(s, j, k.0, k.1));
        }
        if has_key(s, k.0, k.1) {
            let j = choose|j: int| 0 <= j < s.len() && #[trigger] entry_has_key(s, j, k.0, k.1);
            assert(entry_has_key(t, j, k.0, k.1));
        }
        if k == k0 {
            assert(entry_has_key(t, i, k.0, k.1));
        }
    }
    assert forall|k: (u64, u64)| stake_view(t).contains_key(k) implies #[trigger] stake_view(t)[k] == stake_view(s).insert(k0, amount)[k] by {
        let j = choose|j: int| 0 <= j < t.len() && #[trigger] entry_has_key(t, j, k.0, k.1);
        lemma_view_at(t, j);
        if j != i {
            lemma_view_at(s, j);
        }
    }
    assert(stake_view(t) =~= stake_view(s).insert(k0, amount));
}

/// Inserting an entry at its sorted position adds its key to the map.
proof fn lemma_view_insert(s: Seq<StakeEntry>, pos: int, e: StakeEntry)
    requires
        entries_sorted(s),
        0 <= pos <= s.len(),
        forall|a: int| 0 <= a < pos ==> key_before(#[trigger] s[a], e),
        forall|a: int| pos <= a < s.len() ==> key_before(e, #[trigger] s[a]),
    ensures
        entries_sorted(s.insert(pos, e)),
        stake_view(s.insert(pos, e)) == stake_view(s).insert((e.staker, e.module), e.amount),
        !stake_view(s).contains_key((e.staker, e.module)),
{
    let t = s.insert(pos, e);
    assert forall|a: int, b: int| 0 <= a < b < t.len() implies key_before(#[trigger] t[a], #[trigger] t[b]) by {
        if b < pos {
            assert(key_before(s[a], s[b]));
        } else if b == pos {
        } else if a < pos {
            assert(key_before(s[a], e));
            assert(key_before(e, s[b - 1]));
        } else if a == pos {
        } else {
            assert(key_before(s[a - 1], s[b - 1]));
        }
    }
    let k0 = (e.staker, e.module);
    if has_key(s, k0.0, k0.1) {
        let j = choose|j: int| 0 <= j < s.len() && #[trigger] entry_has_key(s, j, k0.0, k0.1);
        if j < pos {
            assert(key_before(s[j], e));
        } else {
            assert(key_before(e, s[j]));
        }
    }
    assert forall|k: (u64, u64)| #[trigger] stake_view(t).contains_key(k) == stake_view(s).insert(k0, e.amount).contains_key(k) by {
        if has_key(t, k.0, k.1) {
            let j = choose|j: int| 0 <= j < t.len() && #[trigger] entry_has_key(t, j, k.0, k.1);
            if j < pos {
                assert(entry_has_key(s, j, k.0, k.1));
            } else if j > pos {
                assert(entry_has_key(s, j - 1, k.0, k.1));
            }
        }
        if has_key(s, k.0, k.1) {
            let j = choose|j: int| 0 <= j < s.len() && #[trigger] entry_has_key(s, j, k.0, k.1);
            if j < pos {
                assert(entry_has_key(t, j, k.0, k.1));
            } else {
                assert(entry_has_key(t, j + 1, k.0, k.1));
            }
        }
        if k == k0 {
            assert(entry_has_key(t, pos, k.0, k.1));
        }
    }
    assert forall|k: (u64, u64)| stake_view(t).contains_key(k) implies #[trigger] stake_view(t)[k] == stake_view(s).insert(k0, e.amount)[k] by {
        let j = choose|j: int| 0 <= j < t.len() && #[trigger] entry_has_key(t, j, k.0, k.1);
        lemma_view_at(t, j);
        if j < pos {
            lemma_view_at(s, j);
        } else if j > pos {
            lemma_view_at(s, j - 1);
        }
    }
    assert(stake_view(t) =~= stake_view(s).insert(k0, e.amount));
}

/// Removing entry `i` removes its key from the map.
proof fn lemma_view_remove(s: Seq<StakeEntry>, i: int)
    requires
        entries_sorted(s),
        0 <= i < s.len(),
    ensures
        entries_sorted(s.remove(i)),
        stake_view(s.remove(i)) == stake_view(s).remove((s[i].staker, s[i].module)),
{
    let t = s.remove(i);
    assert forall|a: int, b: int| 0 <= a < b < t.len() implies key_before(#[trigger] t[a], #[trigger] t[b]) by {
        if b < i {
            assert(key_before(s[a], s[b]));
        } else if a < i {
            assert(key_before(s[a], s[b + 1]));
        } else {
            assert(key_before(s[a + 1], s[b + 1]));
        }
    }
    let k0 = (s[i].staker, s[i].module);
    assert forall|k: (u64, u64)| #[trigger] stake_view(t).contains_key(k) == stake_view(s).remove(k0).contains_key(k) by {
        if has_key(t, k.0, k.1) {
            let j = choose|j: int| 0 <= j < t.len() && #[trigger] entry_has_key(t, j, k.0, k.1);
            if j < i {
                assert(entry_has_key(s, j, k.0, k.1));
                if k == k0 {
                    lemma_key_unique(s, j, i);
                }
            } else {
                assert(entry_has_key(s, j + 1, k.0, k.1));
                if k == k0 {
                    lemma_key_unique(s, j + 1, i);
                }
            }
        }
        if has_key(s, k.0, k.1) && k != k0 {
            let j = choose|j: int| 0 <= j < s.len() && #[trigger] entry_has_key(s, j, k.0, k.1);
            if j < i {
                assert(entry_has_key(t, j, k.0, k.1));
            } else {
                assert(j != i);
                assert(entry_has_key(t, j - 1, k.0, k.1));
            }
        }
    }
    assert forall|k: (u64, u64)| stake_view(t).contains_key(k) implies #[trigger] stake_view(t)[k] == stake_view(s).remove(k0)[k] by {
        let j = choose|j: int| 0 <= j < t.len() && #[trigger] entry_has_key(t, j, k.0, k.1);
        lemma_view_at(t, j);
        if j < i {
            lemma_view_at(s, j);
        } else {
            lemma_view_at(s, j + 1);
        }
    }
    assert(stake_view(t) =~= stake_view(s).remove(k0));
}

/// Two sorted entry lists that hold the same stakes are the same list.
proof fn lemma_sorted_unique(s: Seq<StakeEntry>, t: Seq<StakeEntry>)
    requires
        entries_sorted(s),
        entries_sorted(t),
        stake_view(s) == stake_view(t),
    ensures
        s == t,
    decreases s.len(),
{
    if s.len() == 0 || t.len() == 0 {
        if t.len() > 0 {
            lemma_view_at(t, 0);
            assert(has_key(s, t[0].staker, t[0].module));
            let j = choose|j: int| 0 <= j < s.len() && #[trigger] entry_has_key(s, j, t[0].staker, t[0].module);
        }
        if s.len() > 0 {
            lemma_view_at(s, 0);
            assert(has_key(t, s[0].staker, s[0].module));
            let j = choose|j: int| 0 <= j < t.len() && #[trigger] entry_has_key(t, j, s[0].staker, s[0].module);
        }
        assert(s =~= t);
    } else {
        let ls = s.len() - 1;
        let lt = t.len() - 1;
        let a = s[ls];
        let b = t[lt];
        lemma_view_at(s, ls);
        lemma_view_at(t, lt);
        assert(has_key(s, b.staker, b.module));
        let j = choose|j: int| 0 <= j < s.len() && #[trigger] entry_has_key(s, j, b.staker, b.module);
        assert(has_key(t, a.staker, a.module));
        let k = choose|k: int| 0 <= k < t.len() && #[trigger] entry_has_key(t, k, a.staker, a.module);
        if j < ls {
            assert(key_before(s[j], a));
            if k < lt {
                assert(key_before(t[k], b));
            }
        }
        assert(a.staker == b.staker && a.module == b.module);
        assert(a == b);
        lemma_view_remove(s, ls);
        lemma_view_remove(t, lt);
        assert(s.remove(ls) =~= s.drop_last());
        assert(t.remove(lt) =~= t.drop_last());
        lemma_sorted_unique(s.drop_last(), t.drop_last());
        assert(s =~= t.drop_last().push(b));
        assert(t =~= t.drop_last().push(b));
    }
}

/// The sorted entry list that holds `stakes`.
pub open spec fn sorted_entries(stakes: Map<(u64, u64), u64>) -> Seq<StakeEntry> {
    choose|s: Seq<StakeEntry>| entries_sorted(s) && stake_view(s) == stakes
}

/// The stake storage: entries kept sorted by key, the stake counter of each
/// module and the total stake.
pub struct StakeLedger {
    entries: Vec<StakeEntry>,
    module_totals: HashMap<u64, u64>,
    total_stake: u64,
}

/// What the stake storage holds: the stake of each `(staker, module)` pair,
/// the stake counter of each module and the total stake.
#[verifier::ext_equal]
pub struct StakeModel {
    pub stakes: Map<(u64, u64), u64>,
    pub module_stakes: Map<u64, u64>,
    pub total: u64,
}

/// The value of `k` in `m`, zero when `m` has none.
pub open spec fn get_or_zero<K>(m: Map<K, u64>, k: K) -> u64 {
    if m.contains_key(k) { m[k] } else { 0 }
}

/// The stake storage after `amount` more is staked by `staker` on `module`
/// (each counter saturating).
pub open spec fn stake_added(m: StakeModel, staker: u64, module: u64, amount: u64) -> StakeModel {
    StakeModel {
        stakes: m.stakes.insert((staker, module), sat_add(get_or_zero(m.stakes, (staker, module)), amount)),
        module_stakes: m.module_stakes.insert(module, sat_add(get_or_zero(m.module_stakes, module), amount)),
        total: sat_add(m.total, amount),
    }
}

/// The stake storage after `amount` of the stake of `staker` on `module` is
/// taken off (each counter saturating at zero); a pair left with nothing is
/// dropped.
pub open spec fn stake_removed(m: StakeModel, staker: u64, module: u64, amount: u64) -> StakeModel {
    let k = (staker, module);
    StakeModel {
        stakes: if !m.stakes.contains_key(k) {
            m.stakes
        } else if m.stakes[k] <= amount {
            m.stakes.remove(k)
        } else {
            m.stakes.insert(k, (m.stakes[k] - amount) as u64)
        },
        module_stakes: m.module_stakes.insert(module, sat_sub(get_or_zero(m.module_stakes, module), amount)),
        total: sat_sub(m.total, amount),
    }
}

/// `a + b`, saturating at `u64::MAX`.
pub open spec fn sat_add(a: u64, b: u64) -> u64 {
    (if a + b > u64::MAX { u64::MAX as int } else { a + b }) as u64
}

/// `a - b`, saturating at zero.
pub open spec fn sat_sub(a: u64, b: u64) -> u64 {
    (if a < b { 0 } else { a - b }) as u64
}

impl StakeLedger {
    /// Whether the entries are sorted by key with no key twice.
    pub closed spec fn wf(&self) -> bool {
        entries_sorted(self.entries@)
    }

    /// The stake of each `(staker, module)` pair that has an entry.
    pub closed spec fn stakes(&self) -> Map<(u64, u64), u64> {
        stake_view(self.entries@)
    }

    /// The entries, sorted by module and then by staker.
    pub closed spec fn entry_seq(&self) -> Seq<StakeEntry> {
        self.entries@
    }

    /// The total stake counter.
    pub closed spec fn total(&self) -> u64 {
        self.total_stake
    }

    /// The stake counter of each module that has one.
    pub closed spec fn module_stakes(&self) -> Map<u64, u64> {
        self.module_totals@
    }

    /// The stake counter of `module`, zero when it has none.
    pub open spec fn module_stake_of(&self, module: u64) -> u64 {
        if self.module_stakes().contains_key(module) { self.module_stakes()[module] } else { 0 }
    }

    /// What the ledger holds.
    pub open spec fn model(&self) -> StakeModel {
        StakeModel { stakes: self.stakes(), module_stakes: self.module_stakes(), total: self.total() }
    }

    /// The stake of `staker` on `module`, zero when there is no entry.
    pub open spec fn stake_of(&self, staker: u64, module: u64) -> u64 {
        if self.stakes().contains_key((staker, module)) { self.stakes()[(staker, module)] } else { 0 }
    }

    /// The entries are the sorted list that holds the stakes.
    pub proof fn lemma_entries_canonical(&self)
        requires
            self.wf(),
        ensures
            self.entry_seq() == sorted_entries(self.stakes()),
    {
        let s = sorted_entries(self.stakes());
        assert(entries_sorted(self.entries@) && stake_view(self.entries@) == self.stakes());
        lemma_sorted_unique(self.entries@, s);
    }

    /// The stakers on a module come in strictly increasing order, so none
    /// appears twice.
    pub proof fn lemma_stakers_distinct(&self, module: u64)
        requires
            self.wf(),
        ensures
            forall|i: int, j: int| 0 <= i < j < stake_from_seq(sorted_entries(self.stakes()), module).len() ==>
                (#[trigger] stake_from_seq(sorted_entries(self.stakes()), module)[i]).0
                    < (#[trigger] stake_from_seq(sorted_entries(self.stakes()), module)[j]).0,
    {
        self.lemma_entries_canonical();
        lemma_stakers_increasing(self.entries@, module);
    }

    /// An empty ledger.
    pub fn new() -> (r: StakeLedger)
        ensures
            r.wf(),
            r.stakes() == Map::<(u64, u64), u64>::empty(),
            r.module_stakes() == Map::<u64, u64>::empty(),
            r.total() == 0,
    {
        let r = StakeLedger { entries: Vec::new(), module_totals: HashMap::new(), total_stake: 0 };
        assert(r.stakes() =~= Map::<(u64, u64), u64>::empty());
        r
    }

    /// The total stake counter.
    pub fn total_stake(&self) -> (r: u64)
        ensures
            r == self.total(),
    {
        self.total_stake
    }

    /// An identical ledger.
    pub fn copy(&self) -> (r: StakeLedger)
        ensures
            r.wf() == self.wf(),
            r.stakes() == self.stakes(),
            r.entry_seq() == self.entry_seq(),
            r.module_stakes() == self.module_stakes(),
            r.total() == self.total(),
    {
        StakeLedger { entries: self.entries.clone(), module_totals: self.module_totals.clone(), total_stake: self.total_stake }
    }

    /// The stake counter of `module` (zero when it has none).
    pub fn get_module_stake(&self, module: u64) -> (r: u64)
        ensures
            r == self.module_stake_of(module),
    {
        match self.module_totals.get(&module) {
            Some(v) => *v,
            None => 0,
        }
    }

    /// Drops the stake counter of `module`.
    pub fn remove_module_stake(&mut self, module: u64)
        ensures
            final(self).wf() == old(self).wf(),
            final(self).stakes() == old(self).stakes(),
            final(self).entry_seq() == old(self).entry_seq(),
            final(self).module_stakes() == old(self).module_stakes().remove(module),
            final(self).total() == old(self).total(),
    {
        self.module_totals.remove(&module);
    }

    /// The first position whose key is not before `(staker, module)`.
    fn lower_bound(&self, staker: u64, module: u64) -> (pos: usize)
        requires
            self.wf(),
        ensures
            pos <= self.entries@.len(),
            forall|a: int| 0 <= a < pos ==> key_before(#[trigger] self.entries@[a], StakeEntry { staker, module, amount: 0 }),
            forall|a: int| pos <= a < self.entries@.len() ==> !key_before(#[trigger] self.entries@[a], StakeEntry { staker, module, amount: 0 }),
    {
        let target = StakeEntry { staker, module, amount: 0 };
        let mut pos: usize = 0;
        while pos < self.entries.len()
            invariant
                target == (StakeEntry { staker, module, amount: 0 }),
                entries_sorted(self.entries@),
                pos <= self.entries@.len(),
                forall|a: int| 0 <= a < pos ==> key_before(#[trigger] self.entries@[a], target),
            decreases self.entries@.len() - pos,
        {
            let e = self.entries[pos];
            if !(e.module < module || (e.module == module && e.staker < staker)) {
                assert(e == self.entries@[pos as int]);
                assert(!key_before(e, target));
                assert forall|a: int| pos <= a < self.entries@.len() implies !key_before(#[trigger] self.entries@[a], target) by {
                    if a > pos {
                        assert(key_before(self.entries@[pos as int], self.entries@[a]));
                    }
                }
                return pos;
            }
            pos = pos + 1;
        }
        pos
    }

    /// The stake of `staker` on `module` (zero when there is none).
    pub fn get_stake_to_module(&self, staker: u64, module: u64) -> (r: u64)
        requires
            self.wf(),
        ensures
            r == self.stake_of(staker, module),
    {
        let pos = self.lower_bound(staker, module);
        if pos < self.entries.len() && self.entries[pos].staker == staker && self.entries[pos].module == module {
            proof {
                lemma_view_at(self.entries@, pos as int);
            }
            self.entries[pos].amount
        } else {
            proof {
                if has_key(self.entries@, staker, module) {
                    let j = choose|j: int| 0 <= j < self.entries@.len() && #[trigger] entry_has_key(self.entries@, j, staker, module);
                    if j < pos {
                    } else if j > pos {
                        assert(key_before(self.entries@[pos as int], self.entries@[j]));
                    }
                }
            }
            0
        }
    }

    /// Adds `amount` (saturating) to the stake of `staker` on `module`,
    /// creating the entry when there is none, and to the total stake.
    pub fn increase_stake(&mut self, staker: u64, module: u64, amount: u64)
        requires
            old(self).wf(),
        ensures
            final(self).wf(),
            final(self).stakes() == old(self).stakes().insert((staker, module),
                (if old(self).stake_of(staker, module) + amount > u64::MAX { u64::MAX as int } else { old(self).stake_of(staker, module) + amount }) as u64),
            final(self).total() == sat_add(old(self).total(), amount),
            final(self).module_stakes() == old(self).module_stakes().insert(module, sat_add(old(self).module_stake_of(module), amount)),
            final(self).model() == stake_added(old(self).model(), staker, module, amount),
    {
        let pos = self.lower_bound(staker, module);
        let cur = self.get_stake_to_module(staker, module);
        if pos < self.entries.len() && self.entries[pos].staker == staker && self.entries[pos].module == module {
            let e = self.entries[pos];
            proof {
                lemma_view_at(self.entries@, pos as int);
                lemma_view_set(self.entries@, pos as int, e.amount.saturating_add(amount));
            }
            self.entries.set(pos, StakeEntry { amount: e.amount.saturating_add(amount), ..e });
        } else {
            let e = StakeEntry { staker, module, amount };
            proof {
                assert forall|a: int| pos <= a < self.entries@.len() implies key_before(e, #[trigger] self.entries@[a]) by {
                    assert(!key_before(self.entries@[a], StakeEntry { staker, module, amount: 0 }));
                    if a == pos {
                    } else {
                        assert(key_before(self.entries@[pos as int], self.entries@[a]));
                    }
                }
                lemma_view_insert(self.entries@, pos as int, e);
            }
            self.entries.insert(pos, e);
        }
        let m = self.get_module_stake(module);
        self.module_totals.insert(module, m.saturating_add(amount));
        self.total_stake = self.total_stake.saturating_add(amount);
    }

    /// Takes `amount` (saturating) off the stake of `staker` on `module`,
    /// dropping the entry when nothing is left, and off the total stake.
    pub fn decrease_stake(&mut self, staker: u64, module: u64, amount: u64)
        requires
            old(self).wf(),
        ensures
            final(self).wf(),
            old(self).stakes().contains_key((staker, module)) ==> final(self).stakes() == (
                if old(self).stake_of(staker, module) <= amount {
                    old(self).stakes().remove((staker, module))
                } else {
                    old(self).stakes().insert((staker, module), (old(self).stake_of(staker, module) - amount) as u64)
                }),
            !old(self).stakes().contains_key((staker, module)) ==> final(self).stakes() == old(self).stakes(),
            final(self).total() == sat_sub(old(self).total(), amount),
            final(self).module_stakes() == old(self).module_stakes().insert(module, sat_sub(old(self).module_stake_of(module), amount)),
            final(self).model() == stake_removed(old(self).model(), staker, module, amount),
    {
        let pos = self.lower_bound(staker, module);
        let cur = self.get_stake_to_module(staker, module);
        if pos < self.entries.len() && self.entries[pos].staker == staker && self.entries[pos].module == module {
            let e = self.entries[pos];
            proof {
                lemma_view_at(self.entries@, pos as int);
            }
            let remaining = e.amount.saturating_sub(amount);
            if remaining == 0 {
                proof {
                    lemma_view_remove(self.entries@, pos as int);
                }
                self.entries.remove(pos);
            } else {
                proof {
                    lemma_view_set(self.entries@, pos as int, remaining);
                }
                self.entries.set(pos, StakeEntry { amount: remaining, ..e });
            }
        } else {
            proof {
                if has_key(self.entries@, staker, module) {
                    let j = choose|j: int| 0 <= j < self.entries@.len() && #[trigger] entry_has_key(self.entries@, j, staker, module);
                    if j < pos {
                    } else if j > pos {
                        assert(key_before(self.entries@[pos as int], self.entries@[j]));
                    }
                }
            }
        }
        let m = self.get_module_stake(module);
        self.module_totals.insert(module, m.saturating_sub(amount));
        self.total_stake = self.total_stake.saturating_sub(amount);
    }

    /// The stakers on `module` and their stake, ordered by staker.
    pub fn get_stake_from_vector(&self, module: u64) -> (r: Vec<(u64, u64)>)
        requires
            self.wf(),
        ensures
            r@ == stake_from_seq(self.entry_seq(), module),
    {
        let mut r: Vec<(u64, u64)> = Vec::new();
        let mut i: usize = 0;
        while i < self.entries.len()
            invariant
                i <= self.entries@.len(),
                r@ == stake_from_seq(self.entries@.take(i as int), module),
            decreases self.entries@.len() - i,
        {
            proof {
                assert(self.entries@.take(i + 1).drop_last() =~= self.entries@.take(i as int));
            }
            let e = self.entries[i];
            if e.module == module {
                r.push((e.staker, e.amount));
            }
            i = i + 1;
        }
        proof {
            assert(self.entries@.take(self.entries@.len() as int) =~= self.entries@);
        }
        r
    }

    /// The modules `staker` stakes on and the stake, ordered by module.
    pub fn get_stake_to_vector(&self, staker: u64) -> (r: Vec<(u64, u64)>)
        requires
            self.wf(),
        ensures
            r@ == stake_to_seq(self.entry_seq(), staker),
    {
        let mut r: Vec<(u64, u64)> = Vec::new();
        let mut i: usize = 0;
        while i < self.entries.len()
            invariant
                i <= self.entries@.len(),
                r@ == stake_to_seq(self.entries@.take(i as int), staker),
            decreases self.entries@.len() - i,
        {
            proof {
                assert(self.entries@.take(i + 1).drop_last() =~= self.entries@.take(i as int));
            }
            let e = self.entries[i];
            if e.staker == staker {
                r.push((e.module, e.amount));
            }
            i = i + 1;
        }
        proof {
            assert(self.entries@.take(self.entries@.len() as int) =~= self.entries@);
        }
        r
    }

    /// Whether `staker` has at least `amount`, which must be positive, staked on `module`.
    pub fn has_enough_stake(&self, staker: u64, module: u64, amount: u64) -> (r: bool)
        requires
            self.wf(),
        ensures
            r == (amount > 0 && self.stake_of(staker, module) >= amount),
    {
        amount > 0 && self.get_stake_to_module(staker, module) >= amount
    }
}

/// The stakers on `module` and their stake, in entry order.
pub open spec fn stake_from_seq(s: Seq<StakeEntry>, module: u64) -> Seq<(u64, u64)>
    decreases s.len(),
{
    if s.len() == 0 {
        Seq::empty()
    } else {
        let p = stake_from_seq(s.drop_last(), module);
        if s.last().module == module { p.push((s.last().staker, s.last().amount)) } else { p }
    }
}

/// Whether some entry on `module` is staked by `staker`.
pub open spec fn staker_has_entry(s: Seq<StakeEntry>, module: u64, staker: u64) -> bool {
    exists|k: int| 0 <= k < s.len() && #[trigger] s[k].module == module && s[k].staker == staker
}

/// Over sorted entries, the stakers on a module come in strictly increasing
/// order, each from an entry on that module.
pub proof fn lemma_stakers_increasing(s: Seq<StakeEntry>, module: u64)
    requires
        entries_sorted(s),
    ensures
        forall|i: int, j: int| 0 <= i < j < stake_from_seq(s, module).len() ==>
            (#[trigger] stake_from_seq(s, module)[i]).0 < (#[trigger] stake_from_seq(s, module)[j]).0,
        forall|i: int| 0 <= i < stake_from_seq(s, module).len() ==>
            staker_has_entry(s, module, (#[trigger] stake_from_seq(s, module)[i]).0),
    decreases s.len(),
{
    if s.len() > 0 {
        let p = s.drop_last();
        assert(entries_sorted(p)) by {
            assert forall|i: int, j: int| 0 <= i < j < p.len() implies key_before(#[trigger] p[i], #[trigger] p[j]) by {
                assert(p[i] == s[i] && p[j] == s[j]);
            }
        }
        lemma_stakers_increasing(p, module);
        let pf = stake_from_seq(p, module);
        let e = s.last();
        if e.module == module {
            let f = pf.push((e.staker, e.amount));
            assert(stake_from_seq(s, module) == f);
            assert forall|i: int| 0 <= i < f.len() implies staker_has_entry(s, module, (#[trigger] f[i]).0) by {
                if i < pf.len() {
                    assert(f[i] == pf[i]);
                    assert(staker_has_entry(p, module, pf[i].0));
                    let k = choose|k: int| 0 <= k < p.len() && #[trigger] p[k].module == module && p[k].staker == pf[i].0;
                    assert(s[k] == p[k]);
                } else {
                    assert(s[s.len() - 1] == e);
                }
            }
            assert forall|i: int, j: int| 0 <= i < j < f.len() implies (#[trigger] f[i]).0 < (#[trigger] f[j]).0 by {
                if j < pf.len() {
                    assert(f[i] == pf[i] && f[j] == pf[j]);
                } else {
                    assert(f[i] == pf[i]);
                    assert(staker_has_entry(p, module, pf[i].0));
                    let k = choose|k: int| 0 <= k < p.len() && #[trigger] p[k].module == module && p[k].staker == pf[i].0;
                    assert(key_before(s[k], s[s.len() - 1]));
                    assert(s[k] == p[k]);
                }
            }
        } else {
            assert(stake_from_seq(s, module) == pf);
            assert forall|i: int| 0 <= i < pf.len() implies staker_has_entry(s, module, (#[trigger] pf[i]).0) by {
                assert(staker_has_entry(p, module, pf[i].0));
                let k = choose|k: int| 0 <= k < p.len() && #[trigger] p[k].module == module && p[k].staker == pf[i].0;
                assert(s[k] == p[k]);
            }
        }
    }
}

/// A staker appears with an amount among the stakers on a module exactly when
/// the module appears with that amount among the modules the staker stakes on.
pub proof fn stake_to_from_agree(s: Seq<StakeEntry>, staker: u64, module: u64, amount: u64)
    ensures
        stake_from_seq(s, module).contains((staker, amount)) <==> stake_to_seq(s, staker).contains((module, amount)),
    decreases s.len(),
{
    if s.len() > 0 {
        stake_to_from_agree(s.drop_last(), staker, module, amount);
        let pf = stake_from_seq(s.drop_last(), module);
        let pt = stake_to_seq(s.drop_last(), staker);
        let e = s.last();
        if e.module == module {
            assert(stake_from_seq(s, module) == pf.push((e.staker, e.amount)));
            assert(pf.push((e.staker, e.amount)).contains((staker, amount)) <==> (pf.contains((staker, amount)) || (e.staker, e.amount) == (staker, amount))) by {
                if pf.push((e.staker, e.amount)).contains((staker, amount)) {
                    let i = choose|i: int| 0 <= i < pf.len() + 1 && pf.push((e.staker, e.amount))[i] == (staker, amount);
                    if i < pf.len() {
                        assert(pf[i] == (staker, amount));
                    }
                }
                if pf.contains((staker, amount)) {
                    let i = choose|i: int| 0 <= i < pf.len() && pf[i] == (staker, amount);
                    assert(pf.push((e.staker, e.amount))[i] == (staker, amount));
                }
                assert(pf.push((e.staker, e.amount))[pf.len() as int] == (e.staker, e.amount));
            }
        }
        if e.staker == staker {
            assert(stake_to_seq(s, staker) == pt.push((e.module, e.amount)));
            assert(pt.push((e.module, e.amount)).contains((module, amount)) <==> (pt.contains((module, amount)) || (e.module, e.amount) == (module, amount))) by {
                if pt.push((e.module, e.amount)).contains((module, amount)) {
                    let i = choose|i: int| 0 <= i < pt.len() + 1 && pt.push((e.module, e.amount))[i] == (module, amount);
                    if i < pt.len() {
                        assert(pt[i] == (module, amount));
                    }
                }
                if pt.contains((module, amount)) {
                    let i = choose|i: int| 0 <= i < pt.len() && pt[i] == (module, amount);
                    assert(pt.push((e.module, e.amount))[i] == (module, amount));
                }
                assert(pt.push((e.module, e.amount))[pt.len() as int] == (e.module, e.amount));
            }
        }
    }
}

/// The modules `staker` stakes on and the stake, in entry order.
pub open spec fn stake_to_seq(s: Seq<StakeEntry>, staker: u64) -> Seq<(u64, u64)>
    decreases s.len(),
{
    if s.len() == 0 {
        Seq::empty()
    } else {
        let p = stake_to_seq(s.drop_last(), staker);
        if s.last().staker == staker { p.push((s.last().module, s.last().amount)) } else { p }
    }
}

} // verus!
