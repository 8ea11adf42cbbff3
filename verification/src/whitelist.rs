//! Clearing the root network of modules that are not whitelisted, a few at a
//! time and within the weight left in the block.
use vstd::prelude::*;
use crate::ledger::{sat_add, sat_sub};
use crate::modules::module_removal;
use crate::state::{subnet_pos, subnet_wf, Subspace};

verus! {

/// Execution weight: time and proof size.
#[derive(Clone, Copy, Debug, PartialEq, Eq, Structural)]
pub struct Weight {
    pub ref_time: u64,
    pub proof_size: u64,
}

/// `a + b`, each part saturating.
pub open spec fn w_add(a: Weight, b: Weight) -> Weight {
    Weight { ref_time: sat_add(a.ref_time, b.ref_time), proof_size: sat_add(a.proof_size, b.proof_size) }
}

/// `a - b`, each part saturating at zero.
pub open spec fn w_sub(a: Weight, b: Weight) -> Weight {
    Weight { ref_time: sat_sub(a.ref_time, b.ref_time), proof_size: sat_sub(a.proof_size, b.proof_size) }
}

/// Whether both parts of `a` are at least those of `b`.
pub open spec fn w_gte(a: Weight, b: Weight) -> bool {
    a.ref_time >= b.ref_time && a.proof_size >= b.proof_size
}

impl Weight {
    /// No weight.
    pub fn zero() -> (r: Weight)
        ensures
            r == (Weight { ref_time: 0, proof_size: 0 }),
    {
        Weight { ref_time: 0, proof_size: 0 }
    }

    /// `self + other`, each part saturating.
    pub fn saturating_add(self, other: Weight) -> (r: Weight)
        ensures
            r == w_add(self, other),
    {
        Weight {
            ref_time: self.ref_time.saturating_add(other.ref_time),
            proof_size: self.proof_size.saturating_add(other.proof_size),
        }
    }

    /// `self - other`, each part saturating at zero.
    pub fn saturating_sub(self, other: Weight) -> (r: Weight)
        ensures
            r == w_sub(self, other),
    {
        Weight {
            ref_time: self.ref_time.saturating_sub(other.ref_time),
            proof_size: self.proof_size.saturating_sub(other.proof_size),
        }
    }

    /// Whether both parts are at least those of `other`.
    pub fn all_gte(self, other: Weight) -> (r: bool)
        ensures
            r == w_gte(self, other),
    {
        self.ref_time >= other.ref_time && self.proof_size >= other.proof_size
    }
}

/// Most modules cleared in one block.
pub const MAX_MODULES: usize = 5;

/// Whether `k` is a module of the root network that is not whitelisted.
pub open spec fn is_candidate(p: Subspace, whitelisted: Seq<u64>, k: u64) -> bool {
    p.spec_is_registered(Some(0), k) && !whitelisted.contains(k)
}

/// Whether `c` is the smallest candidates, ascending, at most
/// [`MAX_MODULES`] of them.
pub open spec fn first_candidates(p: Subspace, whitelisted: Seq<u64>, c: Seq<u64>) -> bool {
    &&& c.len() <= MAX_MODULES
    &&& forall|i: int, j: int| 0 <= i < j < c.len() ==> #[trigger] c[i] < #[trigger] c[j]
    &&& forall|i: int| 0 <= i < c.len() ==> is_candidate(p, whitelisted, #[trigger] c[i])
    &&& forall|k: u64| #[trigger] is_candidate(p, whitelisted, k) && !c.contains(k)
        ==> c.len() == MAX_MODULES && k > c[c.len() - 1]
}

/// Whether `b` is `a` after the module of `key` on the root network, if it
/// still has one, is removed (the root network going too when left empty and
/// removable).
pub open spec fn clearing_step(a: Subspace, b: Subspace, key: u64, removable: Seq<u16>) -> bool {
    match a.uid_of(0, key) {
        Some(u) => module_removal(a, b, subnet_pos(a.subnets@, 0), u as int, 0, true, removable),
        None => b == a,
    }
}

/// The weight used and the weight left after the steps whose module was or
/// was not found as `found` says, starting from `used` and `left`.
pub open spec fn budget(used: Weight, left: Weight, find: Weight, deregister: Weight, found: Seq<bool>) -> (Weight, Weight)
    decreases found.len(),
{
    if found.len() == 0 {
        (used, left)
    } else {
        let (u, l) = budget(used, left, find, deregister, found.drop_last());
        let u2 = w_add(u, find);
        let l2 = w_sub(l, find);
        if found.last() { (w_add(u2, deregister), w_sub(l2, deregister)) } else { (u2, l2) }
    }
}

/// The keys of the root network, none when there is no root network.
pub open spec fn root_keys(p: Subspace) -> Seq<u64> {
    if subnet_pos(p.subnets@, 0) >= 0 { p.subnets@[subnet_pos(p.subnets@, 0)].keys@ } else { Seq::empty() }
}

/// Whether `v` holds `x`.
fn holds_key(v: &Vec<u64>, x: u64) -> (r: bool)
    ensures
        r == v@.contains(x),
{
    let mut i: usize = 0;
    while i < v.len()
        invariant
            i <= v@.len(),
            forall|k: int| 0 <= k < i ==> v@[k] != x,
        decreases v@.len() - i,
    {
        if v[i] == x {
            return true;
        }
        i = i + 1;
    }
    false
}

impl Subspace {
    /// The smallest candidates (see [`first_candidates`]).
    fn select_candidates(&self, whitelisted: &Vec<u64>) -> (c: Vec<u64>)
        requires
            self.wf(),
        ensures
            first_candidates(*self, whitelisted@, c@),
    {
        let keys: Vec<u64> = match self.subnet_index(0) {
            Some(i) => {
                proof {
                    assert(subnet_wf(self.subnets@[i as int]));
                }
                crate::state::copy_keys(&self.subnets[i].keys)
            },
            None => Vec::new(),
        };
        proof {
            crate::state::lemma_subnet_pos_pub(self.subnets@, 0);
            assert(keys@ == root_keys(*self));
            assert forall|k: u64| self.spec_is_registered(Some(0), k) == keys@.contains(k) by {}
        }
        let mut c: Vec<u64> = Vec::new();
        while c.len() < MAX_MODULES
            invariant
                keys@ == root_keys(*self),
                forall|k: u64| self.spec_is_registered(Some(0), k) == keys@.contains(k),
                c@.len() <= MAX_MODULES,
                forall|i: int, j: int| 0 <= i < j < c@.len() ==> #[trigger] c@[i] < #[trigger] c@[j],
                forall|i: int| 0 <= i < c@.len() ==> is_candidate(*self, whitelisted@, #[trigger] c@[i]),
                forall|k: u64| #[trigger] is_candidate(*self, whitelisted@, k) && !c@.contains(k)
                    ==> c@.len() > 0 ==> k > c@[c@.len() - 1],
            ensures
                first_candidates(*self, whitelisted@, c@),
            decreases MAX_MODULES - c@.len(),
        {
            let has_last = c.len() > 0;
            let last: u64 = if has_last { c[c.len() - 1] } else { 0 };
            let mut best: Option<u64> = None;
            let mut i: usize = 0;
            while i < keys.len()
                invariant
                    i <= keys@.len(),
                    has_last == (c@.len() > 0),
                    has_last ==> last == c@[c@.len() - 1],
                    forall|k: int| 0 <= k < i && !whitelisted@.contains(keys@[k]) && (!has_last || keys@[k] > last)
                        ==> (best matches Some(b) && b <= #[trigger] keys@[k]),
                    (best matches Some(b) ==> keys@.contains(b) && !whitelisted@.contains(b) && (!has_last || b > last)),
                decreases keys@.len() - i,
            {
                let k = keys[i];
                if !holds_key(whitelisted, k) && (!has_last || k > last) {
                    match best {
                        Some(b) => {
                            if k < b {
                                best = Some(k);
                            }
                        },
                        None => {
                            best = Some(k);
                        },
                    }
                }
                i = i + 1;
            }
            match best {
                Some(b) => {
                    let ghost before = c@;
                    c.push(b);
                    proof {
                        assert forall|k: u64| #[trigger] is_candidate(*self, whitelisted@, k) && !c@.contains(k)
                            implies c@.len() > 0 ==> k > c@[c@.len() - 1] by {
                            assert(keys@.contains(k));
                            let q = choose|q: int| 0 <= q < keys@.len() && keys@[q] == k;
                            assert(!before.contains(k)) by {
                                if before.contains(k) {
                                    let t = choose|t: int| 0 <= t < before.len() && before[t] == k;
                                    assert(c@[t] == k);
                                }
                            }
                            if before.len() > 0 {
                                assert(k > before[before.len() - 1]);
                            }
                            assert(keys@[q] == k);
                            assert(b <= k);
                            assert(k != b) by {
                                assert(c@[before.len() as int] == b);
                            }
                        }
                        assert forall|x: int, y: int| 0 <= x < y < c@.len() implies #[trigger] c@[x] < #[trigger] c@[y] by {
                            if y == before.len() {
                                if x < before.len() - 1 {
                                    assert(before[x] < before[before.len() - 1]);
                                }
                            } else {
                                assert(before[x] < before[y]);
                            }
                        }
                        assert forall|x: int| 0 <= x < c@.len() implies is_candidate(*self, whitelisted@, #[trigger] c@[x]) by {
                            if x < before.len() {
                                assert(c@[x] == before[x]);
                            }
                        }
                    }
                },
                None => {
                    proof {
                        assert forall|k: u64| #[trigger] is_candidate(*self, whitelisted@, k) && !c@.contains(k)
                            implies c@.len() == MAX_MODULES && k > c@[c@.len() - 1] by {
                            assert(keys@.contains(k));
                            let q = choose|q: int| 0 <= q < keys@.len() && keys@[q] == k;
                            assert(keys@[q] == k);
                            if c@.len() > 0 {
                                assert(k > c@[c@.len() - 1]);
                            }
                            assert(best is Some);
                        }
                    }
                    break;
                },
            }
        }
        c
    }

    /// Deregisters up to [`MAX_MODULES`] modules of the root network whose
    /// keys are not `whitelisted`, smallest keys first, while `remaining`
    /// covers the work: reading the root network's keys and the whitelist
    /// (`setup`), finding each module (`find`) and deregistering it
    /// (`deregister`). A key without a module any more costs only its
    /// search; the root network goes too when it is left empty and
    /// `removable` lists it. Returns the weight used; nothing is done, and
    /// no weight used, when `remaining` cannot cover the setup and one
    /// deregistration.
    pub fn deregister_not_whitelisted_modules(&mut self, remaining: Weight, whitelisted: &Vec<u64>, setup: Weight,
        find: Weight, deregister: Weight, removable: &Vec<u16>) -> (r: Weight)
        requires
            old(self).wf(),
        ensures
            final(self).wf(),
            !w_gte(remaining, w_add(w_add(setup, find), deregister)) ==> r == (Weight { ref_time: 0, proof_size: 0 })
                && *final(self) == *old(self),
            w_gte(remaining, w_add(w_add(setup, find), deregister)) ==> exists|c: Seq<u64>, states: Seq<Subspace>, found: Seq<bool>|
                #![trigger first_candidates(*old(self), whitelisted@, c), states.len(), found.len()] {
                &&& first_candidates(*old(self), whitelisted@, c)
                &&& found.len() <= c.len()
                &&& states.len() == found.len() + 1
                &&& states[0] == *old(self)
                &&& states.last() == *final(self)
                &&& forall|i: int| 0 <= i < found.len() ==> found[i] == (#[trigger] states[i].uid_of(0, c[i]) is Some)
                    && clearing_step(states[i], states[i + 1], c[i], removable@)
                &&& forall|i: int| 0 <= i < found.len() ==> w_gte(
                    #[trigger] budget(setup, w_sub(remaining, setup), find, deregister, found.take(i)).1, w_add(find, deregister))
                &&& found.len() == c.len() || !w_gte(budget(setup, w_sub(remaining, setup), find, deregister, found).1,
                    w_add(find, deregister))
                &&& r == budget(setup, w_sub(remaining, setup), find, deregister, found).0
            },
    {
        if !remaining.all_gte(setup.saturating_add(find).saturating_add(deregister)) {
            return Weight::zero();
        }
        let c = self.select_candidates(whitelisted);
        let mut weight = setup;
        let mut left = remaining.saturating_sub(setup);
        let ghost start = *self;
        let ghost mut states: Seq<Subspace> = seq![start];
        let ghost mut found: Seq<bool> = Seq::empty();
        let step = find.saturating_add(deregister);
        let mut i: usize = 0;
        while i < c.len()
            invariant
                i <= c@.len(),
                first_candidates(start, whitelisted@, c@),
                self.wf(),
                step == w_add(find, deregister),
                found.len() == i,
                states.len() == i + 1,
                states[0] == start,
                states[i as int] == *self,
                forall|t: int| 0 <= t < i ==> found[t] == (#[trigger] states[t].uid_of(0, c@[t]) is Some)
                    && clearing_step(states[t], states[t + 1], c@[t], removable@),
                forall|t: int| 0 <= t < i ==> w_gte(#[trigger] budget(setup, w_sub(remaining, setup), find, deregister,
                    found.take(t)).1, w_add(find, deregister)),
                (weight, left) == budget(setup, w_sub(remaining, setup), find, deregister, found),
            ensures
                first_candidates(start, whitelisted@, c@),
                self.wf(),
                found.len() <= c@.len(),
                states.len() == found.len() + 1,
                states[0] == start,
                states.last() == *self,
                forall|t: int| 0 <= t < found.len() ==> found[t] == (#[trigger] states[t].uid_of(0, c@[t]) is Some)
                    && clearing_step(states[t], states[t + 1], c@[t], removable@),
                forall|t: int| 0 <= t < found.len() ==> w_gte(#[trigger] budget(setup, w_sub(remaining, setup), find, deregister,
                    found.take(t)).1, w_add(find, deregister)),
                found.len() == c@.len() || !w_gte(budget(setup, w_sub(remaining, setup), find, deregister, found).1,
                    w_add(find, deregister)),
                (weight, left) == budget(setup, w_sub(remaining, setup), find, deregister, found),
            decreases c@.len() - i,
        {
            if !left.all_gte(step) {
                break;
            }
            proof {
                assert(found.take(i as int) =~= found);
            }
            let key = c[i];
            let uid = self.get_uid_for_key(0, key);
            weight = weight.saturating_add(find);
            left = left.saturating_sub(find);
            let ghost before = *self;
            let ghost f = uid is Some;
            match uid {
                Some(u) => {
                    let _ = self.remove_module(0, u, true, removable);
                    weight = weight.saturating_add(deregister);
                    left = left.saturating_sub(deregister);
                },
                None => {},
            }
            proof {
                let nf = found.push(f);
                assert(nf.drop_last() =~= found);
                assert forall|t: int| 0 <= t < i + 1 implies #[trigger] nf.take(t) == found.take(t) || t == i by {
                    if t < i {
                        assert(nf.take(t) =~= found.take(t));
                    }
                }
                assert forall|t: int| 0 <= t < i + 1 implies w_gte(#[trigger] budget(setup, w_sub(remaining, setup), find,
                    deregister, nf.take(t)).1, w_add(find, deregister)) by {
                    if t < i {
                        assert(nf.take(t) =~= found.take(t));
                    } else {
                        assert(nf.take(t) =~= found);
                    }
                }
                found = nf;
                states = states.push(*self);
            }
            i = i + 1;
        }
        weight
    }
}

} // verus!
