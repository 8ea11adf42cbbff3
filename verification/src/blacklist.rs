//! Validator blacklists: the founder of a subnet may bar modules of the
//! subnet from validating.
use vstd::prelude::*;
use crate::errors::Error;
use crate::state::{subnet_pos, Subspace};
use std::collections::HashMap;

verus! {

broadcast use vstd::std_specs::hash::group_hash_axioms;

/// The founder of subnet `netuid`; the all-zero key when there is no such
/// subnet.
pub open spec fn founder_of(p: Subspace, netuid: u16) -> u64 {
    if subnet_pos(p.subnets@, netuid) >= 0 { p.subnets@[subnet_pos(p.subnets@, netuid)].params.founder } else { 0 }
}

/// The blacklisted modules of each subnet that has a blacklist.
pub struct ValidatorBlacklists {
    pub lists: HashMap<u16, Vec<u64>>,
}

/// Whether `v` holds `x`.
fn vec_has(v: &Vec<u64>, x: u64) -> (r: Option<usize>)
    ensures
        r is None <==> !v@.contains(x),
        r matches Some(i) ==> i < v@.len() && v@[i as int] == x,
{
    let mut i: usize = 0;
    while i < v.len()
        invariant
            i <= v@.len(),
            forall|k: int| 0 <= k < i ==> v@[k] != x,
        decreases v@.len() - i,
    {
        if v[i] == x {
            return Some(i);
        }
        i = i + 1;
    }
    None
}

impl ValidatorBlacklists {
    /// No list holds a key twice.
    pub open spec fn wf(&self) -> bool {
        forall|n: u16| #[trigger] self.lists@.contains_key(n) ==> self.lists@[n]@.no_duplicates()
    }

    /// The blacklist of each subnet, empty where there is none.
    pub open spec fn blacklist(&self, netuid: u16) -> Set<u64> {
        if self.lists@.contains_key(netuid) { self.lists@[netuid]@.to_set() } else { Set::empty() }
    }

    /// No blacklist.
    pub fn new() -> (r: ValidatorBlacklists)
        ensures
            r.wf(),
            forall|n: u16| #[trigger] r.blacklist(n) == Set::<u64>::empty(),
    {
        ValidatorBlacklists { lists: HashMap::new() }
    }

    /// Whether `module` is blacklisted on subnet `netuid`.
    pub fn is_blacklisted(&self, netuid: u16, module: u64) -> (r: bool)
        ensures
            r == self.blacklist(netuid).contains(module),
    {
        match self.lists.get(&netuid) {
            Some(v) => vec_has(v, module).is_some(),
            None => false,
        }
    }

    /// The founder `key` of subnet `netuid` blacklists its module `module`.
    pub fn do_add_blacklist(&mut self, pallet: &Subspace, key: u64, netuid: u16, module: u64) -> (r: Result<(), Error>)
        requires
            old(self).wf(),
            pallet.wf(),
        ensures
            final(self).wf(),
            key != founder_of(*pallet, netuid) ==> r == Err::<(), Error>(Error::NotFounder),
            key == founder_of(*pallet, netuid) && !pallet.spec_is_registered(Some(netuid), module)
                ==> r == Err::<(), Error>(Error::NotAModule),
            key == founder_of(*pallet, netuid) && pallet.spec_is_registered(Some(netuid), module)
                && old(self).blacklist(netuid).contains(module) ==> r == Err::<(), Error>(Error::AlreadyBlacklisted),
            r is Err ==> final(self).lists@ == old(self).lists@,
            r is Ok <==> key == founder_of(*pallet, netuid) && pallet.spec_is_registered(Some(netuid), module)
                && !old(self).blacklist(netuid).contains(module),
            r is Ok ==> forall|n: u16| #[trigger] final(self).blacklist(n)
                == if n == netuid { old(self).blacklist(n).insert(module) } else { old(self).blacklist(n) },
    {
        let founder = match pallet.subnet_index(netuid) {
            Some(i) => pallet.subnets[i].params.founder,
            None => 0,
        };
        if founder != key {
            return Err(Error::NotFounder);
        }
        if !pallet.is_registered(Some(netuid), module) {
            return Err(Error::NotAModule);
        }
        let mut list: Vec<u64> = match self.lists.get(&netuid) {
            Some(v) => crate::state::copy_keys(v),
            None => Vec::new(),
        };
        proof {
            if old(self).lists@.contains_key(netuid) {
                assert(list@ == old(self).lists@[netuid]@);
            }
        }
        if vec_has(&list, module).is_some() {
            return Err(Error::AlreadyBlacklisted);
        }
        let ghost before = list@;
        list.push(module);
        let ghost after = list@;
        self.lists.insert(netuid, list);
        proof {
            assert(after == before.push(module));
            assert forall|x: u64| #[trigger] after.to_set().contains(x) == before.to_set().insert(module).contains(x) by {
                if after.contains(x) {
                    let k = choose|k: int| 0 <= k < after.len() && after[k] == x;
                    if k < before.len() {
                        assert(before[k] == x);
                    }
                }
                if before.contains(x) {
                    let k = choose|k: int| 0 <= k < before.len() && before[k] == x;
                    assert(after[k] == x);
                }
                if x == module {
                    assert(after[before.len() as int] == x);
                }
            }
            assert(after.to_set() =~= before.to_set().insert(module));
            assert forall|n: u16| #[trigger] self.lists@.contains_key(n) implies self.lists@[n]@.no_duplicates() by {
                if n == netuid {
                    assert forall|a: int, b: int| 0 <= a < b < after.len() implies after[a] != after[b] by {
                        if b == before.len() {
                            assert(before.contains(before[a]));
                        }
                    }
                }
            }
        }
        Ok(())
    }

    /// The founder `key` of subnet `netuid` lifts the blacklisting of its
    /// module `module`.
    pub fn do_remove_blacklist(&mut self, pallet: &Subspace, key: u64, netuid: u16, module: u64) -> (r: Result<(), Error>)
        requires
            old(self).wf(),
            pallet.wf(),
        ensures
            final(self).wf(),
            key != founder_of(*pallet, netuid) ==> r == Err::<(), Error>(Error::NotFounder),
            key == founder_of(*pallet, netuid) && !pallet.spec_is_registered(Some(netuid), module)
                ==> r == Err::<(), Error>(Error::NotAModule),
            key == founder_of(*pallet, netuid) && pallet.spec_is_registered(Some(netuid), module)
                && !old(self).blacklist(netuid).contains(module) ==> r == Err::<(), Error>(Error::NotBlacklisted),
            r is Err ==> final(self).lists@ == old(self).lists@,
            r is Ok <==> key == founder_of(*pallet, netuid) && pallet.spec_is_registered(Some(netuid), module)
                && old(self).blacklist(netuid).contains(module),
            r is Ok ==> forall|n: u16| #[trigger] final(self).blacklist(n)
                == if n == netuid { old(self).blacklist(n).remove(module) } else { old(self).blacklist(n) },
    {
        let founder = match pallet.subnet_index(netuid) {
            Some(i) => pallet.subnets[i].params.founder,
            None => 0,
        };
        if founder != key {
            return Err(Error::NotFounder);
        }
        if !pallet.is_registered(Some(netuid), module) {
            return Err(Error::NotAModule);
        }
        let mut list: Vec<u64> = match self.lists.get(&netuid) {
            Some(v) => crate::state::copy_keys(v),
            None => Vec::new(),
        };
        proof {
            if old(self).lists@.contains_key(netuid) {
                assert(list@ == old(self).lists@[netuid]@);
            }
        }
        let idx = match vec_has(&list, module) {
            Some(i) => i,
            None => return Err(Error::NotBlacklisted),
        };
        let ghost before = list@;
        list.remove(idx);
        let ghost after = list@;
        self.lists.insert(netuid, list);
        proof {
            assert(after == before.remove(idx as int));
            assert forall|x: u64| #[trigger] after.to_set().contains(x) == before.to_set().remove(module).contains(x) by {
                if after.to_set().contains(x) {
                    let k = choose|k: int| 0 <= k < after.len() && after[k] == x;
                    let kk = if k < idx { k } else { k + 1 };
                    assert(before[kk] == x);
                    assert(kk != idx);
                }
                if before.to_set().remove(module).contains(x) {
                    let k = choose|k: int| 0 <= k < before.len() && before[k] == x;
                    assert(k != idx);
                    if k < idx {
                        assert(after[k] == x);
                    } else {
                        assert(after[k - 1] == x);
                    }
                }
            }
            assert(after.to_set() =~= before.to_set().remove(module));
            assert forall|n: u16| #[trigger] self.lists@.contains_key(n) implies self.lists@[n]@.no_duplicates() by {
                if n == netuid {
                    assert forall|a: int, b: int| 0 <= a < b < after.len() implies after[a] != after[b] by {
                        let aa = if a < idx { a } else { a + 1 };
                        let bb = if b < idx { b } else { b + 1 };
                        assert(after[a] == before[aa] && after[b] == before[bb]);
                    }
                }
            }
        }
        Ok(())
    }
}

/// Blacklisting a module and then lifting it again leaves every subnet's
/// blacklist as it was: `mid` is what a successful
/// [`ValidatorBlacklists::do_add_blacklist`] of `module` on `netuid` leaves
/// of `before`, and `after` what a successful
/// [`ValidatorBlacklists::do_remove_blacklist`] leaves of `mid`.
pub proof fn blacklist_round_trip(before: ValidatorBlacklists, mid: ValidatorBlacklists, after: ValidatorBlacklists,
    netuid: u16, module: u64)
    requires
        !before.blacklist(netuid).contains(module),
        forall|n: u16| #[trigger] mid.blacklist(n)
            == if n == netuid { before.blacklist(n).insert(module) } else { before.blacklist(n) },
        forall|n: u16| #[trigger] after.blacklist(n)
            == if n == netuid { mid.blacklist(n).remove(module) } else { mid.blacklist(n) },
    ensures
        forall|n: u16| #[trigger] after.blacklist(n) == before.blacklist(n),
{
    assert forall|n: u16| #[trigger] after.blacklist(n) == before.blacklist(n) by {
        if n == netuid {
            assert(mid.blacklist(n) == before.blacklist(n).insert(module));
            assert(after.blacklist(n) =~= before.blacklist(n));
        } else {
            assert(mid.blacklist(n) == before.blacklist(n));
        }
    }
}

} // verus!
