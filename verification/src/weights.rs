//! The benchmarked execution weight of the pallet's calls.
use vstd::prelude::*;
use crate::whitelist::{w_add, Weight};

verus! {

/// The weight of database access: the time of one read and of one write.
#[derive(Clone, Copy, Debug, PartialEq, Eq, Structural)]
pub struct DbWeight {
    pub read: u64,
    pub write: u64,
}

/// The weight of `n` reads: their time (saturating), no proof size.
pub open spec fn reads_weight(db: DbWeight, n: u64) -> Weight {
    Weight { ref_time: if db.read * n > u64::MAX { u64::MAX } else { (db.read * n) as u64 }, proof_size: 0 }
}

/// The weight of `n` writes: their time (saturating), no proof size.
pub open spec fn writes_weight(db: DbWeight, n: u64) -> Weight {
    Weight { ref_time: if db.write * n > u64::MAX { u64::MAX } else { (db.write * n) as u64 }, proof_size: 0 }
}

/// The weight of a call: the benchmarked time and proof size, plus its
/// reads and writes.
pub open spec fn call_weight(db: DbWeight, ref_time: u64, proof_size: u64, reads: u64, writes: u64) -> Weight {
    w_add(w_add(Weight { ref_time, proof_size }, reads_weight(db, reads)), writes_weight(db, writes))
}

impl DbWeight {
    /// The weight of `n` reads.
    pub fn reads(self, n: u64) -> (r: Weight)
        ensures
            r == reads_weight(self, n),
    {
        let t = match self.read.checked_mul(n) {
            Some(v) => v,
            None => u64::MAX,
        };
        Weight { ref_time: t, proof_size: 0 }
    }

    /// The weight of `n` writes.
    pub fn writes(self, n: u64) -> (r: Weight)
        ensures
            r == writes_weight(self, n),
    {
        let t = match self.write.checked_mul(n) {
            Some(v) => v,
            None => u64::MAX,
        };
        Weight { ref_time: t, proof_size: 0 }
    }
}

/// The benchmarked weights of the pallet's calls on a runtime with
/// database weight `db`.
#[derive(Clone, Copy, Debug, PartialEq, Eq, Structural)]
pub struct SubstrateWeight {
    pub db: DbWeight,
}

impl SubstrateWeight {
    /// The weight of staking on a module.
    pub fn add_stake(&self) -> (r: Weight)
        ensures
            r == call_weight(self.db, 153_059_000, 14941, 18, 4),
    {
        Weight { ref_time: 153_059_000, proof_size: 14941 }.saturating_add(self.db.reads(18)).saturating_add(self.db.writes(4))
    }

    /// The weight of unstaking from a module.
    pub fn remove_stake(&self) -> (r: Weight)
        ensures
            r == call_weight(self.db, 162_045_000, 15025, 18, 4),
    {
        Weight { ref_time: 162_045_000, proof_size: 15025 }.saturating_add(self.db.reads(18)).saturating_add(self.db.writes(4))
    }

    /// The weight of staking on several modules.
    pub fn add_stake_multiple(&self) -> (r: Weight)
        ensures
            r == call_weight(self.db, 285_408_000, 27532, 27, 6),
    {
        Weight { ref_time: 285_408_000, proof_size: 27532 }.saturating_add(self.db.reads(27)).saturating_add(self.db.writes(6))
    }

    /// The weight of unstaking from several modules.
    pub fn remove_stake_multiple(&self) -> (r: Weight)
        ensures
            r == call_weight(self.db, 337_758_000, 27670, 27, 6),
    {
        Weight { ref_time: 337_758_000, proof_size: 27670 }.saturating_add(self.db.reads(27)).saturating_add(self.db.writes(6))
    }

    /// The weight of moving stake between modules.
    pub fn transfer_stake(&self) -> (r: Weight)
        ensures
            r == call_weight(self.db, 331_797_000, 27616, 27, 6),
    {
        Weight { ref_time: 331_797_000, proof_size: 27616 }.saturating_add(self.db.reads(27)).saturating_add(self.db.writes(6))
    }

    /// The weight of paying several keys.
    pub fn transfer_multiple(&self) -> (r: Weight)
        ensures
            r == call_weight(self.db, 120_186_000, 8727, 3, 3),
    {
        Weight { ref_time: 120_186_000, proof_size: 8727 }.saturating_add(self.db.reads(3)).saturating_add(self.db.writes(3))
    }

    /// The weight of registering a module.
    pub fn register(&self) -> (r: Weight)
        ensures
            r == call_weight(self.db, 375_410_000, 18729, 47, 26),
    {
        Weight { ref_time: 375_410_000, proof_size: 18729 }.saturating_add(self.db.reads(47)).saturating_add(self.db.writes(26))
    }

    /// The weight of deregistering a module.
    pub fn deregister(&self) -> (r: Weight)
        ensures
            r == call_weight(self.db, 499_553_000, 21612, 34, 54),
    {
        Weight { ref_time: 499_553_000, proof_size: 21612 }.saturating_add(self.db.reads(34)).saturating_add(self.db.writes(54))
    }

    /// The weight of updating a module.
    pub fn update_module(&self) -> (r: Weight)
        ensures
            r == call_weight(self.db, 105_519_000, 7569, 9, 4),
    {
        Weight { ref_time: 105_519_000, proof_size: 7569 }.saturating_add(self.db.reads(9)).saturating_add(self.db.writes(4))
    }
}

} // verus!
