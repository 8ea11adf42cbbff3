use subspace::weights::{DbWeight, SubstrateWeight};
use subspace::whitelist::Weight;

#[test]
fn call_weight_adds_reads_and_writes() {
    let w = SubstrateWeight { db: DbWeight { read: 1_000, write: 2_000 } };
    assert_eq!(w.add_stake(), Weight { ref_time: 153_059_000 + 18 * 1_000 + 4 * 2_000, proof_size: 14941 });
    assert_eq!(w.register(), Weight { ref_time: 375_410_000 + 47 * 1_000 + 26 * 2_000, proof_size: 18729 });
    assert_eq!(w.update_module(), Weight { ref_time: 105_519_000 + 9 * 1_000 + 4 * 2_000, proof_size: 7569 });
}

#[test]
fn db_weight_saturates() {
    let db = DbWeight { read: u64::MAX / 2 + 1, write: 3 };
    assert_eq!(db.reads(2), Weight { ref_time: u64::MAX, proof_size: 0 });
    assert_eq!(db.writes(5), Weight { ref_time: 15, proof_size: 0 });
    let w = SubstrateWeight { db };
    assert_eq!(w.deregister().ref_time, u64::MAX);
}
