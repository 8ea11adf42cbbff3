use subspace::block_step::EpochOutcome;
use subspace::burn::GeneralBurnConfiguration;
use subspace::config::PalletConfig;
use subspace::params::{GlobalParams, GovernanceConfiguration, MinimumFees, VoteMode};
use subspace::percent::Percent;
use subspace::registration::RegistrationHooks;
use subspace::state::Subspace;
use subspace::treasury::TreasuryHooks;
use subspace::whitelist::Weight;

const TREASURY: u64 = 99;

fn treasury(parts: u8) -> TreasuryHooks {
    TreasuryHooks { dao_treasury_distribution: Percent { parts }, dao_treasury_address: TREASURY }
}

const ALICE: u64 = 1;

fn config() -> PalletConfig {
    PalletConfig {
        default_max_registrations_per_interval: 42,
        default_max_subnet_registrations_per_interval: 2,
        default_module_min_burn: 1_000,
        default_subnet_min_burn: 5_000,
        default_min_validator_stake: 0,
        default_use_weights_encryption: false,
        max_encryption_duration: 10_800,
    }
}

fn governance() -> GovernanceConfiguration {
    GovernanceConfiguration {
        proposal_cost: 1_000,
        proposal_expiration: 130_000,
        vote_mode: VoteMode::Vote,
        proposal_reward_treasury_allocation: Percent { parts: 50 },
        max_proposal_reward_treasury_allocation: 1_000,
        proposal_reward_interval: 75_600,
    }
}

fn global() -> GlobalParams {
    GlobalParams {
        max_name_length: 32,
        min_name_length: 2,
        max_allowed_subnets: 8,
        max_allowed_modules: 10_000,
        max_registrations_per_block: 10,
        max_allowed_weights: 420,
        floor_stake_delegation_fee: Percent { parts: 5 },
        floor_validator_weight_fee: Percent { parts: 4 },
        floor_founder_share: 8,
        min_weight_stake: 0,
        curator: 0,
        general_subnet_application_cost: 1_000,
        subnet_immunity_period: 32_400,
        governance_config: governance(),
        kappa: 32_767,
        rho: 10,
    }
}

fn hooks() -> RegistrationHooks {
    RegistrationHooks { rootnet_id: 100, mineable: vec![], removable: vec![], lowest_emission_netuid: None, subnet_governance: governance() }
}

/// Subnets "root" (netuid 0) and "alpha" (netuid 1), no module.
fn setup() -> Subspace {
    let cfg = config();
    let min_fees = MinimumFees { stake_delegation_fee: Percent { parts: 5 }, validator_weight_fee: Percent { parts: 4 } };
    let mut p = Subspace::new(cfg, global(), 1, min_fees, GeneralBurnConfiguration::subnet_burn_default(&cfg));
    p.balances.set_balance(ALICE, 1_000_000);
    assert!(p.do_register_subnet(ALICE, b"root".to_vec(), None, governance(), None, &vec![]).is_ok());
    assert!(p.do_register_subnet(ALICE, b"alpha".to_vec(), None, governance(), None, &vec![]).is_ok());
    p
}

#[test]
fn emission_queues_until_the_epoch() {
    let mut p = setup();
    assert_eq!(p.subnet_step(1, 50, Percent { parts: 10 }, 0, 100, &treasury(0)), Ok(EpochOutcome::NotDue));
    assert_eq!(p.subnets[1].pending_emission, 100);
    assert_eq!(p.subnet_step(1, 51, Percent { parts: 10 }, 0, 100, &treasury(0)), Ok(EpochOutcome::NotDue));
    assert_eq!(p.subnets[1].pending_emission, 200);
}

#[test]
fn a_subnet_without_enough_stake_drops_its_emission() {
    let mut p = setup();
    assert_eq!(p.subnet_step(1, 50, Percent { parts: 10 }, 0, 100, &treasury(0)), Ok(EpochOutcome::NotDue));
    // block 99 + netuid 1 is a multiple of the tempo 100
    assert_eq!(p.subnet_step(1, 99, Percent { parts: 10 }, 0, 100, &treasury(0)), Ok(EpochOutcome::Skipped));
    assert_eq!(p.subnets[1].pending_emission, 0);
}

#[test]
fn a_subnet_with_enough_stake_is_due_for_consensus() {
    let mut p = setup();
    assert_eq!(p.subnet_step(1, 99, Percent { parts: 0 }, 1_000, 100, &treasury(0)), Ok(EpochOutcome::ConsensusDue));
    assert_eq!(p.subnets[1].pending_emission, 100);
}

#[test]
fn the_root_network_runs_the_linear_epoch() {
    let mut p = setup();
    assert_eq!(p.subnet_step(0, 100, Percent { parts: 10 }, 0, 100, &treasury(0)), Ok(EpochOutcome::Linear));
    assert_eq!(p.subnets[0].pending_emission, 0);
}

#[test]
fn a_missing_subnet_is_left_alone() {
    let mut p = setup();
    assert_eq!(p.subnet_step(7, 100, Percent { parts: 10 }, 0, 100, &treasury(0)), Ok(EpochOutcome::NotDue));
    assert_eq!(p.subnets.len(), 2);
}

#[test]
fn registration_burns_adjust_at_interval_ends() {
    let mut p = setup();
    p.registrations_per_block = 3;
    let before = p.subnets[1].burn;
    p.adjust_registration_parameters(1);
    assert_eq!(p.registrations_per_block, 0);
    assert_eq!(p.subnets[1].burn, before);
    // 142 is the module burn interval: no registration halves the burn
    // towards the target, within the bounds
    p.adjust_registration_parameters(142);
    assert!(p.subnets[1].burn <= before);
    assert!(p.subnets[1].burn >= p.subnets[1].params.module_burn_config.min_burn);
    assert_eq!(p.subnets[1].registrations_this_interval, 0);
}

#[test]
fn the_linear_epoch_pays_out_at_most_the_emission() {
    let mut p = setup();
    assert!(p.do_register(ALICE, b"root".to_vec(), b"m1".to_vec(), b"1.2.3.4:80".to_vec(), 10, None, &hooks()).is_ok());
    assert!(p.do_register(ALICE, b"root".to_vec(), b"m2".to_vec(), b"1.2.3.5:80".to_vec(), 11, None, &hooks()).is_ok());
    assert_eq!(p.do_add_stake(ALICE, 10, 1_000), Ok(()));
    assert_eq!(p.do_add_stake(ALICE, 11, 3_000), Ok(()));
    p.subnets[0].weights = vec![vec![(1, 65_535)], vec![(0, 65_535)]];
    let before = p.ledger.total_stake();
    assert_eq!(p.linear_epoch(0, 10_000, Percent { parts: 10 }, &treasury(0)), Ok(()));
    let paid: u64 = p.subnets[0].emission.iter().sum();
    assert!(paid <= 10_000);
    assert_eq!(p.subnets[0].emission.len(), 2);
    assert!(p.ledger.total_stake() >= before);
    assert!(p.ledger.total_stake() <= before + 10_000);
}

#[test]
fn the_block_step_steps_every_subnet() {
    let mut p = setup();
    p.registrations_per_block = 4;
    assert_eq!(p.block_step(50, Percent { parts: 10 }, &vec![7, 9], &treasury(0)), Ok(vec![EpochOutcome::NotDue, EpochOutcome::NotDue]));
    assert_eq!(p.registrations_per_block, 0);
    assert_eq!(p.subnets[0].pending_emission, 7);
    assert_eq!(p.subnets[1].pending_emission, 9);
    // block 99: subnet 1 is due and has no stake; block 100: the root network is due
    assert_eq!(p.block_step(99, Percent { parts: 10 }, &vec![1, 1], &treasury(0)), Ok(vec![EpochOutcome::NotDue, EpochOutcome::Skipped]));
    assert_eq!(p.subnets[0].pending_emission, 8);
    assert_eq!(p.subnets[1].pending_emission, 0);
    assert_eq!(p.block_step(100, Percent { parts: 10 }, &vec![1, 1], &treasury(0)), Ok(vec![EpochOutcome::Linear, EpochOutcome::NotDue]));
    assert_eq!(p.subnets[0].pending_emission, 0);
    assert_eq!(p.subnets[1].pending_emission, 1);
}

fn root_with_modules() -> Subspace {
    let mut p = setup();
    assert!(p.do_register(ALICE, b"root".to_vec(), b"m1".to_vec(), b"1.2.3.4:80".to_vec(), 10, None, &hooks()).is_ok());
    assert!(p.do_register(ALICE, b"root".to_vec(), b"m2".to_vec(), b"1.2.3.5:80".to_vec(), 11, None, &hooks()).is_ok());
    assert!(p.do_register(ALICE, b"alpha".to_vec(), b"m3".to_vec(), b"1.2.3.6:80".to_vec(), 12, None, &hooks()).is_ok());
    assert_eq!(p.do_add_stake(ALICE, 10, 1_000), Ok(()));
    assert_eq!(p.do_add_stake(ALICE, 11, 3_000), Ok(()));
    assert_eq!(p.do_add_stake(ALICE, 12, 4_000), Ok(()));
    p.subnets[0].weights = vec![vec![(1, 65_535)], vec![(0, 65_535)]];
    p
}

#[test]
fn the_root_founder_emission_goes_to_the_treasury() {
    let mut p = root_with_modules();
    // the root network's founder share is 8 percent: 799 of 10_000 after rounding
    assert_eq!(p.linear_epoch(0, 10_000, Percent { parts: 10 }, &treasury(0)), Ok(()));
    assert_eq!(p.balances.get_balance(TREASURY), 799);
}

#[test]
fn part_of_the_root_founder_emission_goes_to_subnet_founders() {
    let mut p = root_with_modules();
    let alice = p.balances.get_balance(ALICE);
    assert_eq!(p.linear_epoch(0, 10_000, Percent { parts: 10 }, &treasury(50)), Ok(()));
    // half of 799, rounded down, goes to the founder of the only subnet
    // holding enough stake; the treasury keeps the rest
    assert_eq!(p.balances.get_balance(ALICE), alice + 399);
    assert_eq!(p.balances.get_balance(TREASURY), 400);
}

fn w(t: u64) -> Weight {
    Weight { ref_time: t, proof_size: 0 }
}

#[test]
fn modules_off_the_whitelist_leave_the_root_network() {
    let mut p = root_with_modules();
    assert!(p.do_register(ALICE, b"root".to_vec(), b"m4".to_vec(), b"1.2.3.7:80".to_vec(), 13, None, &hooks()).is_ok());
    let used = p.deregister_not_whitelisted_modules(w(1_000), &vec![11], w(1), w(1), w(10), &vec![]);
    assert_eq!(used, w(1 + 2 * 11));
    assert_eq!(p.get_uid_for_key(0, 10), None);
    assert_eq!(p.get_uid_for_key(0, 13), None);
    assert!(p.get_uid_for_key(0, 11).is_some());
    // the module of another subnet is untouched
    assert!(p.get_uid_for_key(1, 12).is_some());
}

#[test]
fn clearing_stops_when_the_weight_runs_out() {
    let mut p = root_with_modules();
    assert_eq!(p.deregister_not_whitelisted_modules(w(11), &vec![], w(1), w(1), w(10), &vec![]), w(0));
    assert!(p.get_uid_for_key(0, 10).is_some());
    // room for one deregistration: the smallest key goes
    assert_eq!(p.deregister_not_whitelisted_modules(w(12), &vec![], w(1), w(1), w(10), &vec![]), w(12));
    assert_eq!(p.get_uid_for_key(0, 10), None);
    assert!(p.get_uid_for_key(0, 11).is_some());
}

#[test]
fn module_bookkeeping_by_uid() {
    let mut p = root_with_modules();
    assert_eq!(p.get_stakes(0), vec![1_000, 3_000]);
    assert_eq!(p.get_stakes(7), Vec::<u64>::new());
    assert_eq!(p.get_block_at_registration(0), vec![0, 0]);
    p.set_last_update_for_uid(0, 1, 77);
    assert_eq!(p.subnets[0].last_update, vec![0, 77]);
    p.copy_last_update_for_uid(0, 0, 1);
    assert_eq!(p.subnets[0].last_update, vec![77, 77]);
    p.set_last_update_for_uid(0, 5, 99);
    assert_eq!(p.subnets[0].last_update, vec![77, 77]);
}
