use subspace::events::Event;
use subspace::params::SubnetChangeset;
use subspace::blacklist::ValidatorBlacklists;
use subspace::burn::GeneralBurnConfiguration;
use subspace::config::PalletConfig;
use subspace::errors::Error;
use subspace::params::{GlobalParams, GovernanceConfiguration, MinimumFees, VoteMode};
use subspace::percent::Percent;
use subspace::profit_share::{get_profit_share_emissions, ProfitShares};
use subspace::registration::RegistrationHooks;
use subspace::state::Subspace;

const ALICE: u64 = 1;
const BOB: u64 = 2;
const MODULE: u64 = 10;
const OTHER_MODULE: u64 = 11;

fn config() -> PalletConfig {
    PalletConfig {
        default_max_registrations_per_interval: 42,
        default_max_subnet_registrations_per_interval: 2,
        default_module_min_burn: 1_000,
        default_subnet_min_burn: 5_000,
        default_min_validator_stake: 0,
        default_use_weights_encryption: false,
        max_encryption_duration: 10_800,
    }
}

fn governance() -> GovernanceConfiguration {
    GovernanceConfiguration {
        proposal_cost: 1_000,
        proposal_expiration: 130_000,
        vote_mode: VoteMode::Vote,
        proposal_reward_treasury_allocation: Percent { parts: 50 },
        max_proposal_reward_treasury_allocation: 1_000,
        proposal_reward_interval: 75_600,
    }
}

fn global() -> GlobalParams {
    GlobalParams {
        max_name_length: 32,
        min_name_length: 2,
        max_allowed_subnets: 8,
        max_allowed_modules: 10_000,
        max_registrations_per_block: 10,
        max_allowed_weights: 420,
        floor_stake_delegation_fee: Percent { parts: 5 },
        floor_validator_weight_fee: Percent { parts: 4 },
        floor_founder_share: 8,
        min_weight_stake: 0,
        curator: 0,
        general_subnet_application_cost: 1_000,
        subnet_immunity_period: 32_400,
        governance_config: governance(),
        kappa: 32_767,
        rho: 10,
    }
}

fn hooks() -> RegistrationHooks {
    RegistrationHooks { rootnet_id: 100, mineable: vec![], removable: vec![], lowest_emission_netuid: None, subnet_governance: governance() }
}

/// A pallet with subnet "alpha" holding modules `MODULE` and `OTHER_MODULE`,
/// and `ALICE` holding 1_000_000 free.
fn setup() -> Subspace {
    let cfg = config();
    let min_fees = MinimumFees { stake_delegation_fee: Percent { parts: 5 }, validator_weight_fee: Percent { parts: 4 } };
    let mut p = Subspace::new(cfg, global(), 1, min_fees, GeneralBurnConfiguration::subnet_burn_default(&cfg));
    p.balances.set_balance(ALICE, 1_000_000);
    assert!(p.do_register_subnet(ALICE, b"alpha".to_vec(), None, governance(), None, &vec![]).is_ok());
    assert!(p.do_register(ALICE, b"alpha".to_vec(), b"m1".to_vec(), b"1.2.3.4:80".to_vec(), MODULE, None, &hooks()).is_ok());
    assert!(p.do_register(ALICE, b"alpha".to_vec(), b"m2".to_vec(), b"1.2.3.5:80".to_vec(), OTHER_MODULE, None, &hooks()).is_ok());
    p.balances.set_balance(ALICE, 1_000_000);
    p
}

#[test]
fn stake_then_unstake_gives_everything_back() {
    let mut p = setup();
    let balance = p.balances.get_balance(ALICE);
    let stake = p.ledger.get_stake_to_module(ALICE, MODULE);
    let total = p.ledger.total_stake();
    assert_eq!(p.do_add_stake(ALICE, MODULE, 400), Ok(()));
    assert_eq!(p.do_remove_stake(ALICE, MODULE, 400), Ok(()));
    assert_eq!(p.balances.get_balance(ALICE), balance);
    assert_eq!(p.ledger.get_stake_to_module(ALICE, MODULE), stake);
    assert_eq!(p.ledger.total_stake(), total);
}

#[test]
fn staking_moves_tokens_from_balance_to_stake() {
    let mut p = setup();
    assert_eq!(p.do_add_stake(ALICE, MODULE, 400), Ok(()));
    assert_eq!(p.balances.get_balance(ALICE), 999_600);
    assert_eq!(p.ledger.get_stake_to_module(ALICE, MODULE), 400);
    assert_eq!(p.ledger.get_module_stake(MODULE), 400);
    assert_eq!(p.ledger.total_stake(), 400);
    assert_eq!(p.balances.get_balance(ALICE) + p.ledger.get_stake_to_module(ALICE, MODULE), 1_000_000);
}

#[test]
fn stake_to_and_stake_from_agree() {
    let mut p = setup();
    assert_eq!(p.do_add_stake(ALICE, MODULE, 300), Ok(()));
    assert_eq!(p.do_add_stake(ALICE, OTHER_MODULE, 200), Ok(()));
    assert_eq!(p.ledger.get_stake_to_vector(ALICE), vec![(MODULE, 300), (OTHER_MODULE, 200)]);
    // registering a module opens its own stake entry, at zero
    assert_eq!(p.ledger.get_stake_from_vector(MODULE), vec![(ALICE, 300), (MODULE, 0)]);
    assert_eq!(p.ledger.get_stake_from_vector(OTHER_MODULE), vec![(ALICE, 200), (OTHER_MODULE, 0)]);
}

#[test]
fn staking_on_an_unregistered_module_is_refused() {
    let mut p = setup();
    assert_eq!(p.do_add_stake(ALICE, 77, 10), Err(Error::NotRegistered));
    assert_eq!(p.balances.get_balance(ALICE), 1_000_000);
}

#[test]
fn staking_more_than_the_balance_is_refused() {
    let mut p = setup();
    assert_eq!(p.do_add_stake(BOB, MODULE, 10), Err(Error::NotEnoughBalanceToStake));
    assert_eq!(p.do_add_stake(ALICE, MODULE, 0), Err(Error::NotEnoughBalanceToStake));
}

#[test]
fn staking_the_whole_balance_is_refused() {
    let mut p = setup();
    assert_eq!(p.do_add_stake(ALICE, MODULE, 1_000_000), Err(Error::BalanceCouldNotBeRemoved));
    assert_eq!(p.ledger.get_stake_to_module(ALICE, MODULE), 0);
}

#[test]
fn unstaking_more_than_staked_is_refused() {
    let mut p = setup();
    assert_eq!(p.do_add_stake(ALICE, MODULE, 50), Ok(()));
    assert_eq!(p.do_remove_stake(ALICE, MODULE, 51), Err(Error::NotEnoughStaketoWithdraw));
    assert_eq!(p.do_remove_stake(ALICE, 77, 1), Err(Error::NotRegistered));
}

#[test]
fn transfer_stake_moves_it_between_modules() {
    let mut p = setup();
    assert_eq!(p.do_add_stake(ALICE, MODULE, 500), Ok(()));
    assert_eq!(p.do_transfer_stake(ALICE, MODULE, OTHER_MODULE, 200), Ok(()));
    assert_eq!(p.ledger.get_stake_to_module(ALICE, MODULE), 300);
    assert_eq!(p.ledger.get_stake_to_module(ALICE, OTHER_MODULE), 200);
    assert_eq!(p.ledger.total_stake(), 500);
    assert_eq!(p.balances.get_balance(ALICE), 999_500);
    assert_eq!(p.do_transfer_stake(ALICE, MODULE, OTHER_MODULE, 301), Err(Error::NotEnoughStaketoWithdraw));
}

#[test]
fn add_stake_multiple_checks_its_lists() {
    let mut p = setup();
    assert_eq!(p.do_add_stake_multiple(ALICE, vec![MODULE], vec![1, 2]), Err(Error::DifferentLengths));
    assert_eq!(p.do_add_stake_multiple(ALICE, vec![], vec![]), Err(Error::EmptyKeys));
    assert_eq!(p.do_add_stake_multiple(ALICE, vec![MODULE; 101], vec![1; 101]), Err(Error::TooManyKeys));
    assert_eq!(p.do_add_stake_multiple(ALICE, vec![MODULE, OTHER_MODULE], vec![100, 250]), Ok(()));
    assert_eq!(p.ledger.get_stake_to_module(ALICE, MODULE), 100);
    assert_eq!(p.ledger.get_stake_to_module(ALICE, OTHER_MODULE), 250);
    assert_eq!(p.balances.get_balance(ALICE), 999_650);
}

#[test]
fn remove_stake_multiple_is_all_or_nothing() {
    let mut p = setup();
    assert_eq!(p.do_add_stake_multiple(ALICE, vec![MODULE, OTHER_MODULE], vec![100, 250]), Ok(()));
    assert_eq!(p.do_remove_stake_multiple(ALICE, vec![MODULE, OTHER_MODULE], vec![100, 251]), Err(Error::NotEnoughStaketoWithdraw));
    assert_eq!(p.ledger.get_stake_to_module(ALICE, MODULE), 100);
    assert_eq!(p.do_remove_stake_multiple(ALICE, vec![MODULE, OTHER_MODULE], vec![100, 250]), Ok(()));
    assert_eq!(p.ledger.total_stake(), 0);
    assert_eq!(p.balances.get_balance(ALICE), 1_000_000);
}

#[test]
fn transfer_multiple_pays_each_destination() {
    let mut p = setup();
    assert_eq!(p.do_transfer_multiple(ALICE, vec![BOB, 3], vec![10, 20]), Ok(()));
    assert_eq!(p.balances.get_balance(BOB), 10);
    assert_eq!(p.balances.get_balance(3), 20);
    assert_eq!(p.balances.get_balance(ALICE), 999_970);
    assert_eq!(p.do_transfer_multiple(ALICE, vec![BOB], vec![1, 2]), Err(Error::DifferentLengths));
    assert_eq!(p.do_transfer_multiple(BOB, vec![3], vec![11]), Err(Error::NotEnoughBalanceToTransfer));
}

#[test]
fn removing_a_modules_stake_pays_its_stakers_back() {
    let mut p = setup();
    assert_eq!(p.do_add_stake(ALICE, MODULE, 500), Ok(()));
    p.remove_stake_from_storage(MODULE);
    assert_eq!(p.ledger.get_stake_to_module(ALICE, MODULE), 0);
    assert_eq!(p.ledger.get_module_stake(MODULE), 0);
    assert_eq!(p.balances.get_balance(ALICE), 1_000_000);
}

#[test]
fn delegation_fee_defaults_and_floor() {
    let p = setup();
    assert_eq!(p.get_delegation_fee(MODULE).parts, 5);
    assert_eq!(p.get_delegation_fee(999).parts, 5);
}

#[test]
fn profit_shares_add_up_to_the_unit() {
    let p = setup();
    let mut ps = ProfitShares::new();
    assert_eq!(ps.do_add_profit_shares(&p, MODULE, vec![2, 3], vec![1, 1]), Ok(()));
    // each half rounds down to 32767; the one left over goes to the first
    assert_eq!(ps.get_profit_shares(MODULE), vec![(2, 32_768), (3, 32_767)]);
    assert_eq!(get_profit_share_emissions(&ps, MODULE, 65_535), vec![(2, 32_768), (3, 32_767)]);
    assert_eq!(ps.do_add_profit_shares(&p, MODULE, vec![4, 5, 6], vec![1, 2, 3]), Ok(()));
    let shares = ps.get_profit_shares(MODULE);
    assert_eq!(shares, vec![(4, 10_923), (5, 21_845), (6, 32_767)]);
    assert_eq!(shares.iter().map(|(_, s)| *s as u32).sum::<u32>(), 65_535);
}

#[test]
fn profit_shares_are_checked() {
    let p = setup();
    let mut ps = ProfitShares::new();
    assert_eq!(ps.do_add_profit_shares(&p, ALICE, vec![2], vec![1]), Err(Error::NotRegistered));
    assert_eq!(ps.do_add_profit_shares(&p, MODULE, vec![], vec![]), Err(Error::EmptyKeys));
    assert_eq!(ps.do_add_profit_shares(&p, MODULE, vec![2], vec![1, 2]), Err(Error::DifferentLengths));
    assert_eq!(ps.do_add_profit_shares(&p, MODULE, vec![2, 3], vec![0, 0]), Err(Error::InvalidShares));
    assert_eq!(ps.get_profit_shares(MODULE), vec![]);
}

#[test]
fn founders_blacklist_their_modules() {
    let p = setup();
    let mut b = ValidatorBlacklists::new();
    assert_eq!(b.do_add_blacklist(&p, BOB, 0, MODULE), Err(Error::NotFounder));
    assert_eq!(b.do_add_blacklist(&p, ALICE, 0, 77), Err(Error::NotAModule));
    assert_eq!(b.do_add_blacklist(&p, ALICE, 0, MODULE), Ok(()));
    assert!(b.is_blacklisted(0, MODULE));
    assert!(!b.is_blacklisted(0, OTHER_MODULE));
    assert_eq!(b.do_add_blacklist(&p, ALICE, 0, MODULE), Err(Error::AlreadyBlacklisted));
    assert_eq!(b.do_remove_blacklist(&p, ALICE, 0, OTHER_MODULE), Err(Error::NotBlacklisted));
    assert_eq!(b.do_remove_blacklist(&p, ALICE, 0, MODULE), Ok(()));
    assert!(!b.is_blacklisted(0, MODULE));
    // a subnet that does not exist has the all-zero key as founder
    assert_eq!(b.do_add_blacklist(&p, ALICE, 9, MODULE), Err(Error::NotFounder));
    assert_eq!(b.do_add_blacklist(&p, 0, 9, MODULE), Err(Error::NotAModule));
}

#[test]
fn modules_update_their_parameters() {
    let mut p = setup();
    assert_eq!(
        p.update_module(BOB, 0, b"x1".to_vec(), b"1.1.1.1:1".to_vec(), None, None, None),
        Err(Error::ModuleDoesNotExist)
    );
    assert_eq!(
        p.update_module(MODULE, 0, b"renamed".to_vec(), b"1.2.3.4:80".to_vec(), Some(Percent { parts: 20 }), None, Some(b"meta".to_vec())),
        Ok(())
    );
    assert_eq!(p.subnets[0].names[0], b"renamed".to_vec());
    assert_eq!(p.subnets[0].addresses[0], b"1.2.3.4:80".to_vec());
    assert_eq!(p.subnets[0].metadata[0], Some(b"meta".to_vec()));
    assert_eq!(p.get_fees(MODULE).stake_delegation_fee.parts, 20);
    assert_eq!(p.get_fees(MODULE).validator_weight_fee.parts, 4);
    assert_eq!(p.get_delegation_fee(MODULE).parts, 20);
    // the name of another module is taken
    assert_eq!(
        p.update_module(OTHER_MODULE, 0, b"renamed".to_vec(), b"1.2.3.5:80".to_vec(), None, None, None),
        Err(Error::ModuleNameAlreadyExists)
    );
    // fees below the minimum are refused
    assert_eq!(
        p.update_module(OTHER_MODULE, 0, b"m2".to_vec(), b"1.2.3.5:80".to_vec(), Some(Percent { parts: 1 }), None, None),
        Err(Error::InvalidMinDelegationFee)
    );
}

#[test]
fn lookups_read_the_subnet_by_uid() {
    let p = setup();
    let netuid = p.get_netuid_for_name(b"alpha").unwrap();
    assert_eq!(p.netuids(), vec![netuid]);
    assert_eq!(p.get_uids(netuid), vec![0, 1]);
    assert_eq!(p.get_keys(netuid), vec![MODULE, OTHER_MODULE]);
    assert_eq!(p.get_uid_key_tuples(netuid), vec![(0, MODULE), (1, OTHER_MODULE)]);
    assert_eq!(p.get_key_for_uid(netuid, 1), Some(OTHER_MODULE));
    assert_eq!(p.get_key_for_uid(netuid, 2), None);
    assert!(p.key_registered(netuid, MODULE));
    assert!(!p.key_registered(netuid, ALICE));
    assert_eq!(p.get_emission_for_uid(netuid, 0), 0);
    assert_eq!(p.get_last_update_for_uid(netuid, 9), 0);
    // a subnet that does not exist reads as empty
    assert_eq!(p.get_uids(netuid + 1), Vec::<u16>::new());
    assert_eq!(p.get_keys(netuid + 1), Vec::<u64>::new());
    assert_eq!(p.get_key_for_uid(netuid + 1, 0), None);
    assert_eq!(p.get_incentive_for_uid(netuid + 1, 0), 0);
    assert_eq!(p.get_dividends_for_uid(netuid + 1, 0), 0);
    let params = p.subnet_params(netuid).unwrap();
    assert_eq!(params.name, b"alpha".to_vec());
    assert_eq!(params.founder, ALICE);
    assert!(p.subnet_params(netuid + 1).is_none());
}

#[test]
fn module_stats_report_the_stake_on_the_module() {
    let mut p = setup();
    let netuid = p.get_netuid_for_name(b"alpha").unwrap();
    assert_eq!(p.do_add_stake(ALICE, MODULE, 300), Ok(()));
    let stats = p.get_module_stats(netuid, MODULE);
    assert_eq!(stats.stake_from, vec![(ALICE, 300), (MODULE, 0)]);
    assert_eq!(stats.emission, 0);
    assert_eq!(stats.weights, Vec::<(u16, u16)>::new());
    // a key with no uid reads as zero everywhere
    let none = p.get_module_stats(netuid, 77);
    assert_eq!(none.emission, 0);
    assert_eq!(none.last_update, 0);
    assert_eq!(none.registration_block, 0);
    assert_eq!(none.stake_from, Vec::<(u64, u64)>::new());
}

#[test]
fn registered_until_deregistered() {
    let mut p = setup();
    let netuid = p.get_netuid_for_name(b"alpha").unwrap();
    assert!(p.key_registered(netuid, MODULE));
    assert_eq!(p.do_deregister(MODULE, netuid, &vec![]), Ok(()));
    assert!(!p.key_registered(netuid, MODULE));
    assert_eq!(p.get_keys(netuid), vec![OTHER_MODULE]);
    assert_eq!(p.do_deregister(MODULE, netuid, &vec![]), Err(Error::ModuleDoesNotExist));
}

#[test]
fn call_caps_are_kept_or_removed() {
    let mut p = setup();
    let netuid = p.get_netuid_for_name(b"alpha").unwrap();
    let mut params = p.subnet_params(netuid).unwrap();
    params.maximum_set_weight_calls_per_epoch = Some(5);
    let ctx = p.validation_context_for(Some(netuid), &params.name);
    let cs = SubnetChangeset::update(netuid, params.clone(), &ctx).unwrap();
    assert_eq!(cs.apply(&mut p, netuid), Ok(()));
    assert_eq!(p.subnet_params(netuid).unwrap().maximum_set_weight_calls_per_epoch, Some(5));
    // no cap given: the stored one stays
    params.maximum_set_weight_calls_per_epoch = None;
    let cs = SubnetChangeset::update(netuid, params.clone(), &ctx).unwrap();
    assert_eq!(cs.apply(&mut p, netuid), Ok(()));
    assert_eq!(p.subnet_params(netuid).unwrap().maximum_set_weight_calls_per_epoch, Some(5));
    // a zero cap removes it
    params.maximum_set_weight_calls_per_epoch = Some(0);
    let cs = SubnetChangeset::update(netuid, params.clone(), &ctx).unwrap();
    assert_eq!(cs.apply(&mut p, netuid), Ok(()));
    assert_eq!(p.subnet_params(netuid).unwrap().maximum_set_weight_calls_per_epoch, None);
}

#[test]
fn removing_a_subnet_reports_it() {
    let mut p = setup();
    let netuid = p.get_netuid_for_name(b"alpha").unwrap();
    assert_eq!(p.remove_subnet(netuid, &vec![]), None);
    assert!(p.if_subnet_exist(netuid));
    assert_eq!(p.remove_subnet(netuid, &vec![netuid]), Some(Event::NetworkRemoved(netuid)));
    assert!(!p.if_subnet_exist(netuid));
    assert_eq!(p.remove_subnet(netuid, &vec![netuid]), None);
}

#[test]
fn registering_on_a_new_name_creates_the_subnet() {
    let mut p = setup();
    let subnet_burn = p.subnet_burn;
    let module_burn = config().default_module_min_burn;
    assert_eq!(p.do_register(ALICE, b"beta".to_vec(), b"m3".to_vec(), b"1.2.3.6:80".to_vec(), 12, None, &hooks()), Ok(()));
    let netuid = p.get_netuid_for_name(b"beta").unwrap();
    assert!(p.key_registered(netuid, 12));
    assert_eq!(p.get_keys(netuid), vec![12]);
    assert_eq!(p.subnet_params(netuid).unwrap().founder, ALICE);
    assert_eq!(p.balances.get_balance(ALICE), 1_000_000 - subnet_burn - module_burn);
}

#[test]
fn a_new_subnet_stays_when_its_module_is_refused() {
    let mut p = setup();
    let subnet_burn = p.subnet_burn;
    p.balances.set_balance(ALICE, subnet_burn + 2);
    assert_eq!(
        p.do_register(ALICE, b"beta".to_vec(), b"m3".to_vec(), b"1.2.3.6:80".to_vec(), 12, None, &hooks()),
        Err(Error::NotEnoughBalanceToRegister)
    );
    let netuid = p.get_netuid_for_name(b"beta").unwrap();
    assert!(!p.key_registered(netuid, 12));
    assert_eq!(p.balances.get_balance(ALICE), 2);
    // a subnet that cannot be paid for is not created
    p.balances.set_balance(BOB, 3);
    assert_eq!(
        p.do_register(BOB, b"gamma".to_vec(), b"m4".to_vec(), b"1.2.3.7:80".to_vec(), 13, None, &hooks()),
        Err(Error::NotEnoughBalanceToRegisterSubnet)
    );
    assert_eq!(p.get_netuid_for_name(b"gamma"), None);
}

#[test]
fn a_module_burn_for_a_missing_subnet_is_checked_and_not_kept() {
    let mut p = setup();
    let netuid = p.get_netuid_for_name(b"alpha").unwrap();
    let burn = GeneralBurnConfiguration::module_burn_default(&config());
    assert_eq!(burn.apply_module_burn(&mut p, netuid + 1), Ok(()));
    assert!(p.subnet_params(netuid + 1).is_none());
    let mut bad = burn;
    bad.adjustment_alpha = 0;
    assert_eq!(bad.apply_module_burn(&mut p, netuid + 1), Err(Error::InvalidAdjustmentAlpha));
    assert_eq!(burn.apply_module_burn(&mut p, netuid), Ok(()));
    assert_eq!(p.subnet_params(netuid).unwrap().module_burn_config, burn);
}

#[test]
fn applying_to_a_new_netuid_opens_its_subnet() {
    let mut p = setup();
    let netuid = p.get_netuid_for_name(b"alpha").unwrap();
    let mut params = p.subnet_params(netuid).unwrap();
    params.name = b"delta".to_vec();
    params.tempo = 360;
    let target = netuid + 5;
    let ctx = p.validation_context_for(Some(target), &params.name);
    let cs = SubnetChangeset::update(target, params, &ctx).unwrap();
    assert_eq!(cs.apply(&mut p, target), Ok(()));
    let stored = p.subnet_params(target).unwrap();
    assert_eq!(stored.name, b"delta".to_vec());
    assert_eq!(stored.tempo, 360);
    assert_eq!(p.get_uids(target), Vec::<u16>::new());
}

#[test]
fn calls_deposit_their_events() {
    let mut p = setup();
    let netuid = p.get_netuid_for_name(b"alpha").unwrap();
    let n = p.events.len();
    assert_eq!(p.do_add_stake(ALICE, MODULE, 400), Ok(()));
    assert_eq!(p.events[n], Event::StakeAdded(ALICE, MODULE, 400));
    assert_eq!(p.do_transfer_stake(ALICE, MODULE, OTHER_MODULE, 100), Ok(()));
    assert_eq!(p.events[n + 1], Event::StakeRemoved(ALICE, MODULE, 100));
    assert_eq!(p.events[n + 2], Event::StakeAdded(ALICE, OTHER_MODULE, 100));
    assert_eq!(p.do_remove_stake(ALICE, 77, 1), Err(Error::NotRegistered));
    assert_eq!(p.events.len(), n + 3);
    assert_eq!(p.do_deregister(MODULE, netuid, &vec![]), Ok(()));
    assert_eq!(p.events[n + 3], Event::ModuleDeregistered(netuid, 0, MODULE));
    assert_eq!(p.do_register(ALICE, b"beta".to_vec(), b"m3".to_vec(), b"1.2.3.6:80".to_vec(), 12, None, &hooks()), Ok(()));
    let beta = p.get_netuid_for_name(b"beta").unwrap();
    assert_eq!(
        p.events[n + 4..].to_vec(),
        vec![Event::SubnetParamsUpdated(beta), Event::NetworkAdded(beta, b"beta".to_vec()), Event::ModuleRegistered(beta, 0, 12)]
    );
    let mut g = p.global_params();
    g.max_allowed_weights = 400;
    assert_eq!(p.set_global_params(g), Ok(()));
    assert_eq!(p.events.last(), Some(&Event::GlobalParamsUpdated(g)));
}

#[test]
fn staking_many_deposits_an_event_per_module() {
    let mut p = setup();
    let n = p.events.len();
    assert_eq!(p.do_add_stake_multiple(ALICE, vec![MODULE, OTHER_MODULE], vec![10, 20]), Ok(()));
    assert_eq!(p.events[n..].to_vec(), vec![Event::StakeAdded(ALICE, MODULE, 10), Event::StakeAdded(ALICE, OTHER_MODULE, 20)]);
    assert_eq!(p.do_remove_stake_multiple(ALICE, vec![MODULE, OTHER_MODULE], vec![10, 21]), Err(Error::NotEnoughStaketoWithdraw));
    assert_eq!(p.events.len(), n + 2);
}

#[test]
fn long_profit_share_lists_go_round_their_length_as_u16() {
    let p = setup();
    let mut ps = ProfitShares::new();
    let n: usize = 65_537;
    let keys: Vec<u64> = (0..n as u64).collect();
    assert_eq!(ps.do_add_profit_shares(&p, MODULE, keys, vec![1; n]), Ok(()));
    let shares = ps.get_profit_shares(MODULE);
    // every share rounds down to zero and 65_537 as u16 is 1: the first share takes the whole unit
    assert_eq!(shares[0], (0, 65_535));
    assert!(shares[1..].iter().all(|(_, s)| *s == 0));
}
