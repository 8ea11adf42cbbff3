use subspace::burn::GeneralBurnConfiguration;
use subspace::config::PalletConfig;
use subspace::errors::Error;
use subspace::genesis::{GenesisModule, GenesisSubnet};
use subspace::params::{default_subnet_params, GlobalParams, GovernanceConfiguration, MinimumFees, SubnetChangeset, VoteMode};
use subspace::percent::Percent;
use subspace::state::Subspace;

fn config() -> PalletConfig {
    PalletConfig {
        default_max_registrations_per_interval: 42,
        default_max_subnet_registrations_per_interval: 2,
        default_module_min_burn: 10_000_000_000,
        default_subnet_min_burn: 2_000_000_000_000,
        default_min_validator_stake: 50_000_000_000_000,
        default_use_weights_encryption: false,
        max_encryption_duration: 10_800,
    }
}

fn governance() -> GovernanceConfiguration {
    GovernanceConfiguration {
        proposal_cost: 10_000_000_000_000,
        proposal_expiration: 130_000,
        vote_mode: VoteMode::Vote,
        proposal_reward_treasury_allocation: Percent { parts: 50 },
        max_proposal_reward_treasury_allocation: 10_000_000_000_000,
        proposal_reward_interval: 75_600,
    }
}

fn global(max_allowed_subnets: u16) -> GlobalParams {
    GlobalParams {
        max_name_length: 32,
        min_name_length: 2,
        max_allowed_subnets,
        max_allowed_modules: 10_000,
        max_registrations_per_block: 10,
        max_allowed_weights: 420,
        floor_stake_delegation_fee: Percent { parts: 5 },
        floor_validator_weight_fee: Percent { parts: 4 },
        floor_founder_share: 8,
        min_weight_stake: 0,
        curator: 0,
        general_subnet_application_cost: 1_000_000_000_000,
        subnet_immunity_period: 32_400,
        governance_config: governance(),
        kappa: 32_767,
        rho: 10,
    }
}

fn new_pallet(max_allowed_subnets: u16) -> Subspace {
    let cfg = config();
    let min_fees = MinimumFees { stake_delegation_fee: Percent { parts: 5 }, validator_weight_fee: Percent { parts: 4 } };
    Subspace::new(cfg, global(max_allowed_subnets), 1, min_fees, GeneralBurnConfiguration::subnet_burn_default(&cfg))
}

fn changeset(pallet: &Subspace, name: &[u8], founder: u64) -> SubnetChangeset {
    let mut params = default_subnet_params(&pallet.config, pallet.global.floor_founder_share, founder, governance());
    params.name = name.to_vec();
    let ctx = pallet.validation_context_for(None, name);
    SubnetChangeset::new(params, &ctx).unwrap()
}

#[test]
fn test_add_subnet_from_registration_success() {
    let mut pallet = new_pallet(1);

    let changeset1 = changeset(&pallet, b"test1", 1);
    assert!(pallet.add_subnet_from_registration(changeset1, None, &vec![]).is_ok());

    // the runtime names subnet 0 as the one with the lowest emission
    let changeset2 = changeset(&pallet, b"test2", 2);
    assert!(pallet.add_subnet_from_registration(changeset2, Some(0), &vec![0]).is_ok());

    assert_eq!(pallet.get_total_subnets(), 1);
    assert!(pallet.get_netuid_for_name(b"test1").is_none());
    assert!(pallet.get_netuid_for_name(b"test2").is_some());
}

#[test]
fn test_add_subnet_from_registration_protected_consensus() {
    let mut pallet = new_pallet(1);

    let changeset1 = changeset(&pallet, b"protected", 1);
    assert!(pallet.add_subnet(changeset1, None).is_ok());

    // the protected subnet cannot be deregistered: the runtime names none
    let changeset2 = changeset(&pallet, b"test", 2);
    assert_eq!(pallet.add_subnet_from_registration(changeset2, None, &vec![]), Err(Error::InvalidMaxAllowedSubnets));

    assert_eq!(pallet.get_total_subnets(), 1);
    assert!(pallet.get_netuid_for_name(b"protected").is_some());
}

#[test]
fn test_add_subnet_from_registration_below_max() {
    let mut pallet = new_pallet(2);

    let changeset1 = changeset(&pallet, b"test1", 1);
    assert!(pallet.add_subnet_from_registration(changeset1, None, &vec![]).is_ok());

    let changeset2 = changeset(&pallet, b"test2", 2);
    assert!(pallet.add_subnet_from_registration(changeset2, None, &vec![]).is_ok());

    assert_eq!(pallet.get_total_subnets(), 2);
    assert!(pallet.get_netuid_for_name(b"test1").is_some());
    assert!(pallet.get_netuid_for_name(b"test2").is_some());
}

#[test]
fn reused_netuid_after_removal_is_the_removed_one() {
    let mut pallet = new_pallet(1);
    let changeset1 = changeset(&pallet, b"first", 1);
    assert!(pallet.add_subnet_from_registration(changeset1, None, &vec![]).is_ok());
    let changeset2 = changeset(&pallet, b"second", 2);
    assert!(pallet.add_subnet_from_registration(changeset2, Some(0), &vec![0]).is_ok());
    assert_eq!(pallet.get_netuid_for_name(b"second"), Some(0));
}

#[test]
fn subnet_registration_requires_a_free_name() {
    let mut pallet = new_pallet(4);
    pallet.balances.set_balance(7, 10_000_000_000_000);
    assert!(pallet.do_register_subnet(7, b"alpha".to_vec(), None, governance(), None, &vec![]).is_ok());
    assert_eq!(
        pallet.do_register_subnet(7, b"alpha".to_vec(), None, governance(), None, &vec![]),
        Err(Error::SubnetNameAlreadyExists)
    );
}

#[test]
fn subnet_registration_burns_the_subnet_burn() {
    let mut pallet = new_pallet(4);
    let burn = pallet.subnet_burn;
    pallet.balances.set_balance(7, burn + 500);
    assert!(pallet.do_register_subnet(7, b"alpha".to_vec(), None, governance(), None, &vec![]).is_ok());
    assert_eq!(pallet.balances.get_balance(7), 500);
    assert_eq!(pallet.get_total_subnets(), 1);
}

#[test]
fn subnet_registration_without_funds_is_refused() {
    let mut pallet = new_pallet(4);
    pallet.balances.set_balance(7, 5);
    assert_eq!(
        pallet.do_register_subnet(7, b"alpha".to_vec(), None, governance(), None, &vec![]),
        Err(Error::NotEnoughBalanceToRegisterSubnet)
    );
    assert_eq!(pallet.get_total_subnets(), 0);
    assert_eq!(pallet.balances.get_balance(7), 5);
}

#[test]
fn subnet_registration_name_too_long() {
    let mut pallet = new_pallet(4);
    pallet.balances.set_balance(7, 10_000_000_000_000);
    let name = vec![b'a'; 257];
    assert_eq!(
        pallet.do_register_subnet(7, name, None, governance(), None, &vec![]),
        Err(Error::SubnetNameTooLong)
    );
}

#[test]
fn subnet_registration_at_limit_without_candidate() {
    let mut pallet = new_pallet(1);
    pallet.balances.set_balance(7, 10_000_000_000_000);
    assert!(pallet.do_register_subnet(7, b"alpha".to_vec(), None, governance(), None, &vec![]).is_ok());
    assert_eq!(
        pallet.do_register_subnet(7, b"beta".to_vec(), None, governance(), None, &vec![]),
        Err(Error::InvalidMaxAllowedSubnets)
    );
}

fn genesis_module(key: u64, name: &[u8], stake_from: Vec<(u64, u64)>) -> GenesisModule {
    GenesisModule { key, name: name.to_vec(), address: b"1.2.3.4:80".to_vec(), weights: None, stake_from }
}

fn genesis_subnet(name: &[u8], founder: u64, modules: Vec<GenesisModule>) -> GenesisSubnet {
    GenesisSubnet {
        name: name.to_vec(),
        founder,
        tempo: Some(360),
        immunity_period: None,
        min_allowed_weights: None,
        max_allowed_weights: None,
        max_allowed_uids: Some(1_000),
        modules,
    }
}

#[test]
fn genesis_builds_subnets_and_modules() {
    let mut pallet = new_pallet(8);
    let mut m2 = genesis_module(11, b"m2", vec![(5, 700)]);
    m2.weights = Some(vec![(0, 1)]);
    let subnets = vec![
        genesis_subnet(b"root", 1, vec![genesis_module(10, b"m1", vec![(5, 300), (6, 200)]), m2]),
        genesis_subnet(b"alpha", 2, vec![]),
    ];
    assert_eq!(pallet.build_genesis(&subnets, governance()), Ok(()));
    assert_eq!(pallet.get_total_subnets(), 2);
    assert_eq!(pallet.get_netuid_for_name(b"root"), Some(0));
    assert_eq!(pallet.get_netuid_for_name(b"alpha"), Some(1));
    assert_eq!(pallet.subnets[0].params.tempo, 360);
    assert_eq!(pallet.subnets[0].params.max_allowed_uids, 1_000);
    assert_eq!(pallet.subnets[0].params.immunity_period, 0);
    assert_eq!(pallet.get_uid_for_key(0, 10), Some(0));
    assert_eq!(pallet.get_uid_for_key(0, 11), Some(1));
    assert_eq!(pallet.subnets[0].weights[1], vec![(0, 1)]);
    assert_eq!(pallet.ledger.get_stake_to_module(5, 10), 300);
    assert_eq!(pallet.ledger.get_stake_to_module(6, 10), 200);
    assert_eq!(pallet.ledger.get_module_stake(10), 500);
    assert_eq!(pallet.ledger.get_module_stake(11), 700);
    assert_eq!(pallet.ledger.total_stake(), 1_200);
}

#[test]
fn genesis_refuses_repeated_module_keys() {
    let mut pallet = new_pallet(8);
    let subnets = vec![genesis_subnet(b"root", 1, vec![genesis_module(10, b"m1", vec![]), genesis_module(10, b"m2", vec![])])];
    assert_eq!(pallet.build_genesis(&subnets, governance()), Err(Error::KeyAlreadyRegistered));
}

#[test]
fn genesis_refuses_long_names_and_bad_parameters() {
    let mut pallet = new_pallet(8);
    let long = vec![b'a'; 257];
    assert_eq!(pallet.build_genesis(&vec![genesis_subnet(&long, 1, vec![])], governance()), Err(Error::SubnetNameTooLong));
    let mut bad = genesis_subnet(b"root", 1, vec![]);
    bad.tempo = Some(5);
    assert_eq!(pallet.build_genesis(&vec![bad], governance()), Err(Error::InvalidTempo));
    assert_eq!(pallet.get_total_subnets(), 0);
}

#[test]
fn module_stats_drop_zero_weights() {
    let mut pallet = new_pallet(8);
    let mut m2 = genesis_module(11, b"m2", vec![(5, 700)]);
    m2.weights = Some(vec![(0, 0), (1, 9), (0, 3)]);
    let subnets = vec![genesis_subnet(b"root", 1, vec![genesis_module(10, b"m1", vec![]), m2])];
    assert_eq!(pallet.build_genesis(&subnets, governance()), Ok(()));
    let stats = pallet.get_module_stats(0, 11);
    assert_eq!(stats.weights, vec![(1, 9), (0, 3)]);
    assert_eq!(stats.stake_from, vec![(5, 700), (11, 0)]);
    assert_eq!(pallet.get_module_stats(0, 10).weights, Vec::<(u16, u16)>::new());
}

#[test]
fn enough_stake_covers_stake_and_burn() {
    assert!(subspace::registration::enough_stake_to_register(10, 5, 15));
    assert!(!subspace::registration::enough_stake_to_register(10, 5, 14));
    assert!(subspace::registration::enough_stake_to_register(u64::MAX, 5, u64::MAX));
}

#[test]
fn registered_subnet_holds_the_default_parameters() {
    let mut pallet = new_pallet(4);
    pallet.balances.set_balance(7, 10_000_000_000_000);
    assert!(pallet.do_register_subnet(7, b"alpha".to_vec(), Some(b"meta".to_vec()), governance(), None, &vec![]).is_ok());
    let netuid = pallet.get_netuid_for_name(b"alpha").unwrap();
    let p = pallet.subnet_params(netuid).unwrap();
    assert_eq!(p.name, b"alpha".to_vec());
    assert_eq!(p.metadata, Some(b"meta".to_vec()));
    assert_eq!(p.founder, 7);
    assert_eq!(p.founder_share, 8);
    assert_eq!(p.immunity_period, 0);
    assert_eq!(p.incentive_ratio, 50);
    assert_eq!(p.max_allowed_uids, 420);
    assert_eq!(p.max_allowed_weights, 420);
    assert_eq!(p.min_allowed_weights, 1);
    assert_eq!(p.max_weight_age, 3_600);
    assert_eq!(p.tempo, 100);
    assert_eq!(p.maximum_set_weight_calls_per_epoch, None);
    assert_eq!(p.bonds_ma, 900_000);
    assert_eq!(p.min_validator_stake, 50_000_000_000_000);
    assert_eq!(p.max_allowed_validators, None);
    assert!(matches!(p.governance_config.vote_mode, VoteMode::Authority));
    assert_eq!(p.governance_config.proposal_cost, 10_000_000_000_000);
    assert!(!p.use_weights_encryption);
    assert_eq!(p.max_encryption_period, None);
}
