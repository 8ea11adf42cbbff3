use subspace::events::Event;
use subspace::balances::Balances;
use subspace::bridge::Bridged;
use subspace::burn::{BurnType, GeneralBurnConfiguration};
use subspace::config::PalletConfig;
use subspace::errors::Error;
use subspace::params::{GlobalParams, GovernanceConfiguration, MinimumFees, VoteMode};
use subspace::percent::Percent;
use subspace::state::Subspace;
use subspace::voting::{ApplicationStatus, Curation};

fn config() -> PalletConfig {
    PalletConfig {
        default_max_registrations_per_interval: 42,
        default_max_subnet_registrations_per_interval: 2,
        default_module_min_burn: 1_000,
        default_subnet_min_burn: 5_000,
        default_min_validator_stake: 0,
        default_use_weights_encryption: false,
        max_encryption_duration: 10_800,
    }
}

fn governance() -> GovernanceConfiguration {
    GovernanceConfiguration {
        proposal_cost: 1_000,
        proposal_expiration: 130_000,
        vote_mode: VoteMode::Vote,
        proposal_reward_treasury_allocation: Percent { parts: 50 },
        max_proposal_reward_treasury_allocation: 1_000,
        proposal_reward_interval: 75_600,
    }
}

fn global() -> GlobalParams {
    GlobalParams {
        max_name_length: 32,
        min_name_length: 2,
        max_allowed_subnets: 8,
        max_allowed_modules: 10_000,
        max_registrations_per_block: 10,
        max_allowed_weights: 420,
        floor_stake_delegation_fee: Percent { parts: 5 },
        floor_validator_weight_fee: Percent { parts: 4 },
        floor_founder_share: 8,
        min_weight_stake: 0,
        curator: 9,
        general_subnet_application_cost: 1_000,
        subnet_immunity_period: 32_400,
        governance_config: governance(),
        kappa: 32_767,
        rho: 10,
    }
}

fn pallet() -> Subspace {
    let cfg = config();
    let min_fees = MinimumFees { stake_delegation_fee: Percent { parts: 5 }, validator_weight_fee: Percent { parts: 4 } };
    Subspace::new(cfg, global(), 1, min_fees, GeneralBurnConfiguration::subnet_burn_default(&cfg))
}

#[test]
fn global_params_round_trip() {
    let mut p = pallet();
    let mut g = global();
    g.max_allowed_subnets = 20;
    g.floor_stake_delegation_fee = Percent { parts: 7 };
    assert_eq!(p.set_global_params(g), Ok(()));
    assert_eq!(p.global_params(), g);
    assert_eq!(p.min_fees.stake_delegation_fee.parts, 7);
}

#[test]
fn global_params_are_checked() {
    let mut p = pallet();
    let cases: Vec<(GlobalParams, Error)> = vec![
        (GlobalParams { max_name_length: 0, ..global() }, Error::InvalidMaxNameLength),
        (GlobalParams { min_name_length: 32, ..global() }, Error::InvalidMinNameLenght),
        (GlobalParams { floor_stake_delegation_fee: Percent { parts: 4 }, ..global() }, Error::InvalidMinFees),
        (GlobalParams { floor_validator_weight_fee: Percent { parts: 3 }, ..global() }, Error::InvalidMinFees),
        (GlobalParams { max_allowed_subnets: 0, ..global() }, Error::InvalidMaxAllowedSubnets),
        (GlobalParams { max_allowed_modules: 0, ..global() }, Error::InvalidMaxAllowedModules),
        (GlobalParams { max_registrations_per_block: 0, ..global() }, Error::InvalidMaxRegistrationsPerBlock),
        (GlobalParams { max_allowed_weights: 0, ..global() }, Error::InvalidMaxAllowedWeights),
        (GlobalParams { general_subnet_application_cost: 0, ..global() }, Error::InvalidGeneralSubnetApplicationCost),
        (
            GlobalParams { governance_config: GovernanceConfiguration { proposal_expiration: 100, ..governance() }, ..global() },
            Error::InvalidProposalExpiration,
        ),
        (GlobalParams { floor_founder_share: 0, ..global() }, Error::InvalidFloorFounderShare),
        (GlobalParams { floor_founder_share: 101, ..global() }, Error::InvalidFloorFounderShare),
        (GlobalParams { subnet_immunity_period: 0, ..global() }, Error::InvalidSubnetImmunityPeriod),
        (GlobalParams { kappa: 0, ..global() }, Error::InvalidKappa),
        (GlobalParams { rho: 0, ..global() }, Error::InvalidRho),
    ];
    for (params, err) in cases {
        assert_eq!(p.set_global_params(params), Err(err));
        assert_eq!(p.global_params(), global());
    }
}

#[test]
fn global_state_reports_the_counters() {
    let p = pallet();
    let s = p.get_global_state();
    assert_eq!(s.registrations_per_block, 0);
    assert_eq!(s.total_subnets, 0);
}

#[test]
fn burn_defaults_by_type() {
    let cfg = config();
    assert_eq!(GeneralBurnConfiguration::default_for(&cfg, BurnType::Module), GeneralBurnConfiguration::module_burn_default(&cfg));
    assert_eq!(GeneralBurnConfiguration::default_for(&cfg, BurnType::Subnet), GeneralBurnConfiguration::subnet_burn_default(&cfg));
    let m = GeneralBurnConfiguration::module_burn_default(&cfg);
    assert_eq!(m.min_burn, 1_000);
    assert_eq!(m.max_burn, 150_000_000_000);
    assert_eq!(m.target_registrations_interval, 142);
    assert_eq!(m.target_registrations_per_interval, 3);
    assert_eq!(m.max_registrations_per_interval, 42);
}

#[test]
fn module_burn_configuration_is_checked() {
    let cfg = config();
    let m = GeneralBurnConfiguration::module_burn_default(&cfg);
    assert_eq!(m.validate_module_burn(&cfg), Ok(()));
    assert_eq!(GeneralBurnConfiguration { min_burn: 999, ..m }.validate_module_burn(&cfg), Err(Error::InvalidMinBurn));
    assert_eq!(GeneralBurnConfiguration { max_burn: 1_000, ..m }.validate_module_burn(&cfg), Err(Error::InvalidMaxBurn));
    assert_eq!(GeneralBurnConfiguration { adjustment_alpha: 0, ..m }.validate_module_burn(&cfg), Err(Error::InvalidAdjustmentAlpha));
    assert_eq!(
        GeneralBurnConfiguration { target_registrations_interval: 9, ..m }.validate_module_burn(&cfg),
        Err(Error::InvalidTargetRegistrationsInterval)
    );
    assert_eq!(
        GeneralBurnConfiguration { target_registrations_per_interval: 0, ..m }.validate_module_burn(&cfg),
        Err(Error::InvalidTargetRegistrationsPerInterval)
    );
    assert_eq!(
        GeneralBurnConfiguration { max_registrations_per_interval: 2, ..m }.validate_module_burn(&cfg),
        Err(Error::InvalidMaxRegistrationsPerInterval)
    );
}

#[test]
fn percent_from_parts_caps_at_one_hundred() {
    assert_eq!(Percent::from_parts(40).parts, 40);
    assert_eq!(Percent::from_parts(200).parts, 100);
}

#[test]
fn application_pays_and_is_pending() {
    let mut c = Curation::new();
    let mut ev: Vec<Event> = Vec::new();
    let mut b = Balances::new(1);
    b.set_balance(5, 5_000);
    assert_eq!(c.get_next_application_id(), 0);
    assert_eq!(c.do_add_dao_application(&mut b, &mut ev, 1_000, 5, 6, b"please".to_vec()), Ok(()));
    assert_eq!(b.get_balance(5), 4_000);
    assert_eq!(c.applications.len(), 1);
    assert_eq!(c.applications[0].id, 0);
    assert_eq!(c.applications[0].user_id, 6);
    assert_eq!(c.applications[0].paying_for, 5);
    assert_eq!(c.applications[0].status, ApplicationStatus::Pending);
    assert_eq!(c.get_next_application_id(), 1);
    assert_eq!(ev, vec![Event::ApplicationCreated(0)]);
}

#[test]
fn application_data_is_checked() {
    let mut c = Curation::new();
    let mut ev: Vec<Event> = Vec::new();
    let mut b = Balances::new(1);
    b.set_balance(5, 5_000);
    assert_eq!(c.do_add_dao_application(&mut b, &mut ev, 1_000, 5, 6, vec![]), Err(Error::ApplicationTooSmall));
    assert_eq!(c.do_add_dao_application(&mut b, &mut ev, 1_000, 5, 6, vec![b'a'; 257]), Err(Error::ApplicationTooLarge));
    assert_eq!(c.do_add_dao_application(&mut b, &mut ev, 1_000, 5, 6, vec![0xff, 0xfe]), Err(Error::InvalidApplication));
    assert_eq!(c.do_add_dao_application(&mut b, &mut ev, 1_000, 7, 6, b"hi".to_vec()), Err(Error::NotEnoughtBalnceToApply));
    assert_eq!(c.do_add_dao_application(&mut b, &mut ev, 5_000, 5, 6, b"hi".to_vec()), Err(Error::BalanceNotRemoved));
    assert_eq!(b.get_balance(5), 5_000);
    assert_eq!(c.applications.len(), 0);
}

#[test]
fn only_the_curator_refuses_pending_applications() {
    let mut c = Curation::new();
    let mut ev: Vec<Event> = Vec::new();
    let mut b = Balances::new(1);
    b.set_balance(5, 5_000);
    assert_eq!(c.add_application(&mut b, &mut ev, 1_000, 5, 6, b"x".to_vec()), Ok(()));
    assert_eq!(c.do_refuse_dao_application(9, 5, 0), Err(Error::NotCurator));
    assert_eq!(c.do_refuse_dao_application(9, 9, 3), Err(Error::ApplicationNotFound));
    assert_eq!(c.do_refuse_dao_application(9, 9, 0), Ok(()));
    assert_eq!(c.applications[0].status, ApplicationStatus::Refused);
    assert_eq!(c.do_refuse_dao_application(9, 9, 0), Err(Error::ApplicationNotPending));
}

#[test]
fn executing_an_application_pays_the_cost_back() {
    let mut c = Curation::new();
    let mut ev: Vec<Event> = Vec::new();
    let mut b = Balances::new(1);
    b.set_balance(5, 5_000);
    assert_eq!(c.add_application(&mut b, &mut ev, 1_000, 5, 6, b"x".to_vec()), Ok(()));
    assert_eq!(b.get_balance(5), 4_000);
    assert_eq!(c.execute_application(&mut b, 6), Ok(()));
    assert_eq!(b.get_balance(5), 5_000);
    assert_eq!(c.applications[0].status, ApplicationStatus::Accepted);
    assert_eq!(c.execute_application(&mut b, 8), Err(Error::ApplicationNotFound));
}

#[test]
fn application_ids_grow() {
    let mut c = Curation::new();
    let mut ev: Vec<Event> = Vec::new();
    let mut b = Balances::new(1);
    b.set_balance(5, 5_000);
    assert_eq!(c.add_application(&mut b, &mut ev, 10, 5, 6, b"x".to_vec()), Ok(()));
    assert_eq!(c.add_application(&mut b, &mut ev, 10, 5, 7, b"y".to_vec()), Ok(()));
    assert_eq!(c.applications[1].id, 1);
    assert_eq!(c.get_next_application_id(), 2);
}

#[test]
fn bridged_tokens_come_back() {
    let mut b = Balances::new(1);
    b.set_balance(5, 1_000);
    let mut br = Bridged::new();
    let mut ev: Vec<Event> = Vec::new();
    assert_eq!(br.bridge(&mut b, &mut ev, 5, 400), Ok(()));
    assert_eq!(b.get_balance(5), 600);
    assert_eq!(br.get_bridged(5), 400);
    assert_eq!(br.bridge_withdraw(&mut b, &mut ev, 5, 400), Ok(()));
    assert_eq!(b.get_balance(5), 1_000);
    assert_eq!(br.get_bridged(5), 0);
    assert_eq!(ev, vec![Event::Bridged(5, 400), Event::BridgeWithdrawn(5, 400)]);
}

#[test]
fn bridging_is_checked() {
    let mut b = Balances::new(1);
    b.set_balance(5, 1_000);
    let mut br = Bridged::new();
    let mut ev: Vec<Event> = Vec::new();
    assert_eq!(br.bridge(&mut b, &mut ev, 5, 1_001), Err(Error::NotEnoughBalance));
    assert_eq!(br.bridge(&mut b, &mut ev, 5, 0), Err(Error::NotEnoughBalance));
    assert_eq!(br.bridge(&mut b, &mut ev, 5, 1_000), Err(Error::BalanceNotRemoved));
    assert_eq!(br.bridge_withdraw(&mut b, &mut ev, 5, 1), Err(Error::NotEnoughBridgedTokens));
    assert_eq!(br.bridge(&mut b, &mut ev, 5, 10), Ok(()));
    assert_eq!(br.bridge_withdraw(&mut b, &mut ev, 5, 0), Err(Error::NotEnoughBridgedTokens));
    assert_eq!(br.bridge_withdraw(&mut b, &mut ev, 5, 11), Err(Error::NotEnoughBridgedTokens));
    assert_eq!(b.get_balance(5), 990);
    assert_eq!(ev, vec![Event::Bridged(5, 10)]);
}
