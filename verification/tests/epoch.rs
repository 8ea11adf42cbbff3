use subspace::block_step::{adjust_burn, adjust_burn_parameters, blocks_until_next_epoch, has_enough_stake_for_consensus};
use subspace::burn::GeneralBurnConfiguration;
use subspace::epoch::{calculate_emission_ratios, calculate_founder_emission, check_weight_validity, get_current_weight_age};
use subspace::fixed::{I32F32, I64F64};
use subspace::percent::Percent;
use subspace::serving::{get_ip_type, is_valid_ip_address};
use subspace::signed_extension::{get_priority_vanilla, CallType};

const ONE32: i64 = 1 << 32;
const ONE64: i128 = 1 << 64;

#[test]
fn founder_takes_its_share_of_the_emission() {
    assert_eq!(calculate_founder_emission(50, 1_000), (500, 500));
    // a tenth is not exact in binary: the founder's part rounds down
    assert_eq!(calculate_founder_emission(10, 1_000), (901, 99));
    assert_eq!(calculate_founder_emission(0, 1_000), (1_000, 0));
    // the share is capped at 100 percent
    assert_eq!(calculate_founder_emission(250, 1_000), (0, 1_000));
}

#[test]
fn emission_ratios_split_by_the_incentive_ratio() {
    let half = I32F32 { bits: ONE32 / 2 };
    let quarter = I32F32 { bits: ONE32 / 4 };
    let (inc, div) = calculate_emission_ratios(&[half, quarter], &[quarter], 1_000, 50);
    assert_eq!(inc, vec![I64F64 { bits: 250 * ONE64 }, I64F64 { bits: 125 * ONE64 }]);
    assert_eq!(div, vec![I64F64 { bits: 125 * ONE64 }]);
    let (inc, div) = calculate_emission_ratios(&[half], &[half], 1_000, 100);
    assert_eq!(inc, vec![I64F64 { bits: 500 * ONE64 }]);
    assert_eq!(div, vec![I64F64 { bits: 0 }]);
}

#[test]
fn epoch_comes_when_block_plus_netuid_divides_by_tempo() {
    assert_eq!(blocks_until_next_epoch(1, 100, 99), 0);
    assert_eq!(blocks_until_next_epoch(1, 100, 98), 99);
    assert_eq!(blocks_until_next_epoch(0, 100, 250), 50);
    assert_eq!(blocks_until_next_epoch(3, 0, 250), 1000);
    assert_eq!(blocks_until_next_epoch(5, 7, u64::MAX), u64::MAX % 7);
}

#[test]
fn burn_moves_towards_the_registration_demand() {
    // no smoothing: the burn follows demand, (6 + 3) / (2 * 3) of the current burn
    assert_eq!(adjust_burn(1_000, 6, 3, 0, 100, 100_000), 1_500);
    // full smoothing: the burn stays
    assert_eq!(adjust_burn(1_000, 6, 3, u64::MAX, 100, 100_000), 1_000);
    // clamped to the bounds
    assert_eq!(adjust_burn(1_000, 6, 3, 0, 100, 1_200), 1_200);
    assert_eq!(adjust_burn(1_000, 0, 3, 0, 900, 100_000), 900);
    // no registrations and no target: the target burn is zero
    assert_eq!(adjust_burn(1_000, 0, 0, 0, 10, 100_000), 10);
}

#[test]
fn burn_adjusts_only_at_the_end_of_an_interval() {
    let cfg = GeneralBurnConfiguration {
        min_burn: 100,
        max_burn: 100_000,
        adjustment_alpha: 0,
        target_registrations_interval: 10,
        target_registrations_per_interval: 3,
        max_registrations_per_interval: 5,
    };
    assert_eq!(adjust_burn_parameters(20, &cfg, 6, 1_000), Some(1_500));
    assert_eq!(adjust_burn_parameters(21, &cfg, 6, 1_000), None);
    let never = GeneralBurnConfiguration { target_registrations_interval: 0, ..cfg };
    assert_eq!(adjust_burn_parameters(20, &never, 6, 1_000), None);
}

#[test]
fn consensus_needs_the_stake_threshold() {
    assert!(has_enough_stake_for_consensus(30, 100, Percent { parts: 30 }));
    assert!(!has_enough_stake_for_consensus(30, 100, Percent { parts: 31 }));
    assert!(!has_enough_stake_for_consensus(30, 0, Percent { parts: 0 }));
    assert!(has_enough_stake_for_consensus(100, 100, Percent { parts: 100 }));
}

#[test]
fn weight_age_counts_blocks_since_the_last_update() {
    assert_eq!(get_current_weight_age(&[5, 40], 100, 1), 60);
    assert_eq!(get_current_weight_age(&[5, 40], 100, 2), 0);
    assert_eq!(get_current_weight_age(&[500], 100, 0), 0);
}

#[test]
fn weights_too_old_or_too_few_are_dropped() {
    let stake = vec![I64F64 { bits: 50 * ONE64 }];
    let w = vec![(0u16, 10u16), (1u16, 20u16)];
    assert_eq!(check_weight_validity(11, 10, 1, 5, &w, &stake, 100, I64F64 { bits: 0 }, 2, 0), (true, vec![]));
    assert_eq!(check_weight_validity(5, 10, 3, 5, &w, &stake, 100, I64F64 { bits: 0 }, 2, 0), (true, vec![]));
    assert_eq!(check_weight_validity(5, 10, 1, 5, &w, &stake, 100, I64F64 { bits: 0 }, 2, 0), (false, w.clone()));
    // a weight on a missing module cuts the list there
    let w3 = vec![(0u16, 10u16), (7u16, 20u16), (1u16, 5u16)];
    assert_eq!(check_weight_validity(5, 10, 1, 5, &w3, &stake, 100, I64F64 { bits: 0 }, 2, 0), (true, vec![(0u16, 10u16)]));
}

#[test]
fn addresses_served_must_be_public_ipv4() {
    assert_eq!(get_ip_type(0x0102_0304), 4);
    assert_eq!(get_ip_type(1u128 << 40), 6);
    assert!(is_valid_ip_address(0x0102_0304));
    assert!(!is_valid_ip_address(0));
    assert!(!is_valid_ip_address(0x7f00_0001));
    assert!(!is_valid_ip_address(0xffff_ffff));
    assert!(!is_valid_ip_address(1u128 << 40));
}

#[test]
fn priority_is_block_plus_balance() {
    assert_eq!(get_priority_vanilla(5, 10), 15);
    assert_eq!(get_priority_vanilla(5, u64::MAX), u64::MAX);
    let c: CallType = Default::default();
    assert_eq!(c, CallType::Other);
}
