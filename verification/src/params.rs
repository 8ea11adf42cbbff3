//! Global, subnet and module parameters, and the rules that validate them.
use vstd::prelude::*;
use crate::burn::{GeneralBurnConfiguration, spec_module_burn_default};
use crate::config::PalletConfig;
use crate::errors::Error;
use crate::fixed::{I64F64, scale64};
use crate::percent::Percent;

verus! {

/// Whether a byte string is well-formed UTF-8, as `core::str::from_utf8` decides.
pub uninterp spec fn utf8_valid(bytes: Seq<u8>) -> bool;

/// Whether a byte string is well-formed UTF-8 (`core::str::from_utf8(..).is_ok()`).
#[verifier::external_body]
pub(crate) fn is_utf8(bytes: &[u8]) -> (r: bool)
    ensures
        r == utf8_valid(bytes@),
{
    core::str::from_utf8(bytes).is_ok()
}

/// `Ok(())` when no rule is broken, otherwise the error of the first rule broken.
pub open spec fn as_result(e: Option<Error>) -> Result<(), Error> {
    match e {
        Some(err) => Err(err),
        None => Ok(()),
    }
}

/// How a subnet's proposals are decided.
#[derive(Clone, Copy, Debug, PartialEq, Eq, Structural)]
pub enum VoteMode {
    Authority,
    Vote,
}

/// Governance settings of the network or of a subnet.
#[derive(Clone, Copy, Debug, PartialEq, Eq, Structural)]
pub struct GovernanceConfiguration {
    pub proposal_cost: u64,
    pub proposal_expiration: u32,
    pub vote_mode: VoteMode,
    pub proposal_reward_treasury_allocation: Percent,
    pub max_proposal_reward_treasury_allocation: u64,
    pub proposal_reward_interval: u64,
}

/// The lowest fees the network accepts.
#[derive(Clone, Copy, Debug, PartialEq, Eq, Structural)]
pub struct MinimumFees {
    /// Minimum fee for stake delegation
    pub stake_delegation_fee: Percent,
    /// Minimum fee for validator weight delegation
    pub validator_weight_fee: Percent,
}

/// The fees a validator charges.
#[derive(Clone, Copy, Debug, PartialEq, Eq, Structural)]
pub struct ModuleFees {
    /// Fee charged when delegators delegate their stake
    pub stake_delegation_fee: Percent,
    /// Fee charged when validators delegate their weight-setting authority
    pub validator_weight_fee: Percent,
}

/// Default stake-delegation fee, in percent.
pub const STAKE_DELEGATION_DEFAULT: u8 = 5;
/// Default validator weight-delegation fee, in percent.
pub const VALIDATOR_WEIGHT_DEFAULT: u8 = 4;

/// The default lowest fees.
pub fn default_minimum_fees() -> (r: MinimumFees)
    ensures
        r.stake_delegation_fee.parts == STAKE_DELEGATION_DEFAULT,
        r.validator_weight_fee.parts == VALIDATOR_WEIGHT_DEFAULT,
{
    MinimumFees {
        stake_delegation_fee: Percent { parts: STAKE_DELEGATION_DEFAULT },
        validator_weight_fee: Percent { parts: VALIDATOR_WEIGHT_DEFAULT },
    }
}

impl ModuleFees {
    /// The default fees of a validator.
    pub fn default_fees() -> (r: ModuleFees)
        ensures
            r.stake_delegation_fee.parts == STAKE_DELEGATION_DEFAULT,
            r.validator_weight_fee.parts == VALIDATOR_WEIGHT_DEFAULT,
    {
        ModuleFees {
            stake_delegation_fee: Percent { parts: STAKE_DELEGATION_DEFAULT },
            validator_weight_fee: Percent { parts: VALIDATOR_WEIGHT_DEFAULT },
        }
    }

    /// Creates fees that are at least the minimum fees.
    pub fn new(stake_delegation_fee: Percent, validator_weight_fee: Percent, min_fees: &MinimumFees) -> (r: Result<ModuleFees, Error>)
        ensures
            stake_delegation_fee.parts < min_fees.stake_delegation_fee.parts ==> r == Err::<ModuleFees, Error>(Error::InvalidMinDelegationFee),
            stake_delegation_fee.parts >= min_fees.stake_delegation_fee.parts
                && validator_weight_fee.parts < min_fees.validator_weight_fee.parts ==> r == Err::<ModuleFees, Error>(Error::InvalidMinDelegationFee),
            stake_delegation_fee.parts >= min_fees.stake_delegation_fee.parts
                && validator_weight_fee.parts >= min_fees.validator_weight_fee.parts
                ==> r == Ok::<ModuleFees, Error>(ModuleFees { stake_delegation_fee, validator_weight_fee }),
    {
        let fees = ModuleFees { stake_delegation_fee, validator_weight_fee };
        match fees.validate(min_fees) {
            Ok(()) => Ok(fees),
            Err(e) => Err(e),
        }
    }

    /// Checks that both fees are at least the minimum fees.
    pub fn validate(&self, min_fees: &MinimumFees) -> (r: Result<(), Error>)
        ensures
            r.is_ok() <==> (self.stake_delegation_fee.parts >= min_fees.stake_delegation_fee.parts
                && self.validator_weight_fee.parts >= min_fees.validator_weight_fee.parts),
            r.is_err() ==> r == Err::<(), Error>(Error::InvalidMinDelegationFee),
    {
        if self.stake_delegation_fee.parts < min_fees.stake_delegation_fee.parts {
            return Err(Error::InvalidMinDelegationFee);
        }
        if self.validator_weight_fee.parts < min_fees.validator_weight_fee.parts {
            return Err(Error::InvalidMinDelegationFee);
        }
        Ok(())
    }
}

/// The network-wide parameters.
#[derive(Clone, Copy, Debug, PartialEq, Eq, Structural)]
pub struct GlobalParams {
    /// max length of a network name
    pub max_name_length: u16,
    /// min length of a network name
    pub min_name_length: u16,
    /// max number of subnets allowed
    pub max_allowed_subnets: u16,
    /// max number of modules allowed per subnet
    pub max_allowed_modules: u16,
    /// max number of registrations per block
    pub max_registrations_per_block: u16,
    /// max number of weights per module
    pub max_allowed_weights: u16,
    /// min delegation fee
    pub floor_stake_delegation_fee: Percent,
    /// min weight-setting delegation fee
    pub floor_validator_weight_fee: Percent,
    /// min founder share
    pub floor_founder_share: u8,
    /// min weight stake required
    pub min_weight_stake: u64,
    pub curator: u64,
    pub general_subnet_application_cost: u64,
    pub subnet_immunity_period: u64,
    pub governance_config: GovernanceConfiguration,
    pub kappa: u16,
    pub rho: u16,
}

/// The first rule that new global parameters break, given the current ones.
pub open spec fn global_params_error(p: GlobalParams, old: GlobalParams) -> Option<Error> {
    if p.max_name_length == 0 {
        Some(Error::InvalidMaxNameLength)
    } else if p.min_name_length >= p.max_name_length {
        Some(Error::InvalidMinNameLenght)
    } else if p.floor_stake_delegation_fee.parts < old.floor_stake_delegation_fee.parts
        || p.floor_validator_weight_fee.parts < old.floor_validator_weight_fee.parts {
        Some(Error::InvalidMinFees)
    } else if p.max_allowed_subnets == 0 {
        Some(Error::InvalidMaxAllowedSubnets)
    } else if p.max_allowed_modules == 0 {
        Some(Error::InvalidMaxAllowedModules)
    } else if p.max_registrations_per_block == 0 {
        Some(Error::InvalidMaxRegistrationsPerBlock)
    } else if p.max_allowed_weights == 0 {
        Some(Error::InvalidMaxAllowedWeights)
    } else if p.general_subnet_application_cost == 0 {
        Some(Error::InvalidGeneralSubnetApplicationCost)
    } else if p.governance_config.proposal_expiration <= 100 {
        Some(Error::InvalidProposalExpiration)
    } else if p.floor_founder_share == 0 || p.floor_founder_share > 100 {
        Some(Error::InvalidFloorFounderShare)
    } else if p.subnet_immunity_period == 0 {
        Some(Error::InvalidSubnetImmunityPeriod)
    } else if p.kappa == 0 {
        Some(Error::InvalidKappa)
    } else if p.rho == 0 {
        Some(Error::InvalidRho)
    } else {
        None
    }
}

/// Checks new global parameters against the current ones: lengths, limits and
/// costs must be positive, the minimum name length below the maximum, the
/// fee floors may not decrease, proposals must last more than 100 blocks and
/// the founder-share floor lies in `1..=100`.
pub fn check_global_params(params: &GlobalParams, old_params: &GlobalParams) -> (r: Result<(), Error>)
    ensures
        r == as_result(global_params_error(*params, *old_params)),
{
    if params.max_name_length == 0 {
        return Err(Error::InvalidMaxNameLength);
    }
    if params.min_name_length >= params.max_name_length {
        return Err(Error::InvalidMinNameLenght);
    }
    let old_min_fees = MinimumFees {
        stake_delegation_fee: old_params.floor_stake_delegation_fee,
        validator_weight_fee: old_params.floor_validator_weight_fee,
    };
    if ModuleFees::new(params.floor_stake_delegation_fee, params.floor_validator_weight_fee, &old_min_fees).is_err() {
        return Err(Error::InvalidMinFees);
    }
    if params.floor_stake_delegation_fee.parts < old_params.floor_stake_delegation_fee.parts {
        return Err(Error::CannotDecreaseFee);
    }
    if params.floor_validator_weight_fee.parts < old_params.floor_validator_weight_fee.parts {
        return Err(Error::CannotDecreaseFee);
    }
    if params.max_allowed_subnets == 0 {
        return Err(Error::InvalidMaxAllowedSubnets);
    }
    if params.max_allowed_modules == 0 {
        return Err(Error::InvalidMaxAllowedModules);
    }
    if params.max_registrations_per_block == 0 {
        return Err(Error::InvalidMaxRegistrationsPerBlock);
    }
    if params.max_allowed_weights == 0 {
        return Err(Error::InvalidMaxAllowedWeights);
    }
    if params.general_subnet_application_cost == 0 {
        return Err(Error::InvalidGeneralSubnetApplicationCost);
    }
    if params.governance_config.proposal_expiration <= 100 {
        return Err(Error::InvalidProposalExpiration);
    }
    if params.floor_founder_share == 0 || params.floor_founder_share > 100 {
        return Err(Error::InvalidFloorFounderShare);
    }
    if params.subnet_immunity_period == 0 {
        return Err(Error::InvalidSubnetImmunityPeriod);
    }
    if params.kappa == 0 {
        return Err(Error::InvalidKappa);
    }
    if params.rho == 0 {
        return Err(Error::InvalidRho);
    }
    Ok(())
}

/// The global parameters as the first storage version of the pallet held
/// them.
#[derive(Clone, Debug, Default)]
pub struct OldGlobalParams {
    pub burn_rate: u16,
    pub max_name_length: u16,
    pub max_allowed_subnets: u16,
    pub max_allowed_modules: u16,
    pub max_registrations_per_block: u16,
    pub max_allowed_weights: u16,
    pub max_proposals: u64,
    pub min_burn: u64,
    pub min_stake: u64,
    pub min_weight_stake: u64,
    pub unit_emission: u64,
    pub tx_rate_limit: u64,
    pub vote_threshold: u16,
    pub vote_mode: Vec<u8>,
}

/// The parameters of one subnet.
#[derive(Clone, Debug)]
pub struct SubnetParams {
    pub founder: u64,
    pub founder_share: u16,
    pub immunity_period: u16,
    pub incentive_ratio: u16,
    pub max_allowed_uids: u16,
    pub max_allowed_weights: u16,
    pub min_allowed_weights: u16,
    pub max_weight_age: u64,
    pub name: Vec<u8>,
    pub metadata: Option<Vec<u8>>,
    pub tempo: u16,
    pub maximum_set_weight_calls_per_epoch: Option<u16>,
    pub bonds_ma: u64,
    pub module_burn_config: GeneralBurnConfiguration,
    pub min_validator_stake: u64,
    pub max_allowed_validators: Option<u16>,
    pub governance_config: GovernanceConfiguration,
    pub use_weights_encryption: bool,
    pub copier_margin: I64F64,
    pub max_encryption_period: Option<u64>,
}

/// The lowest tempo a subnet may have.
pub const MIN_TEMPO: u16 = 25;
/// The highest founder share, in percent.
pub const MAX_FOUNDER_SHARE: u16 = 100;
/// The highest incentive ratio, in percent.
pub const MAX_INCENTIVE_RATIO: u16 = 100;
/// The lowest number of weights a module must set.
pub const MIN_ALLOWED_WEIGHTS: u16 = 1;
/// The highest minimum validator stake.
pub const MAX_VALIDATOR_STAKE: u64 = 250_000_000_000_000;
/// The lowest cap on validators.
pub const MIN_ALLOWED_VALIDATORS: u16 = 10;
/// The lowest cap on set-weight calls per epoch.
pub const MIN_SET_WEIGHT_CALLS: u16 = 1;
/// The shortest weight-encryption period.
pub const MIN_ENCRYPTION_PERIOD: u64 = 360;

/// What the validation of subnet parameters reads besides the parameters.
#[derive(Clone, Copy, Debug, PartialEq, Eq, Structural)]
pub struct SubnetValidationContext {
    /// The global cap on weights per module.
    pub max_allowed_weights_global: u16,
    /// The lowest founder share, in percent.
    pub floor_founder_share: u8,
    /// The shortest allowed subnet name.
    pub min_name_length: u16,
    /// The longest allowed subnet name.
    pub max_name_length: u16,
    /// The number of modules of the subnet being updated (unused for a new one).
    pub current_modules: u16,
    /// The subnet that already carries the proposed name, if any.
    pub name_owner: Option<u16>,
    /// The longest weight-encryption period.
    pub max_encryption_duration: u64,
}

/// The first rule of the name check that a subnet name breaks.
pub open spec fn subnet_name_error(netuid: Option<u16>, name: Seq<u8>, ctx: SubnetValidationContext) -> Option<Error> {
    match ctx.name_owner {
        Some(id) => if netuid == Some(id) { None } else { Some(Error::SubnetNameAlreadyExists) },
        None => {
            if name.len() == 0 {
                Some(Error::InvalidSubnetName)
            } else if name.len() < ctx.min_name_length {
                Some(Error::SubnetNameTooShort)
            } else if name.len() > ctx.max_name_length {
                Some(Error::SubnetNameTooLong)
            } else if !utf8_valid(name) {
                Some(Error::InvalidSubnetName)
            } else {
                None
            }
        },
    }
}

/// The rules shared by both subnet validators, in their order, up to the
/// founder-share floor.
pub open spec fn subnet_common_error(netuid: Option<u16>, p: SubnetParams, ctx: SubnetValidationContext) -> Option<Error> {
    if p.min_allowed_weights > p.max_allowed_weights {
        Some(Error::InvalidMinAllowedWeights)
    } else if p.max_allowed_weights > ctx.max_allowed_weights_global {
        Some(Error::InvalidMaxAllowedWeights)
    } else if p.min_allowed_weights < MIN_ALLOWED_WEIGHTS {
        Some(Error::InvalidMinAllowedWeights)
    } else if p.metadata.is_some() && p.metadata.unwrap()@.len() == 0 {
        Some(Error::InvalidSubnetMetadata)
    } else if p.tempo < MIN_TEMPO {
        Some(Error::InvalidTempo)
    } else if p.max_weight_age <= p.tempo {
        Some(Error::InvalidMaxWeightAge)
    } else if p.max_allowed_uids == 0 {
        Some(Error::InvalidMaxAllowedUids)
    } else if p.founder_share > MAX_FOUNDER_SHARE || p.founder_share < ctx.floor_founder_share {
        Some(Error::InvalidFounderShare)
    } else if p.incentive_ratio > MAX_INCENTIVE_RATIO {
        Some(Error::InvalidIncentiveRatio)
    } else if netuid.is_some() && p.max_allowed_uids < ctx.current_modules {
        Some(Error::InvalidMaxAllowedUids)
    } else if p.min_validator_stake > MAX_VALIDATOR_STAKE {
        Some(Error::InvalidMinValidatorStake)
    } else {
        None
    }
}

/// Subnet parameters that either validator accepts keep every bound: weights
/// between one and the global cap with the minimum below the maximum, a
/// tempo of at least 25 blocks, a maximum weight age longer than the tempo,
/// room for at least one module, a founder share between the floor and 100,
/// an incentive ratio of at most 100 and a bounded minimum validator stake;
/// and parameters whose maximum weight age does not exceed their tempo are
/// refused by both.
pub proof fn accepted_subnet_params_keep_their_bounds(netuid: Option<u16>, p: SubnetParams, ctx: SubnetValidationContext)
    ensures
        validated_subnet_error(netuid, p, ctx) is None || changeset_error(netuid, p, ctx) is None ==> {
            &&& 1 <= p.min_allowed_weights <= p.max_allowed_weights <= ctx.max_allowed_weights_global
            &&& p.tempo >= 25
            &&& p.max_weight_age > p.tempo
            &&& p.max_allowed_uids >= 1
            &&& ctx.floor_founder_share <= p.founder_share <= 100
            &&& p.incentive_ratio <= 100
            &&& p.min_validator_stake <= MAX_VALIDATOR_STAKE
            &&& netuid is Some ==> p.max_allowed_uids >= ctx.current_modules
        },
        p.max_weight_age <= p.tempo ==> validated_subnet_error(netuid, p, ctx) is Some
            && changeset_error(netuid, p, ctx) is Some,
        p.tempo < 25 ==> validated_subnet_error(netuid, p, ctx) is Some && changeset_error(netuid, p, ctx) is Some,
{
}

/// The first rule that subnet parameters break under `ValidatedSubnetParams`.
pub open spec fn validated_subnet_error(netuid: Option<u16>, p: SubnetParams, ctx: SubnetValidationContext) -> Option<Error> {
    if subnet_common_error(netuid, p, ctx).is_some() {
        subnet_common_error(netuid, p, ctx)
    } else if p.max_allowed_validators.is_some() && p.max_allowed_validators.unwrap() < MIN_ALLOWED_VALIDATORS {
        Some(Error::InvalidMaxAllowedValidators)
    } else if p.maximum_set_weight_calls_per_epoch.is_some() && p.maximum_set_weight_calls_per_epoch.unwrap() < MIN_SET_WEIGHT_CALLS {
        Some(Error::InvalidMaximumSetWeightCallsPerEpoch)
    } else {
        subnet_name_error(netuid, p.name@, ctx)
    }
}

/// The first rule that subnet parameters break under `SubnetChangeset`.
pub open spec fn changeset_error(netuid: Option<u16>, p: SubnetParams, ctx: SubnetValidationContext) -> Option<Error> {
    if subnet_common_error(netuid, p, ctx).is_some() {
        subnet_common_error(netuid, p, ctx)
    } else if p.copier_margin.bits > scale64() {
        Some(Error::InvalidCopierMargin)
    } else if p.max_allowed_validators.is_some() && p.max_allowed_validators.unwrap() < MIN_ALLOWED_VALIDATORS {
        Some(Error::InvalidMaxAllowedValidators)
    } else if p.max_encryption_period.is_some() && (p.max_encryption_period.unwrap() < MIN_ENCRYPTION_PERIOD
        || p.max_encryption_period.unwrap() > ctx.max_encryption_duration) {
        Some(Error::InvalidMaxEncryptionPeriod)
    } else {
        subnet_name_error(netuid, p.name@, ctx)
    }
}

/// Checks a subnet name: it may keep the name it has; otherwise the name must
/// be free, non-empty, within the length bounds and valid UTF-8.
fn check_subnet_name(netuid: Option<u16>, name: &Vec<u8>, ctx: &SubnetValidationContext) -> (r: Result<(), Error>)
    ensures
        r == as_result(subnet_name_error(netuid, name@, *ctx)),
{
    match ctx.name_owner {
        Some(id) => {
            match netuid {
                Some(n) => if n == id { Ok(()) } else { Err(Error::SubnetNameAlreadyExists) },
                None => Err(Error::SubnetNameAlreadyExists),
            }
        },
        None => {
            if name.len() == 0 {
                return Err(Error::InvalidSubnetName);
            }
            if name.len() < ctx.min_name_length as usize {
                return Err(Error::SubnetNameTooShort);
            }
            if name.len() > ctx.max_name_length as usize {
                return Err(Error::SubnetNameTooLong);
            }
            if !is_utf8(name.as_slice()) {
                return Err(Error::InvalidSubnetName);
            }
            Ok(())
        },
    }
}

/// The checks shared by both subnet validators.
fn check_subnet_common(netuid: Option<u16>, p: &SubnetParams, ctx: &SubnetValidationContext) -> (r: Result<(), Error>)
    ensures
        r == as_result(subnet_common_error(netuid, *p, *ctx)),
{
    if p.min_allowed_weights > p.max_allowed_weights {
        return Err(Error::InvalidMinAllowedWeights);
    }
    if p.max_allowed_weights > ctx.max_allowed_weights_global {
        return Err(Error::InvalidMaxAllowedWeights);
    }
    if p.min_allowed_weights < MIN_ALLOWED_WEIGHTS {
        return Err(Error::InvalidMinAllowedWeights);
    }
    match &p.metadata {
        Some(meta) => {
            if meta.len() == 0 {
                return Err(Error::InvalidSubnetMetadata);
            }
        },
        None => {},
    }
    if p.tempo < MIN_TEMPO {
        return Err(Error::InvalidTempo);
    }
    if p.max_weight_age <= p.tempo as u64 {
        return Err(Error::InvalidMaxWeightAge);
    }
    if p.max_allowed_uids == 0 {
        return Err(Error::InvalidMaxAllowedUids);
    }
    if p.founder_share > MAX_FOUNDER_SHARE {
        return Err(Error::InvalidFounderShare);
    }
    if p.founder_share < ctx.floor_founder_share as u16 {
        return Err(Error::InvalidFounderShare);
    }
    if p.incentive_ratio > MAX_INCENTIVE_RATIO {
        return Err(Error::InvalidIncentiveRatio);
    }
    if p.max_allowed_weights > ctx.max_allowed_weights_global {
        return Err(Error::InvalidMaxAllowedWeights);
    }
    if netuid.is_some() && p.max_allowed_uids < ctx.current_modules {
        return Err(Error::InvalidMaxAllowedUids);
    }
    if p.min_validator_stake > MAX_VALIDATOR_STAKE {
        return Err(Error::InvalidMinValidatorStake);
    }
    Ok(())
}

/// Subnet parameters that passed validation.
#[derive(Clone, Debug)]
pub struct ValidatedSubnetParams {
    inner: SubnetParams,
}

impl ValidatedSubnetParams {
    /// The parameters inside.
    pub closed spec fn spec_inner(self) -> SubnetParams {
        self.inner
    }

    /// Validates subnet parameters for a new subnet (`netuid` is `None`) or
    /// for an update of subnet `netuid`.
    pub fn new(params: SubnetParams, netuid: Option<u16>, ctx: &SubnetValidationContext) -> (r: Result<ValidatedSubnetParams, Error>)
        ensures
            validated_subnet_error(netuid, params, *ctx).is_none() ==> r.is_ok() && r.unwrap().spec_inner() == params,
            validated_subnet_error(netuid, params, *ctx).is_some() ==>
                r == Err::<ValidatedSubnetParams, Error>(validated_subnet_error(netuid, params, *ctx).unwrap()),
    {
        match Self::validate(netuid, &params, ctx) {
            Ok(()) => Ok(ValidatedSubnetParams { inner: params }),
            Err(e) => Err(e),
        }
    }

    /// The parameters inside.
    pub fn into_inner(self) -> (r: SubnetParams)
        ensures
            r == self.spec_inner(),
    {
        self.inner
    }

    /// Checks subnet parameters: weight bounds, metadata, tempo and weight
    /// age, uid cap, shares and ratios, validator stake and cap, set-weight
    /// call cap and finally the name. Returns the first rule broken.
    pub fn validate(netuid: Option<u16>, params: &SubnetParams, ctx: &SubnetValidationContext) -> (r: Result<(), Error>)
        ensures
            r == as_result(validated_subnet_error(netuid, *params, *ctx)),
    {
        check_subnet_common(netuid, params, ctx)?;
        match params.max_allowed_validators {
            Some(max_validators) => {
                if max_validators < MIN_ALLOWED_VALIDATORS {
                    return Err(Error::InvalidMaxAllowedValidators);
                }
            },
            None => {},
        }
        match params.maximum_set_weight_calls_per_epoch {
            Some(max_calls) => {
                if max_calls < MIN_SET_WEIGHT_CALLS {
                    return Err(Error::InvalidMaximumSetWeightCallsPerEpoch);
                }
            },
            None => {},
        }
        check_subnet_name(netuid, &params.name, ctx)
    }
}

/// Subnet parameters validated for a new subnet or an update.
#[derive(Debug)]
pub struct SubnetChangeset {
    params: SubnetParams,
}

impl SubnetChangeset {
    /// The parameters inside.
    pub closed spec fn spec_params(self) -> SubnetParams {
        self.params
    }

    /// The parameters inside.
    pub fn params(&self) -> (r: &SubnetParams)
        ensures
            *r == self.spec_params(),
    {
        &self.params
    }

    /// The parameters inside, taken out.
    pub fn into_params(self) -> (r: SubnetParams)
        ensures
            r == self.spec_params(),
    {
        self.params
    }

    /// Validates the parameters of a new subnet.
    pub fn new(params: SubnetParams, ctx: &SubnetValidationContext) -> (r: Result<SubnetChangeset, Error>)
        ensures
            changeset_error(None, params, *ctx).is_none() ==> r.is_ok() && r.unwrap().spec_params() == params,
            changeset_error(None, params, *ctx).is_some() ==>
                r == Err::<SubnetChangeset, Error>(changeset_error(None, params, *ctx).unwrap()),
    {
        match Self::validate_params(None, &params, ctx) {
            Ok(()) => Ok(SubnetChangeset { params }),
            Err(e) => Err(e),
        }
    }

    /// Validates new parameters of subnet `netuid`.
    pub fn update(netuid: u16, params: SubnetParams, ctx: &SubnetValidationContext) -> (r: Result<SubnetChangeset, Error>)
        ensures
            changeset_error(Some(netuid), params, *ctx).is_none() ==> r.is_ok() && r.unwrap().spec_params() == params,
            changeset_error(Some(netuid), params, *ctx).is_some() ==>
                r == Err::<SubnetChangeset, Error>(changeset_error(Some(netuid), params, *ctx).unwrap()),
    {
        match Self::validate_params(Some(netuid), &params, ctx) {
            Ok(()) => Ok(SubnetChangeset { params }),
            Err(e) => Err(e),
        }
    }

    /// Checks subnet parameters: weight bounds, metadata, tempo and weight
    /// age, uid cap, shares and ratios, validator stake, copier margin (at most
    /// one), validator cap, encryption period and finally the name. Returns
    /// the first rule broken.
    pub fn validate_params(netuid: Option<u16>, params: &SubnetParams, ctx: &SubnetValidationContext) -> (r: Result<(), Error>)
        ensures
            r == as_result(changeset_error(netuid, *params, *ctx)),
    {
        check_subnet_common(netuid, params, ctx)?;
        if params.copier_margin.bits > 0x1_0000_0000_0000_0000 {
            return Err(Error::InvalidCopierMargin);
        }
        match params.max_allowed_validators {
            Some(max_validators) => {
                if max_validators < MIN_ALLOWED_VALIDATORS {
                    return Err(Error::InvalidMaxAllowedValidators);
                }
            },
            None => {},
        }
        match params.max_encryption_period {
            Some(period) => {
                if period < MIN_ENCRYPTION_PERIOD || period > ctx.max_encryption_duration {
                    return Err(Error::InvalidMaxEncryptionPeriod);
                }
            },
            None => {},
        }
        check_subnet_name(netuid, &params.name, ctx)
    }
}

/// The default parameters of a subnet, with the given founder-share floor and
/// founder; governance starts from `governance` with the vote decided by the
/// authority.
pub fn default_subnet_params(cfg: &PalletConfig, floor_founder_share: u8, founder: u64, governance: GovernanceConfiguration) -> (p: SubnetParams)
    ensures
        p.founder == founder,
        p.founder_share == floor_founder_share,
        p.immunity_period == 0,
        p.incentive_ratio == 50,
        p.max_allowed_uids == 420,
        p.max_allowed_weights == 420,
        p.min_allowed_weights == 1,
        p.max_weight_age == 3_600,
        p.name@.len() == 0,
        p.metadata.is_none(),
        p.tempo == 100,
        p.maximum_set_weight_calls_per_epoch.is_none(),
        p.bonds_ma == 900_000,
        p.module_burn_config == spec_module_burn_default(*cfg),
        p.min_validator_stake == cfg.default_min_validator_stake,
        p.max_allowed_validators.is_none(),
        p.governance_config == (GovernanceConfiguration { vote_mode: VoteMode::Authority, ..governance }),
        p.use_weights_encryption == cfg.default_use_weights_encryption,
        p.copier_margin.bits == 0,
        p.max_encryption_period.is_none(),
{
    SubnetParams {
        founder,
        founder_share: floor_founder_share as u16,
        immunity_period: 0,
        incentive_ratio: 50,
        max_allowed_uids: 420,
        max_allowed_weights: 420,
        min_allowed_weights: 1,
        max_weight_age: 3_600,
        name: Vec::new(),
        metadata: None,
        tempo: 100,
        maximum_set_weight_calls_per_epoch: None,
        bonds_ma: 900_000,
        module_burn_config: GeneralBurnConfiguration::module_burn_default(cfg),
        min_validator_stake: cfg.default_min_validator_stake,
        max_allowed_validators: None,
        governance_config: GovernanceConfiguration { vote_mode: VoteMode::Authority, ..governance },
        use_weights_encryption: cfg.default_use_weights_encryption,
        copier_margin: I64F64 { bits: 0 },
        max_encryption_period: None,
    }
}


/// Whether two byte strings are equal.
pub fn bytes_eq(a: &[u8], b: &[u8]) -> (r: bool)
    ensures
        r == (a@ == b@),
{
    if a.len() != b.len() {
        return false;
    }
    let mut i: usize = 0;
    while i < a.len()
        invariant
            a@.len() == b@.len(),
            i <= a@.len(),
            forall|k: int| 0 <= k < i ==> a@[k] == b@[k],
        decreases a@.len() - i,
    {
        if a[i] != b[i] {
            return false;
        }
        i = i + 1;
    }
    assert(a@ =~= b@);
    true
}

/// Changes to a module's parameters; `None` leaves a parameter as it is.
#[derive(Clone, Debug)]
pub struct ModuleParams {
    pub name: Option<Vec<u8>>,
    pub url: Option<Vec<u8>>,
    pub fees: Option<ModuleFees>,
    pub metadata: Option<Vec<u8>>,
}

/// The first rule that a module name breaks: it must be non-empty, within the
/// length bounds, valid UTF-8 and not taken by another module.
pub open spec fn module_name_error(name: Seq<u8>, min_length: int, max_length: int, existing: Seq<Vec<u8>>) -> Option<Error> {
    if name.len() == 0 {
        Some(Error::InvalidModuleName)
    } else if name.len() > max_length {
        Some(Error::ModuleNameTooLong)
    } else if name.len() < min_length {
        Some(Error::ModuleNameTooShort)
    } else if !utf8_valid(name) {
        Some(Error::InvalidModuleName)
    } else if exists|i: int| #![trigger existing[i]] 0 <= i < existing.len() && existing[i]@ == name {
        Some(Error::ModuleNameAlreadyExists)
    } else {
        None
    }
}

/// The first rule that a module address breaks: it must be non-empty, at most
/// `max_length` long and valid UTF-8.
pub open spec fn module_url_error(url: Seq<u8>, max_length: int) -> Option<Error> {
    if url.len() == 0 {
        Some(Error::InvalidModuleAddress)
    } else if url.len() > max_length {
        Some(Error::ModuleAddressTooLong)
    } else if !utf8_valid(url) {
        Some(Error::InvalidModuleAddress)
    } else {
        None
    }
}

/// The longest module metadata.
pub const MAX_MODULE_METADATA: usize = 120;

/// The first rule that module metadata breaks: it must be non-empty, at most
/// 120 bytes and valid UTF-8.
pub open spec fn module_metadata_error(metadata: Seq<u8>) -> Option<Error> {
    if metadata.len() == 0 {
        Some(Error::InvalidModuleMetadata)
    } else if metadata.len() > MAX_MODULE_METADATA {
        Some(Error::ModuleMetadataTooLong)
    } else if !utf8_valid(metadata) {
        Some(Error::InvalidModuleMetadata)
    } else {
        None
    }
}

/// The first rule that module fees break: both must reach the minimum fees.
pub open spec fn module_fees_error(fees: ModuleFees, min_fees: MinimumFees) -> Option<Error> {
    if fees.stake_delegation_fee.parts < min_fees.stake_delegation_fee.parts
        || fees.validator_weight_fee.parts < min_fees.validator_weight_fee.parts {
        Some(Error::InvalidMinDelegationFee)
    } else {
        None
    }
}

/// The first rule that a module changeset breaks, checking the name, the
/// address, the fees and the metadata in that order.
pub open spec fn module_params_error(p: ModuleParams, min_length: int, max_length: int, existing: Seq<Vec<u8>>, min_fees: MinimumFees) -> Option<Error> {
    if p.name.is_some() && module_name_error(p.name.unwrap()@, min_length, max_length, existing).is_some() {
        module_name_error(p.name.unwrap()@, min_length, max_length, existing)
    } else if p.url.is_some() && module_url_error(p.url.unwrap()@, max_length).is_some() {
        module_url_error(p.url.unwrap()@, max_length)
    } else if p.fees.is_some() && module_fees_error(p.fees.unwrap(), min_fees).is_some() {
        module_fees_error(p.fees.unwrap(), min_fees)
    } else if p.metadata.is_some() {
        module_metadata_error(p.metadata.unwrap()@)
    } else {
        None
    }
}

/// The checks of module names, addresses, metadata and fees.
pub struct ModuleValidator;

impl ModuleValidator {
    /// Checks a module name against the length bounds and the names in use.
    pub fn validate_name(name: &[u8], min_length: usize, max_length: usize, existing: &[Vec<u8>]) -> (r: Result<(), Error>)
        ensures
            r == as_result(module_name_error(name@, min_length as int, max_length as int, existing@)),
    {
        if name.len() == 0 {
            return Err(Error::InvalidModuleName);
        }
        if name.len() > max_length {
            return Err(Error::ModuleNameTooLong);
        }
        if name.len() < min_length {
            return Err(Error::ModuleNameTooShort);
        }
        if !is_utf8(name) {
            return Err(Error::InvalidModuleName);
        }
        assert(utf8_valid(name@));
        let mut i: usize = 0;
        while i < existing.len()
            invariant
                i <= existing@.len(),
                forall|k: int| #![trigger existing@[k]] 0 <= k < i ==> existing@[k]@ != name@,
                utf8_valid(name@),
                0 < name@.len() <= max_length,
                name@.len() >= min_length,
            decreases existing@.len() - i,
        {
            if bytes_eq(existing[i].as_slice(), name) {
                assert(existing@[i as int]@ == name@);
                assert(module_name_error(name@, min_length as int, max_length as int, existing@) == Some(Error::ModuleNameAlreadyExists));
                return Err(Error::ModuleNameAlreadyExists);
            }
            i = i + 1;
        }
        Ok(())
    }

    /// Checks a module address against the length bound.
    pub fn validate_url(url: &[u8], max_length: usize) -> (r: Result<(), Error>)
        ensures
            r == as_result(module_url_error(url@, max_length as int)),
    {
        if url.len() == 0 {
            return Err(Error::InvalidModuleAddress);
        }
        if url.len() > max_length {
            return Err(Error::ModuleAddressTooLong);
        }
        if !is_utf8(url) {
            return Err(Error::InvalidModuleAddress);
        }
        Ok(())
    }

    /// Checks module metadata.
    pub fn validate_metadata(metadata: &[u8]) -> (r: Result<(), Error>)
        ensures
            r == as_result(module_metadata_error(metadata@)),
    {
        if metadata.len() == 0 {
            return Err(Error::InvalidModuleMetadata);
        }
        if metadata.len() > MAX_MODULE_METADATA {
            return Err(Error::ModuleMetadataTooLong);
        }
        if !is_utf8(metadata) {
            return Err(Error::InvalidModuleMetadata);
        }
        Ok(())
    }

    /// Checks module fees against the minimum fees.
    pub fn validate_fees(fees: &ModuleFees, min_fees: &MinimumFees) -> (r: Result<(), Error>)
        ensures
            r == as_result(module_fees_error(*fees, *min_fees)),
    {
        match fees.validate(min_fees) {
            Ok(()) => Ok(()),
            Err(_) => Err(Error::InvalidMinDelegationFee),
        }
    }
}

impl ModuleParams {
    /// A changeset that sets every parameter.
    pub fn new(name: Vec<u8>, url: Vec<u8>, fees: ModuleFees, metadata: Option<Vec<u8>>) -> (r: ModuleParams)
        ensures
            r.name == Some(name),
            r.url == Some(url),
            r.fees == Some(fees),
            r.metadata == metadata,
    {
        ModuleParams { name: Some(name), url: Some(url), fees: Some(fees), metadata }
    }

    /// A changeset from the current parameters: the name and address are only
    /// changed when they differ from the current ones.
    pub fn update(params: &ModuleParams, name: Vec<u8>, url: Vec<u8>, fees: Option<ModuleFees>, metadata: Option<Vec<u8>>) -> (r: ModuleParams)
        ensures
            r.name == (if params.name.is_some() && params.name.unwrap()@ == name@ { None } else { Some(name) }),
            r.url == (if params.url.is_some() && params.url.unwrap()@ == url@ { None } else { Some(url) }),
            r.fees == fees,
            r.metadata == metadata,
    {
        let same_name = match &params.name {
            Some(old) => bytes_eq(old.as_slice(), name.as_slice()),
            None => false,
        };
        let same_url = match &params.url {
            Some(old) => bytes_eq(old.as_slice(), url.as_slice()),
            None => false,
        };
        ModuleParams {
            name: if same_name { None } else { Some(name) },
            url: if same_url { None } else { Some(url) },
            fees,
            metadata,
        }
    }

    /// Checks the parameters that the changeset sets: the name and address
    /// against the name-length bounds (and the name against the names in
    /// use), the fees against the minimum fees and the metadata.
    pub fn validate(&self, min_length: u16, max_length: u16, existing: &[Vec<u8>], min_fees: &MinimumFees) -> (r: Result<(), Error>)
        ensures
            r == as_result(module_params_error(*self, min_length as int, max_length as int, existing@, *min_fees)),
    {
        match &self.name {
            Some(name) => ModuleValidator::validate_name(name.as_slice(), min_length as usize, max_length as usize, existing)?,
            None => {},
        }
        match &self.url {
            Some(url) => ModuleValidator::validate_url(url.as_slice(), max_length as usize)?,
            None => {},
        }
        match &self.fees {
            Some(fees) => ModuleValidator::validate_fees(fees, min_fees)?,
            None => {},
        }
        match &self.metadata {
            Some(metadata) => ModuleValidator::validate_metadata(metadata.as_slice())?,
            None => {},
        }
        Ok(())
    }
}

} // verus!
