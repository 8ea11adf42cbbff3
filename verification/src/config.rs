//! The runtime constants the pallet is configured with.
use vstd::prelude::*;

verus! {

/// Constants that the runtime supplies to the pallet.
#[derive(Clone, Copy, Debug, PartialEq, Eq, Structural)]
pub struct PalletConfig {
    /// The default number of modules that can be registered per interval.
    pub default_max_registrations_per_interval: u16,
    /// The default number of subnets that can be registered per interval.
    pub default_max_subnet_registrations_per_interval: u16,
    /// The minimum burn for module registration.
    pub default_module_min_burn: u64,
    /// The minimum burn for subnet registration.
    pub default_subnet_min_burn: u64,
    /// The default minimum stake of a validator.
    pub default_min_validator_stake: u64,
    /// Whether subnets encrypt weights by default.
    pub default_use_weights_encryption: bool,
    /// The longest weight-encryption period a subnet may choose.
    pub max_encryption_duration: u64,
}

} // verus!
