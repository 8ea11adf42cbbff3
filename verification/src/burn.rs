//! Burn configuration of subnet and module registrations.
use vstd::prelude::*;
use crate::config::PalletConfig;
use crate::errors::Error;

verus! {

/// Bounds and tuning of the registration burn, used both for subnet
/// registration and, per subnet, for module registration.
#[derive(Clone, Copy, Debug, PartialEq, Eq, Structural)]
pub struct GeneralBurnConfiguration {
    /// min burn the adjustment algorithm can set
    pub min_burn: u64,
    /// max burn the adjustment algorithm can set
    pub max_burn: u64,
    /// the steepness with which the burn curve will increase every interval
    pub adjustment_alpha: u64,
    /// interval in blocks for the burn to be adjusted
    pub target_registrations_interval: u16,
    /// the number of registrations expected per interval, if below, burn gets
    /// decreased, it is increased otherwise
    pub target_registrations_per_interval: u16,
    /// the maximum number of registrations accepted per interval
    pub max_registrations_per_interval: u16,
}

/// Which registration a burn configuration is for.
#[derive(Clone, Copy, Debug, PartialEq, Eq, Structural)]
pub enum BurnType {
    Subnet,
    Module,
}

/// The default burn configuration of subnet registration.
pub open spec fn spec_subnet_burn_default(cfg: PalletConfig) -> GeneralBurnConfiguration {
    GeneralBurnConfiguration {
        min_burn: cfg.default_subnet_min_burn,
        max_burn: 100_000_000_000_000,
        adjustment_alpha: (u64::MAX / 2) as u64,
        target_registrations_interval: 5_400,
        target_registrations_per_interval: 1,
        max_registrations_per_interval: cfg.default_max_subnet_registrations_per_interval,
    }
}

/// The default burn configuration of module registration.
pub open spec fn spec_module_burn_default(cfg: PalletConfig) -> GeneralBurnConfiguration {
    GeneralBurnConfiguration {
        min_burn: cfg.default_module_min_burn,
        max_burn: 150_000_000_000,
        adjustment_alpha: (u64::MAX / 2) as u64,
        target_registrations_interval: 142,
        target_registrations_per_interval: 3,
        max_registrations_per_interval: cfg.default_max_registrations_per_interval,
    }
}

/// The first rule that a module burn configuration breaks, if any.
pub open spec fn module_burn_error(c: GeneralBurnConfiguration, cfg: PalletConfig) -> Option<Error> {
    if c.min_burn < cfg.default_module_min_burn {
        Some(Error::InvalidMinBurn)
    } else if c.max_burn <= c.min_burn {
        Some(Error::InvalidMaxBurn)
    } else if c.adjustment_alpha == 0 {
        Some(Error::InvalidAdjustmentAlpha)
    } else if c.target_registrations_interval < 10 {
        Some(Error::InvalidTargetRegistrationsInterval)
    } else if c.target_registrations_per_interval < 1 {
        Some(Error::InvalidTargetRegistrationsPerInterval)
    } else if c.max_registrations_per_interval < 1 {
        Some(Error::InvalidMaxRegistrationsPerInterval)
    } else if c.max_registrations_per_interval < c.target_registrations_per_interval {
        Some(Error::InvalidMaxRegistrationsPerInterval)
    } else {
        None
    }
}

impl GeneralBurnConfiguration {
    /// The default burn configuration of subnet registration.
    pub fn subnet_burn_default(cfg: &PalletConfig) -> (r: GeneralBurnConfiguration)
        ensures
            r == spec_subnet_burn_default(*cfg),
    {
        GeneralBurnConfiguration {
            min_burn: cfg.default_subnet_min_burn,
            max_burn: 100_000_000_000_000,
            adjustment_alpha: u64::MAX / 2,
            target_registrations_interval: 5_400,
            target_registrations_per_interval: 1,
            max_registrations_per_interval: cfg.default_max_subnet_registrations_per_interval,
        }
    }

    /// The default burn configuration of module registration.
    pub fn module_burn_default(cfg: &PalletConfig) -> (r: GeneralBurnConfiguration)
        ensures
            r == spec_module_burn_default(*cfg),
    {
        GeneralBurnConfiguration {
            min_burn: cfg.default_module_min_burn,
            max_burn: 150_000_000_000,
            adjustment_alpha: u64::MAX / 2,
            target_registrations_interval: 142,
            target_registrations_per_interval: 3,
            max_registrations_per_interval: cfg.default_max_registrations_per_interval,
        }
    }

    /// The default burn configuration for a kind of registration.
    pub fn default_for(cfg: &PalletConfig, burn_type: BurnType) -> (r: GeneralBurnConfiguration)
        ensures
            r == match burn_type {
                BurnType::Subnet => spec_subnet_burn_default(*cfg),
                BurnType::Module => spec_module_burn_default(*cfg),
            },
    {
        match burn_type {
            BurnType::Subnet => Self::subnet_burn_default(cfg),
            BurnType::Module => Self::module_burn_default(cfg),
        }
    }

    /// Checks a module burn configuration: the minimum burn is at least the
    /// runtime minimum, the maximum is above the minimum, alpha is positive,
    /// the interval is at least ten blocks and the registration targets are
    /// consistent. Returns the first rule broken.
    pub fn validate_module_burn(&self, cfg: &PalletConfig) -> (r: Result<(), Error>)
        ensures
            r.is_ok() <==> module_burn_error(*self, *cfg).is_none(),
            r.is_err() ==> r == Err::<(), Error>(module_burn_error(*self, *cfg).unwrap()),
            r == crate::params::as_result(module_burn_error(*self, *cfg)),
    {
        if self.min_burn < cfg.default_module_min_burn {
            return Err(Error::InvalidMinBurn);
        }
        if self.max_burn <= self.min_burn {
            return Err(Error::InvalidMaxBurn);
        }
        if self.adjustment_alpha == 0 {
            return Err(Error::InvalidAdjustmentAlpha);
        }
        if self.target_registrations_interval < 10 {
            return Err(Error::InvalidTargetRegistrationsInterval);
        }
        if self.target_registrations_per_interval < 1 {
            return Err(Error::InvalidTargetRegistrationsPerInterval);
        }
        if self.max_registrations_per_interval < 1 {
            return Err(Error::InvalidMaxRegistrationsPerInterval);
        }
        if self.max_registrations_per_interval < self.target_registrations_per_interval {
            return Err(Error::InvalidMaxRegistrationsPerInterval);
        }
        Ok(())
    }
}

} // verus!
