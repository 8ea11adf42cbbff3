//! Verified core of the Subspace pallet: network-address checks, burn
//! configuration, parameter validation, fixed-point consensus math, the stake
//! ledger, module and subnet registration, the block step with its epoch
//! reward computation, governance applications, profit shares, validator
//! blacklists, the bridge, genesis building and call weights.

pub mod serving;
pub mod fixed;
pub mod math;
pub mod median;
pub mod math64;
pub mod errors;
pub mod config;
pub mod burn;
pub mod percent;
pub mod params;
pub mod ledger;
pub mod balances;
pub mod state;
pub mod staking;
pub mod epoch;
pub mod emission;
pub mod linear;
pub mod modules;
pub mod registration;
pub mod subnets;
pub mod block_step;
pub mod voting;
pub mod signed_extension;
pub mod profit_share;
pub mod treasury;
pub mod blacklist;
pub mod whitelist;
pub mod bridge;
pub mod genesis;
pub mod weights;
pub mod lookup;
pub mod events;
pub mod authority;
