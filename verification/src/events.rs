//! What the pallet reports of the changes it makes.
use vstd::prelude::*;
use crate::params::GlobalParams;

verus! {

/// A change the pallet reports to the outside.
#[derive(Clone, Debug, PartialEq, Eq)]
pub enum Event {
    /// Subnet `netuid` was added with the given name.
    NetworkAdded(u16, Vec<u8>),
    /// Subnet `netuid` was removed.
    NetworkRemoved(u16),
    /// The parameters of subnet `netuid` were stored.
    SubnetParamsUpdated(u16),
    /// The global parameters were replaced.
    GlobalParamsUpdated(GlobalParams),
    /// Module `key` got uid `uid` on subnet `netuid`: `(netuid, uid, key)`.
    ModuleRegistered(u16, u16, u64),
    /// Module `key` with uid `uid` left subnet `netuid`: `(netuid, uid, key)`.
    ModuleDeregistered(u16, u16, u64),
    /// The parameters of module `key` were updated.
    ModuleUpdated(u64),
    /// `key` staked `amount` on `module`: `(key, module, amount)`.
    StakeAdded(u64, u64, u64),
    /// `key` unstaked `amount` from `module`: `(key, module, amount)`.
    StakeRemoved(u64, u64, u64),
    /// `key` moved `amount` of its balance to the bridge: `(key, amount)`.
    Bridged(u64, u64),
    /// `key` took `amount` back from the bridge: `(key, amount)`.
    BridgeWithdrawn(u64, u64),
    /// A curator application with the given id was filed.
    ApplicationCreated(u64),
}

} // verus!
