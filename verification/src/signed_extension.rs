//! How the pallet's transactions are classified and prioritised.
use vstd::prelude::*;

verus! {

/// The kind of a call, as the transaction extension records it before dispatch.
#[derive(Clone, Copy, Debug, PartialEq, Eq, Structural)]
pub enum CallType {
    AddStake,
    TransferStakeMultiple,
    TransferMultiple,
    TransferStake,
    AddStakeMultiple,
    RemoveStakeMultiple,
    RemoveStake,
    AddDelegate,
    Register,
    AddNetwork,
    Update,
    Other,
}

impl Default for CallType {
    fn default() -> (r: CallType)
        ensures
            r == CallType::Other,
    {
        CallType::Other
    }
}

/// The priority of a transaction of a key with balance `balance` at block
/// `current_block`: their sum, saturating.
pub fn get_priority_vanilla(current_block: u64, balance: u64) -> (r: u64)
    ensures
        r == if current_block + balance > u64::MAX { u64::MAX as int } else { current_block + balance },
{
    current_block.saturating_add(balance)
}

} // verus!
