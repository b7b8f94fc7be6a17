//! The failures that the ledger reports to its callers.

use vstd::prelude::*;

verus! {

/// Why an operation was refused. A refused operation leaves the state as it was.
#[derive(Clone, Copy, Debug, PartialEq, Eq, Structural)]
pub enum Error {
    /// No configuration has been stored yet.
    NotInitialized,
    /// A configuration has been stored already.
    AlreadyInitialized,
    /// The caller has not proved control of the identity that the operation asks for.
    Unauthorized,
    /// Fewer than two shareholders were given.
    LowShareCount,
    /// The shares given are not a split of exactly 10000 basis points.
    InvalidShareTotal,
    /// The amount to transfer is zero or negative.
    ZeroTransferAmount,
    /// The amount to transfer is above the balance held.
    TransferAmountAboveBalance,
    /// The amount to transfer is above what no shareholder has a claim on.
    TransferAmountAboveUnusedBalance,
    /// The amount to withdraw is zero or negative.
    ZeroWithdrawalAmount,
    /// The amount to withdraw is above the shareholder's allocation.
    WithdrawalAmountAboveAllocation,
    /// The shares can no longer be changed.
    ContractLocked,
}

} // verus!
