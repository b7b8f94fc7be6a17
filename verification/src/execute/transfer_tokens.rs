//! Moving what no shareholder has a claim on.

use crate::errors::Error;
use crate::storage::{total_allocation, Address, AllocationDataKey, ConfigDataKey, Storage, StorageView};
use vstd::prelude::*;

verus! {

/// A movement of tokens that the token's own ledger is to carry out, away
/// from the balance that the splitter holds.
#[derive(Clone, Copy, Debug, PartialEq, Eq, Structural)]
pub struct Transfer {
    /// The token to move.
    pub token: Address,
    /// Who receives it.
    pub to: Address,
    /// How much is moved; always positive.
    pub amount: i128,
}

/// What of the balance of a token no shareholder has a claim on: the balance
/// less the sum of all allocations of the token.
pub open spec fn unused_balance(v: StorageView, token: Address, balance: int) -> int {
    balance - total_allocation(v.allocations, token)
}

/// The answer to a request of the caller to move `amount` of a token of
/// which the splitter holds `balance`.
pub open spec fn transfer_verdict(
    v: StorageView,
    caller: Address,
    token: Address,
    balance: int,
    amount: int,
) -> Result<(), Error> {
    match v.config {
        None => Err(Error::NotInitialized),
        Some(config) => if config.admin != caller {
            Err(Error::Unauthorized)
        } else if amount <= 0 {
            Err(Error::ZeroTransferAmount)
        } else if amount > balance {
            Err(Error::TransferAmountAboveBalance)
        } else if amount > unused_balance(v, token, balance) {
            Err(Error::TransferAmountAboveUnusedBalance)
        } else {
            Ok(())
        },
    }
}

/// Decides whether the administrator may move `amount` of the token to the
/// recipient, given the balance of the token that the splitter holds, and
/// names the movement where it may. `caller` is the identity that has been
/// proved to act. What is left of the balance after the movement still covers
/// every allocation of the token.
pub fn execute(
    env: &Storage,
    caller: &Address,
    token_address: Address,
    balance: i128,
    recipient: Address,
    amount: i128,
) -> (r: Result<Transfer, Error>)
    requires
        env@.wf(),
    ensures
        r == match transfer_verdict(env@, *caller, token_address, balance as int, amount as int) {
            Ok(_) => Ok((Transfer { token: token_address, to: recipient, amount })),
            Err(error) => Err(error),
        },
        r is Ok ==> 0 < amount <= balance && balance - amount >= total_allocation(
            env@.allocations,
            token_address,
        ),
{
    if !ConfigDataKey::is_initialized(env) {
        return Err(Error::NotInitialized);
    }
    match ConfigDataKey::require_admin(env, caller) {
        Err(error) => {
            return Err(error);
        },
        Ok(_) => {},
    }
    let total_allocation = AllocationDataKey::get_total_allocation(env, &token_address);
    if amount <= 0 {
        return Err(Error::ZeroTransferAmount);
    }
    if amount > balance {
        return Err(Error::TransferAmountAboveBalance);
    }
    let unused_balance = balance - total_allocation;
    if amount > unused_balance {
        return Err(Error::TransferAmountAboveUnusedBalance);
    }
    Ok(Transfer { token: token_address, to: recipient, amount })
}

} // verus!
