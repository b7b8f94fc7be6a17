//! What holds of the splitter whatever it is asked to do, stated over the
//! same functions as the contracts of its operations.

use crate::contract::{
    consistent, distributable, lemma_sum_bounds, lemma_total_payout_bounded, lemma_valid_weights,
    lock_verdict, locked_state, payout, shares_verdict, sum_shares, total_payout, update_verdict,
    valid_shares, withdraw_verdict,
};
use crate::errors::Error;
use crate::execute::transfer_tokens::transfer_verdict;
use crate::math::{lemma_portion_bounds, portion, BASIS_POINTS};
use crate::storage::{
    amount_of, lemma_share_at, total_allocation, Address, ShareDataKey, StorageView,
};
use vstd::prelude::*;

verus! {

/// A set of shares is accepted exactly where it is a valid split, and the
/// weights of an accepted set sum to exactly 10000 basis points. A set of
/// fewer than two entries is refused for its count, and a longer one whose
/// weights do not sum to 10000 for its total.
pub proof fn lemma_accepted_shares(shares: Seq<ShareDataKey>)
    ensures
        shares_verdict(shares) is Ok <==> valid_shares(shares),
        shares_verdict(shares) is Ok ==> sum_shares(shares) == BASIS_POINTS && shares.len() >= 2,
        shares.len() < 2 ==> shares_verdict(shares) == Err::<(), Error>(Error::LowShareCount),
        shares.len() >= 2 && sum_shares(shares) != BASIS_POINTS ==> shares_verdict(shares) == Err::<
            (),
            Error,
        >(Error::InvalidShareTotal),
{
}

/// In every consistent state with a configuration, the stored weights sum to
/// exactly 10000 basis points, among at least two shareholders, and each
/// weight is between one and 10000.
pub proof fn lemma_stored_shares_sum(v: StorageView)
    requires
        consistent(v),
        v.config is Some,
    ensures
        sum_shares(v.shares) == BASIS_POINTS,
        v.shares.len() >= 2,
        forall|i: int| 0 <= i < v.shares.len() ==> 0 < (#[trigger] v.shares[i]).share <= BASIS_POINTS,
{
    lemma_valid_weights(v.shares);
}

/// A distribution of a non-negative amount among a valid split credits each
/// shareholder exactly the amount times its weight, divided by 10000 and
/// rounded down; and what it credits in all is at most the amount, so that
/// what is left over is not negative.
pub proof fn lemma_distribution_conserves(shares: Seq<ShareDataKey>, amount: int)
    requires
        valid_shares(shares),
        0 <= amount,
    ensures
        forall|i: int|
            0 <= i < shares.len() ==> payout(shares, (#[trigger] shares[i]).shareholder, amount) == (
            amount * shares[i].share) / 10000,
        0 <= total_payout(shares, amount) <= amount,
{
    assert forall|i: int| 0 <= i < shares.len() implies payout(
        shares,
        (#[trigger] shares[i]).shareholder,
        amount,
    ) == (amount * shares[i].share) / 10000 by {
        lemma_share_at(shares, i);
    }
    lemma_valid_weights(shares);
    lemma_sum_bounds(shares);
    lemma_total_payout_bounded(shares, amount);
    let paid = total_payout(shares, amount);
    assert(paid <= amount) by (nonlinear_arith)
        requires
            paid * 10000 <= amount * 10000,
    ;
}

/// Where every weight is between zero and 10000 basis points, rounding
/// down loses less than one unit for each entry.
proof fn lemma_total_payout_close(shares: Seq<ShareDataKey>, amount: int)
    requires
        0 <= amount,
        forall|i: int| 0 <= i < shares.len() ==> 0 <= (#[trigger] shares[i]).share <= BASIS_POINTS,
    ensures
        amount * sum_shares(shares) <= total_payout(shares, amount) * BASIS_POINTS + 9999
            * shares.len(),
    decreases shares.len(),
{
    if shares.len() > 0 {
        let front = shares.drop_last();
        assert forall|i: int| 0 <= i < front.len() implies 0 <= (#[trigger] front[i]).share
            <= BASIS_POINTS by {
            assert(front[i] == shares[i]);
        }
        lemma_total_payout_close(front, amount);
        let weight = shares.last().share as int;
        assert(0 <= shares[shares.len() - 1].share <= BASIS_POINTS);
        lemma_portion_bounds(amount, weight);
        let a = total_payout(front, amount);
        let b = portion(amount, weight);
        let s = sum_shares(front);
        let n = front.len() as int;
        assert(amount * (s + weight) <= (a + b) * 10000 + 9999 * (n + 1)) by (nonlinear_arith)
            requires
                amount * s <= a * 10000 + 9999 * n,
                amount * weight < (b + 1) * 10000,
        ;
    } else {
        assert(amount * 0 == 0) by (nonlinear_arith);
    }
}

/// What rounding leaves over of a distribution among a valid split is less
/// than one unit for each shareholder.
pub proof fn lemma_distribution_rest(shares: Seq<ShareDataKey>, amount: int)
    requires
        valid_shares(shares),
        0 <= amount,
    ensures
        0 <= amount - total_payout(shares, amount) < shares.len(),
{
    lemma_distribution_conserves(shares, amount);
    lemma_valid_weights(shares);
    lemma_total_payout_close(shares, amount);
    let paid = total_payout(shares, amount);
    let n = shares.len() as int;
    assert(amount - paid < n) by (nonlinear_arith)
        requires
            amount * 10000 <= paid * 10000 + 9999 * n,
            n >= 2,
    ;
}

/// A distribution splits the whole balance of a token of which nothing has
/// been allocated, and only what has come in since where the balance was
/// distributed before: asked again at the same balance, it finds less than
/// one unit for each shareholder left to split.
pub proof fn lemma_distribution_splits_inflow(
    before: StorageView,
    after: StorageView,
    token: Address,
    balance: int,
)
    requires
        consistent(before),
        before.config is Some,
        after.shares == before.shares,
        total_allocation(after.allocations, token) == total_allocation(before.allocations, token)
            + total_payout(before.shares, distributable(before, token, balance)),
    ensures
        total_allocation(before.allocations, token) == 0 && balance >= 0 ==> distributable(
            before,
            token,
            balance,
        ) == balance,
        0 <= distributable(after, token, balance) <= distributable(before, token, balance),
        distributable(after, token, balance) < after.shares.len(),
{
    lemma_distribution_conserves(before.shares, distributable(before, token, balance));
    lemma_distribution_rest(before.shares, distributable(before, token, balance));
}

/// A withdrawal is granted only for a positive amount that is within what
/// the shareholder has been allocated of the token, and only to the
/// shareholder itself.
pub proof fn lemma_withdrawal_within_allocation(
    v: StorageView,
    caller: Address,
    token: Address,
    shareholder: Address,
    amount: int,
)
    requires
        withdraw_verdict(v, caller, token, shareholder, amount) is Ok,
    ensures
        0 < amount <= amount_of(v.allocations, shareholder, token),
        caller == shareholder,
{
}

/// A transfer by the administrator is granted only where what is left of the
/// balance still covers every allocation of the token.
pub proof fn lemma_transfer_leaves_allocations_covered(
    v: StorageView,
    caller: Address,
    token: Address,
    balance: int,
    amount: int,
)
    requires
        transfer_verdict(v, caller, token, balance, amount) is Ok,
    ensures
        0 < amount <= balance,
        balance - amount >= total_allocation(v.allocations, token),
{
}

/// Locking is final and can be repeated: in a locked state every request to
/// replace the shares is refused, whoever asks and whatever the shares;
/// locking a locked state changes nothing; and a request to lock is answered
/// in a locked state as it was before.
pub proof fn lemma_lock_is_final(v: StorageView, caller: Address, shares: Seq<ShareDataKey>)
    ensures
        update_verdict(locked_state(v), caller, shares) is Err,
        v.locked() ==> update_verdict(v, caller, shares) is Err,
        locked_state(locked_state(v)) == locked_state(v),
        v.locked() ==> locked_state(v) == v,
        v.config is Some ==> locked_state(v).locked(),
        lock_verdict(locked_state(v), caller) == lock_verdict(v, caller),
{
}

} // verus!
