//! The operations of the splitter: setting the shares, distributing a
//! balance, withdrawing an allocation, and moving what nobody has a claim on.

use crate::errors::Error;
use crate::execute::transfer_tokens::{execute, transfer_verdict, unused_balance, Transfer};
use crate::math::{basis_points_of, lemma_portion_bounds, portion, BASIS_POINTS};
use crate::storage::{
    allocation_of, allocation_position, amount_of, debit_verdict, distinct_shares, has_share,
    lemma_share_at, lemma_total_bounds, lemma_total_push,
    positive_allocations, share_of, share_position, total_allocation, Address, AllocationDataKey,
    AllocationEntry, ConfigDataKey, ShareDataKey, Storage, StorageView,
};
use vstd::prelude::*;

verus! {

/// The sum of the weights of all entries.
pub open spec fn sum_shares(shares: Seq<ShareDataKey>) -> int
    decreases shares.len(),
{
    if shares.len() == 0 {
        0
    } else {
        sum_shares(shares.drop_last()) + shares.last().share
    }
}

/// Every weight is positive.
pub open spec fn positive_shares(shares: Seq<ShareDataKey>) -> bool {
    forall|i: int| 0 <= i < shares.len() ==> (#[trigger] shares[i]).share > 0
}

/// The shareholders of the entries, in their order.
pub open spec fn holders_of(shares: Seq<ShareDataKey>) -> Seq<Address> {
    Seq::new(shares.len(), |i: int| shares[i].shareholder)
}

/// The entries are a split among at least two shareholders: no shareholder
/// stands twice, every weight is positive, and the weights sum to exactly
/// 10000 basis points.
pub open spec fn valid_shares(shares: Seq<ShareDataKey>) -> bool {
    &&& shares.len() >= 2
    &&& positive_shares(shares)
    &&& distinct_shares(shares)
    &&& sum_shares(shares) == BASIS_POINTS
}

/// The answer to a proposed set of shares: too few entries, entries that are
/// no split of 10000 basis points, or acceptance.
pub open spec fn shares_verdict(shares: Seq<ShareDataKey>) -> Result<(), Error> {
    if shares.len() < 2 {
        Err(Error::LowShareCount)
    } else if !valid_shares(shares) {
        Err(Error::InvalidShareTotal)
    } else {
        Ok(())
    }
}

/// Where every weight is positive, the sum over a leading part is at most
/// the sum over all entries, and so is every single weight.
pub proof fn lemma_sum_bounds(shares: Seq<ShareDataKey>)
    requires
        positive_shares(shares),
    ensures
        0 <= sum_shares(shares),
        forall|k: int|
            0 <= k <= shares.len() ==> 0 <= #[trigger] sum_shares(shares.take(k)) <= sum_shares(
                shares,
            ),
        forall|i: int| 0 <= i < shares.len() ==> (#[trigger] shares[i]).share <= sum_shares(shares),
    decreases shares.len(),
{
    if shares.len() == 0 {
        assert forall|k: int| 0 <= k <= shares.len() implies 0 <= #[trigger] sum_shares(
            shares.take(k),
        ) <= sum_shares(shares) by {
            assert(shares.take(k) =~= shares);
        }
    } else {
        let front = shares.drop_last();
        assert(positive_shares(front)) by {
            assert forall|i: int| 0 <= i < front.len() implies (#[trigger] front[i]).share > 0 by {
                assert(front[i] == shares[i]);
            }
        }
        lemma_sum_bounds(front);
        assert(shares.last().share > 0);
        assert forall|k: int| 0 <= k <= shares.len() implies 0 <= #[trigger] sum_shares(
            shares.take(k),
        ) <= sum_shares(shares) by {
            if k == shares.len() {
                assert(shares.take(k) =~= shares);
            } else {
                assert(shares.take(k) =~= front.take(k));
            }
        }
        assert forall|i: int| 0 <= i < shares.len() implies (#[trigger] shares[i]).share
            <= sum_shares(shares) by {
            if i < front.len() {
                assert(front[i] == shares[i]);
            }
        }
    }
}

/// Checks a proposed set of shares.
pub fn check_shares(shares: &Vec<ShareDataKey>) -> (r: Result<(), Error>)
    ensures
        r == shares_verdict(shares@),
        r is Ok <==> valid_shares(shares@),
{
    if shares.len() < 2 {
        return Err(Error::LowShareCount);
    }
    let mut total: i128 = 0;
    let mut i: usize = 0;
    proof {
        assert(shares@.take(0) =~= Seq::<ShareDataKey>::empty());
    }
    while i < shares.len()
        invariant
            i <= shares.len(),
            shares.len() >= 2,
            total == sum_shares(shares@.take(i as int)),
            0 <= total <= BASIS_POINTS,
            positive_shares(shares@.take(i as int)),
            distinct_shares(shares@.take(i as int)),
        decreases shares.len() - i,
    {
        let entry = shares[i];
        if entry.share <= 0 {
            return Err(Error::InvalidShareTotal);
        }
        let ghost next = shares@.take(i + 1);
        proof {
            assert(next.drop_last() =~= shares@.take(i as int));
            assert forall|k: int| 0 <= k < next.len() implies (#[trigger] next[k]).share > 0 by {
                if k < i {
                    assert(shares@.take(i as int)[k] == next[k]);
                }
            }
        }
        if entry.share > BASIS_POINTS - total {
            proof {
                if positive_shares(shares@) {
                    lemma_sum_bounds(shares@);
                    assert(sum_shares(next) <= sum_shares(shares@));
                }
            }
            return Err(Error::InvalidShareTotal);
        }
        let mut j: usize = 0;
        while j < i
            invariant
                j <= i < shares.len(),
                entry == shares@[i as int],
                forall|k: int|
                    0 <= k < j ==> (#[trigger] shares@[k]).shareholder != entry.shareholder,
            decreases i - j,
        {
            if shares[j].shareholder == entry.shareholder {
                return Err(Error::InvalidShareTotal);
            }
            j += 1;
        }
        proof {
            assert forall|a: int, b: int| 0 <= a < b < next.len() implies (
            #[trigger] next[a]).shareholder != (#[trigger] next[b]).shareholder by {
                assert(next[a] == shares@[a]);
                if b < i {
                    assert(shares@.take(i as int)[a] == next[a]);
                    assert(shares@.take(i as int)[b] == next[b]);
                }
            }
        }
        total = total + entry.share;
        i += 1;
    }
    proof {
        assert(shares@.take(i as int) =~= shares@);
    }
    if total != BASIS_POINTS {
        return Err(Error::InvalidShareTotal);
    }
    Ok(())
}

/// The stored state is consistent: it is well formed, the list of
/// shareholders names the share entries in their order, and once a
/// configuration is stored the share entries are a valid split, while before
/// that there are none.
pub open spec fn consistent(v: StorageView) -> bool {
    &&& v.wf()
    &&& v.shareholders =~= holders_of(v.shares)
    &&& (v.config is Some ==> valid_shares(v.shares))
    &&& (v.config is None ==> v.shares.len() == 0)
}

/// What one distribution of `unused` credits to the shareholder: the portion
/// that its weight stands for, and nothing where it has no share.
pub open spec fn payout(shares: Seq<ShareDataKey>, shareholder: Address, unused: int) -> int {
    match share_of(shares, shareholder) {
        Some(entry) => portion(unused, entry.share as int),
        None => 0,
    }
}

/// What one distribution of `unused` credits to all shareholders together.
pub open spec fn total_payout(shares: Seq<ShareDataKey>, unused: int) -> int
    decreases shares.len(),
{
    if shares.len() == 0 {
        0
    } else {
        total_payout(shares.drop_last(), unused) + portion(unused, shares.last().share as int)
    }
}

/// What of the balance of a token a distribution splits: the part that no
/// shareholder has a claim on yet, and nothing where the allocations exceed
/// the balance.
pub open spec fn distributable(v: StorageView, token: Address, balance: int) -> int {
    if unused_balance(v, token, balance) > 0 {
        unused_balance(v, token, balance)
    } else {
        0
    }
}

/// The answer to a first set of shares.
pub open spec fn init_verdict(v: StorageView, shares: Seq<ShareDataKey>) -> Result<(), Error> {
    if v.config is Some {
        Err(Error::AlreadyInitialized)
    } else {
        shares_verdict(shares)
    }
}

/// The answer to a request of the caller to replace the shares.
pub open spec fn update_verdict(v: StorageView, caller: Address, shares: Seq<ShareDataKey>) -> Result<
    (),
    Error,
> {
    match v.config {
        None => Err(Error::NotInitialized),
        Some(config) => if config.admin != caller {
            Err(Error::Unauthorized)
        } else if !config.mutable {
            Err(Error::ContractLocked)
        } else {
            shares_verdict(shares)
        },
    }
}

/// The answer to a request of the caller to lock the shares.
pub open spec fn lock_verdict(v: StorageView, caller: Address) -> Result<(), Error> {
    match v.config {
        None => Err(Error::NotInitialized),
        Some(config) => if config.admin != caller {
            Err(Error::Unauthorized)
        } else {
            Ok(())
        },
    }
}

/// The state after the shares have been locked.
pub open spec fn locked_state(v: StorageView) -> StorageView {
    StorageView {
        config: match v.config {
            Some(config) => Some(ConfigDataKey { admin: config.admin, mutable: false }),
            None => None,
        },
        ..v
    }
}

/// The answer to a request of the caller to withdraw `amount` of what the
/// shareholder has been allocated of the token.
pub open spec fn withdraw_verdict(
    v: StorageView,
    caller: Address,
    token: Address,
    shareholder: Address,
    amount: int,
) -> Result<(), Error> {
    if v.config is None {
        Err(Error::NotInitialized)
    } else if caller != shareholder {
        Err(Error::Unauthorized)
    } else {
        debit_verdict(v.allocations, shareholder, token, amount)
    }
}

/// In a valid split every weight is between one and 10000 basis points, and
/// the weights of any leading part sum to at most 10000.
pub proof fn lemma_valid_weights(shares: Seq<ShareDataKey>)
    requires
        valid_shares(shares),
    ensures
        forall|i: int| 0 <= i < shares.len() ==> 0 < (#[trigger] shares[i]).share <= BASIS_POINTS,
        forall|k: int|
            0 <= k <= shares.len() ==> 0 <= #[trigger] sum_shares(shares.take(k)) <= BASIS_POINTS,
{
    lemma_sum_bounds(shares);
}

/// Where every weight is between zero and 10000 basis points, what a
/// distribution of a non-negative amount credits in all is not negative, and
/// 10000 times it is at most the amount times the sum of the weights.
pub proof fn lemma_total_payout_bounded(shares: Seq<ShareDataKey>, unused: int)
    requires
        0 <= unused,
        forall|i: int| 0 <= i < shares.len() ==> 0 <= (#[trigger] shares[i]).share <= BASIS_POINTS,
    ensures
        0 <= total_payout(shares, unused),
        total_payout(shares, unused) * BASIS_POINTS <= unused * sum_shares(shares),
    decreases shares.len(),
{
    if shares.len() > 0 {
        let front = shares.drop_last();
        assert forall|i: int| 0 <= i < front.len() implies 0 <= (#[trigger] front[i]).share
            <= BASIS_POINTS by {
            assert(front[i] == shares[i]);
        }
        lemma_total_payout_bounded(front, unused);
        let weight = shares.last().share as int;
        assert(0 <= shares[shares.len() - 1].share <= BASIS_POINTS);
        lemma_portion_bounds(unused, weight);
        let a = total_payout(front, unused);
        let b = portion(unused, weight);
        let s = sum_shares(front);
        assert((a + b) * 10000 <= unused * (s + weight)) by (nonlinear_arith)
            requires
                a * 10000 <= unused * s,
                b * 10000 <= unused * weight,
        ;
    } else {
        assert(unused * 0 == 0) by (nonlinear_arith);
    }
}

/// One more entry of a valid split: what the distribution credits over the
/// longer leading part is what it credited over the shorter one and the
/// portion of the entry, which goes to the entry's shareholder and to nobody
/// else; and all of it together stays within the amount distributed.
proof fn lemma_distribution_step(shares: Seq<ShareDataKey>, i: int, unused: int)
    requires
        valid_shares(shares),
        0 <= i < shares.len(),
        0 <= unused,
    ensures
        total_payout(shares.take(i + 1), unused) == total_payout(shares.take(i), unused) + portion(
            unused,
            shares[i].share as int,
        ),
        0 <= total_payout(shares.take(i), unused),
        total_payout(shares.take(i + 1), unused) <= unused,
        0 <= portion(unused, shares[i].share as int) <= unused,
        payout(shares.take(i), shares[i].shareholder, unused) == 0,
        payout(shares.take(i + 1), shares[i].shareholder, unused) == portion(
            unused,
            shares[i].share as int,
        ),
        forall|h: Address|
            h != shares[i].shareholder ==> #[trigger] payout(shares.take(i + 1), h, unused)
                == payout(shares.take(i), h, unused),
{
    let shorter = shares.take(i);
    let longer = shares.take(i + 1);
    let holder = shares[i].shareholder;
    lemma_valid_weights(shares);
    assert(longer.drop_last() =~= shorter);
    assert(longer.last() == shares[i]);
    assert forall|k: int| 0 <= k < longer.len() implies 0 <= (#[trigger] longer[k]).share
        <= BASIS_POINTS by {
        assert(longer[k] == shares[k]);
    }
    assert forall|k: int| 0 <= k < shorter.len() implies 0 <= (#[trigger] shorter[k]).share
        <= BASIS_POINTS by {
        assert(shorter[k] == shares[k]);
    }
    lemma_total_payout_bounded(longer, unused);
    lemma_total_payout_bounded(shorter, unused);
    lemma_portion_bounds(unused, shares[i].share as int);
    let paid = total_payout(longer, unused);
    let weights = sum_shares(longer);
    assert(paid <= unused) by (nonlinear_arith)
        requires
            paid * 10000 <= unused * weights,
            0 <= weights <= 10000,
            0 <= unused,
    ;
    assert(distinct_shares(longer)) by {
        assert forall|a: int, b: int| 0 <= a < b < longer.len() implies (
        #[trigger] longer[a]).shareholder != (#[trigger] longer[b]).shareholder by {
            assert(longer[a] == shares[a]);
            assert(longer[b] == shares[b]);
        }
    }
    if has_share(shorter, holder) {
        let k = share_position(shorter, holder);
        assert(shorter[k] == shares[k]);
        assert(shares[k].shareholder != shares[i].shareholder);
    }
    lemma_share_at(longer, i);
    assert forall|h: Address| h != holder implies #[trigger] payout(longer, h, unused) == payout(
        shorter,
        h,
        unused,
    ) by {
        assert(distinct_shares(shorter)) by {
            assert forall|a: int, b: int| 0 <= a < b < shorter.len() implies (
            #[trigger] shorter[a]).shareholder != (#[trigger] shorter[b]).shareholder by {
                assert(shorter[a] == shares[a]);
                assert(shorter[b] == shares[b]);
            }
        }
        if has_share(shorter, h) {
            let k = share_position(shorter, h);
            assert(longer[k] == shorter[k]);
            lemma_share_at(longer, k);
        } else if has_share(longer, h) {
            let k = share_position(longer, h);
            assert(k != i);
            assert(shorter[k] == longer[k]);
        }
    }
}

/// A distribution of nothing credits nothing.
proof fn lemma_nothing_to_pay(shares: Seq<ShareDataKey>)
    ensures
        total_payout(shares, 0) == 0,
        forall|h: Address| #[trigger] payout(shares, h, 0) == 0,
    decreases shares.len(),
{
    assert(forall|w: int| #[trigger] portion(0, w) == 0) by {
        assert forall|w: int| #[trigger] portion(0, w) == 0 by {
            assert(0 * w == 0) by (nonlinear_arith);
        }
    }
    if shares.len() > 0 {
        lemma_nothing_to_pay(shares.drop_last());
    }
}

/// Writes the entries of a set of shares, and the list of their shareholders,
/// into a state that holds no share entry.
fn update_shares(env: &mut Storage, shares: &Vec<ShareDataKey>)
    requires
        old(env)@.wf(),
        old(env)@.shares.len() == 0,
        distinct_shares(shares@),
    ensures
        final(env)@.wf(),
        final(env)@.shares == shares@,
        final(env)@.shareholders == holders_of(shares@),
        final(env)@.config == old(env)@.config,
        final(env)@.allocations == old(env)@.allocations,
{
    let mut shareholders: Vec<Address> = Vec::new();
    let mut i: usize = 0;
    proof {
        assert(env@.shares =~= shares@.take(0));
        assert(shareholders@ =~= holders_of(shares@.take(0)));
    }
    while i < shares.len()
        invariant
            i <= shares.len(),
            distinct_shares(shares@),
            env@.wf(),
            env@.shares == shares@.take(i as int),
            shareholders@ == holders_of(shares@.take(i as int)),
            env@.config == old(env)@.config,
            env@.allocations == old(env)@.allocations,
        decreases shares.len() - i,
    {
        let share = shares[i];
        shareholders.push(share.shareholder);
        proof {
            let written = shares@.take(i as int);
            if has_share(written, share.shareholder) {
                let k = share_position(written, share.shareholder);
                assert(written[k] == shares@[k]);
                assert(shares@[k].shareholder != shares@[i as int].shareholder);
            }
        }
        ShareDataKey::save_share(env, share.shareholder, share.share);
        proof {
            assert(env@.shares =~= shares@.take(i + 1));
            assert(shareholders@ =~= holders_of(shares@.take(i + 1)));
        }
        i += 1;
    }
    proof {
        assert(shares@.take(i as int) =~= shares@);
    }
    ShareDataKey::save_shareholders(env, shareholders);
}

/// Removes every share entry and the list of shareholders.
fn reset_shares(env: &mut Storage)
    requires
        old(env)@.wf(),
        old(env)@.shareholders == holders_of(old(env)@.shares),
    ensures
        final(env)@.wf(),
        final(env)@.shares.len() == 0,
        final(env)@.shareholders.len() == 0,
        final(env)@.config == old(env)@.config,
        final(env)@.allocations == old(env)@.allocations,
{
    let shareholders = ShareDataKey::get_shareholders(env);
    let ghost before = env@.shares;
    let mut i: usize = 0;
    proof {
        assert(env@.shares =~= before.skip(0));
    }
    while i < shareholders.len()
        invariant
            i <= shareholders.len(),
            shareholders@ == holders_of(before),
            env@.wf(),
            env@.shares == before.skip(i as int),
            env@.config == old(env)@.config,
            env@.allocations == old(env)@.allocations,
        decreases shareholders.len() - i,
    {
        proof {
            let left = env@.shares;
            assert(left[0] == before[i as int]);
            lemma_share_at(left, 0);
            assert(left.remove(0) =~= before.skip(i + 1));
        }
        ShareDataKey::remove_share(env, &shareholders[i]);
        i += 1;
    }
    ShareDataKey::remove_shareholders(env);
}


/// The state that is made of a configuration, share entries and allocation
/// entries: the list of shareholders follows from the share entries.
pub open spec fn restored(
    config: Option<ConfigDataKey>,
    shares: Seq<ShareDataKey>,
    allocations: Seq<AllocationEntry>,
) -> StorageView {
    StorageView { config, shareholders: holders_of(shares), shares, allocations }
}

/// Builds the stored state from a configuration, share entries and
/// allocation entries that were taken from a state before. The state is
/// built exactly where the parts make a consistent one.
pub fn restore(
    config: Option<ConfigDataKey>,
    shares: Vec<ShareDataKey>,
    allocations: Vec<AllocationEntry>,
) -> (r: Option<Storage>)
    ensures
        match r {
            Some(env) => env@ == restored(config, shares@, allocations@) && consistent(env@),
            None => !consistent(restored(config, shares@, allocations@)),
        },
{
    let mut env = Storage::new();
    match config {
        Some(stored) => {
            match check_shares(&shares) {
                Err(_) => {
                    return None;
                },
                Ok(_) => {},
            }
            ConfigDataKey::init(&mut env, stored.admin, stored.mutable);
        },
        None => {
            if shares.len() != 0 {
                return None;
            }
        },
    }
    update_shares(&mut env, &shares);
    let mut i: usize = 0;
    proof {
        assert(env@.allocations =~= allocations@.take(0));
    }
    while i < allocations.len()
        invariant
            i <= allocations.len(),
            env@.wf(),
            env@.config == config,
            env@.shares == shares@,
            env@.shareholders == holders_of(shares@),
            env@.allocations == allocations@.take(i as int),
            consistent(restored(config, shares@, Seq::<AllocationEntry>::empty())),
        decreases allocations.len() - i,
    {
        let entry = allocations[i];
        let ghost written = allocations@.take(i as int);
        if entry.amount <= 0 {
            return None;
        }
        match AllocationDataKey::get_allocation(&env, entry.shareholder, entry.token) {
            Some(_) => {
                proof {
                    let k = allocation_position(written, entry.shareholder, entry.token);
                    assert(written[k] == allocations@[k]);
                    assert(allocations@[k].shareholder == allocations@[i as int].shareholder);
                }
                return None;
            },
            None => {},
        }
        let total = AllocationDataKey::get_total_allocation(&env, &entry.token);
        if entry.amount > i128::MAX - total {
            proof {
                if positive_allocations(allocations@) {
                    lemma_total_bounds(allocations@, entry.token);
                    lemma_total_push(written, entry, entry.token);
                    assert(written.push(entry) =~= allocations@.take(i + 1));
                    assert(total_allocation(allocations@.take(i + 1), entry.token)
                        <= total_allocation(allocations@, entry.token));
                }
            }
            return None;
        }
        AllocationDataKey::save_allocation(&mut env, entry.shareholder, entry.token, entry.amount);
        proof {
            assert(env@.allocations =~= allocations@.take(i + 1));
        }
        i += 1;
    }
    proof {
        assert(allocations@.take(i as int) =~= allocations@);
    }
    Some(env)
}

/// The operations of the splitter on its stored state.
///
/// No operation proves anybody's identity or reads or moves tokens itself.
/// An operation that asks for an identity takes as `caller` the identity
/// that has been proved to act; one that depends on the tokens held takes
/// their balance, as the token's ledger reports it for the splitter; and one
/// that ends in a movement of tokens returns the movement to be carried out.
/// An operation that fails leaves the state as it was.
pub trait SplitterTrait {
    /// Stores the administrator, the shares and whether the shares may be
    /// changed later. This succeeds once, and only with a valid split.
    fn init(env: &mut Storage, admin: Address, shares: Vec<ShareDataKey>, mutable: bool) -> (r:
        Result<(), Error>)
        requires
            consistent(old(env)@),
        ensures
            consistent(final(env)@),
            r == init_verdict(old(env)@, shares@),
            r is Ok ==> final(env)@ == (StorageView {
                config: Some(ConfigDataKey { admin, mutable }),
                shareholders: holders_of(shares@),
                shares: shares@,
                allocations: old(env)@.allocations,
            }),
            r is Err ==> final(env)@ == old(env)@,
            old(env)@.locked() ==> final(env)@.locked(),
    ;

    /// Decides whether the administrator may move `amount` of the token to
    /// the recipient, and names the movement where it may: the amount is
    /// positive, within the balance, and within what no shareholder has a
    /// claim on, so that what is left still covers every allocation.
    fn transfer_tokens(
        env: &Storage,
        caller: &Address,
        token_address: Address,
        balance: i128,
        recipient: Address,
        amount: i128,
    ) -> (r: Result<Transfer, Error>)
        requires
            consistent(env@),
        ensures
            r == match transfer_verdict(
                env@,
                *caller,
                token_address,
                balance as int,
                amount as int,
            ) {
                Ok(_) => Ok((Transfer { token: token_address, to: recipient, amount })),
                Err(error) => Err(error),
            },
            r is Ok ==> 0 < amount <= balance && balance - amount >= total_allocation(
                env@.allocations,
                token_address,
            ),
    ;

    /// Splits what of the balance of the token no shareholder has a claim on
    /// yet: each shareholder is credited the portion that its weight stands
    /// for, rounded down. Anybody may ask for this. What rounding leaves over
    /// stays unallocated, and where the balance covers the allocations before
    /// it still covers them afterwards.
    fn distribute_tokens(env: &mut Storage, token_address: Address, balance: i128) -> (r: Result<
        (),
        Error,
    >)
        requires
            consistent(old(env)@),
        ensures
            consistent(final(env)@),
            r == if old(env)@.config is None {
                Err::<(), Error>(Error::NotInitialized)
            } else {
                Ok(())
            },
            r is Err ==> final(env)@ == old(env)@,
            final(env)@.config == old(env)@.config,
            final(env)@.shareholders == old(env)@.shareholders,
            final(env)@.shares == old(env)@.shares,
            old(env)@.locked() ==> final(env)@.locked(),
            r is Ok ==> forall|h: Address| #[trigger]
                amount_of(final(env)@.allocations, h, token_address) == amount_of(
                    old(env)@.allocations,
                    h,
                    token_address,
                ) + payout(
                    old(env)@.shares,
                    h,
                    distributable(old(env)@, token_address, balance as int),
                ),
            r is Ok ==> forall|h: Address, t: Address|
                t != token_address ==> #[trigger] allocation_of(final(env)@.allocations, h, t)
                    == allocation_of(old(env)@.allocations, h, t),
            r is Ok ==> total_allocation(final(env)@.allocations, token_address)
                == total_allocation(old(env)@.allocations, token_address) + total_payout(
                old(env)@.shares,
                distributable(old(env)@, token_address, balance as int),
            ),
            r is Ok ==> forall|t: Address|
                t != token_address ==> #[trigger] total_allocation(final(env)@.allocations, t)
                    == total_allocation(old(env)@.allocations, t),
            r is Ok && total_allocation(old(env)@.allocations, token_address) <= balance
                ==> total_allocation(final(env)@.allocations, token_address) <= balance,
    ;

    /// Replaces all shares by a valid split. Only the administrator may do
    /// so, and only while the shares are not locked.
    fn update_shares(env: &mut Storage, caller: &Address, shares: Vec<ShareDataKey>) -> (r: Result<
        (),
        Error,
    >)
        requires
            consistent(old(env)@),
        ensures
            consistent(final(env)@),
            r == update_verdict(old(env)@, *caller, shares@),
            r is Ok ==> final(env)@ == (StorageView {
                config: old(env)@.config,
                shareholders: holders_of(shares@),
                shares: shares@,
                allocations: old(env)@.allocations,
            }),
            r is Err ==> final(env)@ == old(env)@,
            old(env)@.locked() ==> r is Err && final(env)@.locked(),
    ;

    /// Locks the shares for good. Only the administrator may do so; locking
    /// again changes nothing.
    fn lock_contract(env: &mut Storage, caller: &Address) -> (r: Result<(), Error>)
        requires
            consistent(old(env)@),
        ensures
            consistent(final(env)@),
            r == lock_verdict(old(env)@, *caller),
            r is Ok ==> final(env)@ == locked_state(old(env)@) && final(env)@.locked(),
            r is Err ==> final(env)@ == old(env)@,
            old(env)@.locked() ==> final(env)@ == old(env)@,
    ;

    /// Takes `amount` from what the shareholder has been allocated of the
    /// token, and names the movement of that amount to the shareholder. Only
    /// the shareholder itself may do so, with a positive amount within its
    /// allocation. An allocation that is emptied is removed.
    fn withdraw_allocation(
        env: &mut Storage,
        caller: &Address,
        token_address: Address,
        shareholder: Address,
        amount: i128,
    ) -> (r: Result<Transfer, Error>)
        requires
            consistent(old(env)@),
        ensures
            consistent(final(env)@),
            r == match withdraw_verdict(
                old(env)@,
                *caller,
                token_address,
                shareholder,
                amount as int,
            ) {
                Ok(_) => Ok((Transfer { token: token_address, to: shareholder, amount })),
                Err(error) => Err(error),
            },
            r is Err ==> final(env)@ == old(env)@,
            final(env)@.config == old(env)@.config,
            final(env)@.shareholders == old(env)@.shareholders,
            final(env)@.shares == old(env)@.shares,
            old(env)@.locked() ==> final(env)@.locked(),
            r is Ok ==> 0 < amount <= amount_of(old(env)@.allocations, shareholder, token_address),
            r is Ok ==> allocation_of(final(env)@.allocations, shareholder, token_address) == if amount
                == amount_of(old(env)@.allocations, shareholder, token_address) {
                None::<i128>
            } else {
                Some(
                    (amount_of(old(env)@.allocations, shareholder, token_address) - amount) as i128,
                )
            },
            r is Ok ==> forall|h: Address, t: Address|
                !(h == shareholder && t == token_address) ==> #[trigger] allocation_of(
                    final(env)@.allocations,
                    h,
                    t,
                ) == allocation_of(old(env)@.allocations, h, t),
            r is Ok ==> total_allocation(final(env)@.allocations, token_address)
                == total_allocation(old(env)@.allocations, token_address) - amount,
            r is Ok ==> forall|t: Address|
                t != token_address ==> #[trigger] total_allocation(final(env)@.allocations, t)
                    == total_allocation(old(env)@.allocations, t),
    ;

    /// The weight of the shareholder, if it has a share.
    fn get_share(env: &Storage, shareholder: Address) -> (r: Result<Option<i128>, Error>)
        requires
            consistent(env@),
        ensures
            r == if env@.config is None {
                Err::<Option<i128>, Error>(Error::NotInitialized)
            } else {
                Ok(
                    match share_of(env@.shares, shareholder) {
                        Some(entry) => Some(entry.share),
                        None => None,
                    },
                )
            },
    ;

    /// All shareholders with their weights, in the order in which the shares
    /// were last set.
    fn list_shares(env: &Storage) -> (r: Result<Vec<ShareDataKey>, Error>)
        requires
            consistent(env@),
        ensures
            match r {
                Ok(shares) => env@.config is Some && shares@ == env@.shares,
                Err(error) => env@.config is None && error == Error::NotInitialized,
            },
    ;

    /// The configuration.
    fn get_config(env: &Storage) -> (r: Result<ConfigDataKey, Error>)
        requires
            consistent(env@),
        ensures
            r == match env@.config {
                Some(config) => Ok::<ConfigDataKey, Error>(config),
                None => Err(Error::NotInitialized),
            },
    ;

    /// What the shareholder may withdraw of the token: zero where nothing is
    /// allocated.
    fn get_allocation(env: &Storage, shareholder: Address, token: Address) -> (r: Result<
        i128,
        Error,
    >)
        requires
            consistent(env@),
        ensures
            match r {
                Ok(amount) => env@.config is Some && amount == amount_of(
                    env@.allocations,
                    shareholder,
                    token,
                ),
                Err(error) => env@.config is None && error == Error::NotInitialized,
            },
    ;
}

/// The splitter.
pub struct Splitter;

impl SplitterTrait for Splitter {
    fn init(env: &mut Storage, admin: Address, shares: Vec<ShareDataKey>, mutable: bool) -> (r:
        Result<(), Error>) {
        if ConfigDataKey::is_initialized(env) {
            return Err(Error::AlreadyInitialized);
        }
        match check_shares(&shares) {
            Err(error) => {
                return Err(error);
            },
            Ok(_) => {},
        }
        ConfigDataKey::init(env, admin, mutable);
        update_shares(env, &shares);
        Ok(())
    }

    fn transfer_tokens(
        env: &Storage,
        caller: &Address,
        token_address: Address,
        balance: i128,
        recipient: Address,
        amount: i128,
    ) -> (r: Result<Transfer, Error>) {
        execute(env, caller, token_address, balance, recipient, amount)
    }

    fn distribute_tokens(env: &mut Storage, token_address: Address, balance: i128) -> (r: Result<
        (),
        Error,
    >) {
        if !ConfigDataKey::is_initialized(env) {
            return Err(Error::NotInitialized);
        }
        let ghost before = env@;
        let ghost shares = env@.shares;
        let total = AllocationDataKey::get_total_allocation(env, &token_address);
        if balance <= total {
            proof {
                lemma_nothing_to_pay(shares);
            }
            return Ok(());
        }
        let unused: i128 = balance - total;
        let shareholders = ShareDataKey::get_shareholders(env);
        let mut i: usize = 0;
        proof {
            assert(shares.take(0) =~= Seq::<ShareDataKey>::empty());
            assert forall|h: Address| #[trigger] payout(shares.take(0), h, unused as int) == 0 by {
                assert(!has_share(shares.take(0), h));
            }
        }
        while i < shareholders.len()
            invariant
                i <= shareholders.len(),
                shareholders@ == holders_of(shares),
                valid_shares(shares),
                before.wf(),
                env@.wf(),
                env@.config == before.config,
                env@.shareholders == before.shareholders,
                env@.shares == shares,
                before.shares == shares,
                0 < unused,
                unused == balance - total_allocation(before.allocations, token_address),
                forall|h: Address| #[trigger]
                    amount_of(env@.allocations, h, token_address) == amount_of(
                        before.allocations,
                        h,
                        token_address,
                    ) + payout(shares.take(i as int), h, unused as int),
                forall|h: Address, t: Address|
                    t != token_address ==> #[trigger] allocation_of(env@.allocations, h, t)
                        == allocation_of(before.allocations, h, t),
                total_allocation(env@.allocations, token_address) == total_allocation(
                    before.allocations,
                    token_address,
                ) + total_payout(shares.take(i as int), unused as int),
                forall|t: Address|
                    t != token_address ==> #[trigger] total_allocation(env@.allocations, t)
                        == total_allocation(before.allocations, t),
                total_payout(shares.take(i as int), unused as int) <= unused,
            decreases shareholders.len() - i,
        {
            let shareholder = shareholders[i];
            let ghost so_far = env@.allocations;
            proof {
                assert(shareholder == shares[i as int].shareholder);
                lemma_share_at(shares, i as int);
                lemma_valid_weights(shares);
                lemma_distribution_step(shares, i as int, unused as int);
            }
            match ShareDataKey::get_share(env, &shareholder) {
                Some(entry) => {
                    let amount = basis_points_of(unused, entry.share);
                    AllocationDataKey::credit(env, shareholder, token_address, amount);
                },
                None => {},
            }
            proof {
                assert forall|h: Address| #[trigger]
                    amount_of(env@.allocations, h, token_address) == amount_of(
                        before.allocations,
                        h,
                        token_address,
                    ) + payout(shares.take(i + 1), h, unused as int) by {
                    assert(amount_of(so_far, h, token_address) == amount_of(
                        before.allocations,
                        h,
                        token_address,
                    ) + payout(shares.take(i as int), h, unused as int));
                    if h != shareholder {
                        assert(payout(shares.take(i + 1), h, unused as int) == payout(
                            shares.take(i as int),
                            h,
                            unused as int,
                        ));
                        assert(allocation_of(env@.allocations, h, token_address) == allocation_of(
                            so_far,
                            h,
                            token_address,
                        ));
                    }
                }
            }
            i += 1;
        }
        proof {
            assert(shares.take(i as int) =~= shares);
        }
        Ok(())
    }

    fn update_shares(env: &mut Storage, caller: &Address, shares: Vec<ShareDataKey>) -> (r: Result<
        (),
        Error,
    >) {
        if !ConfigDataKey::is_initialized(env) {
            return Err(Error::NotInitialized);
        }
        match ConfigDataKey::require_admin(env, caller) {
            Err(error) => {
                return Err(error);
            },
            Ok(_) => {},
        }
        if ConfigDataKey::is_contract_locked(env) {
            return Err(Error::ContractLocked);
        }
        match check_shares(&shares) {
            Err(error) => {
                return Err(error);
            },
            Ok(_) => {},
        }
        reset_shares(env);
        update_shares(env, &shares);
        Ok(())
    }

    fn lock_contract(env: &mut Storage, caller: &Address) -> (r: Result<(), Error>) {
        if !ConfigDataKey::is_initialized(env) {
            return Err(Error::NotInitialized);
        }
        match ConfigDataKey::require_admin(env, caller) {
            Err(error) => {
                return Err(error);
            },
            Ok(_) => {},
        }
        ConfigDataKey::lock_contract(env);
        Ok(())
    }

    fn withdraw_allocation(
        env: &mut Storage,
        caller: &Address,
        token_address: Address,
        shareholder: Address,
        amount: i128,
    ) -> (r: Result<Transfer, Error>) {
        if !ConfigDataKey::is_initialized(env) {
            return Err(Error::NotInitialized);
        }
        if *caller != shareholder {
            return Err(Error::Unauthorized);
        }
        match AllocationDataKey::debit(env, shareholder, token_address, amount) {
            Err(error) => Err(error),
            Ok(_) => Ok(Transfer { token: token_address, to: shareholder, amount }),
        }
    }

    fn get_share(env: &Storage, shareholder: Address) -> (r: Result<Option<i128>, Error>) {
        if !ConfigDataKey::is_initialized(env) {
            return Err(Error::NotInitialized);
        }
        match ShareDataKey::get_share(env, &shareholder) {
            Some(share) => Ok(Some(share.share)),
            None => Ok(None),
        }
    }

    fn list_shares(env: &Storage) -> (r: Result<Vec<ShareDataKey>, Error>) {
        if !ConfigDataKey::is_initialized(env) {
            return Err(Error::NotInitialized);
        }
        let shareholders = ShareDataKey::get_shareholders(env);
        let mut shares: Vec<ShareDataKey> = Vec::new();
        let mut i: usize = 0;
        while i < shareholders.len()
            invariant
                i <= shareholders.len(),
                consistent(env@),
                shareholders@ == env@.shareholders,
                shares@ == env@.shares.take(i as int),
            decreases shareholders.len() - i,
        {
            proof {
                lemma_share_at(env@.shares, i as int);
            }
            match ShareDataKey::get_share(env, &shareholders[i]) {
                Some(share) => {
                    shares.push(share);
                },
                None => {},
            }
            proof {
                assert(shares@ =~= env@.shares.take(i + 1));
            }
            i += 1;
        }
        proof {
            assert(env@.shares.take(i as int) =~= env@.shares);
        }
        Ok(shares)
    }

    fn get_config(env: &Storage) -> (r: Result<ConfigDataKey, Error>) {
        match ConfigDataKey::get(env) {
            Some(config) => Ok(config),
            None => Err(Error::NotInitialized),
        }
    }

    fn get_allocation(env: &Storage, shareholder: Address, token: Address) -> (r: Result<
        i128,
        Error,
    >) {
        if !ConfigDataKey::is_initialized(env) {
            return Err(Error::NotInitialized);
        }
        match AllocationDataKey::get_allocation(env, shareholder, token) {
            Some(stored) => Ok(stored),
            None => Ok(0),
        }
    }
}


} // verus!
