//! The stored state of the ledger and the primitives that read and write it.
//!
//! Three kinds of entries are kept: the configuration, the share registry (the
//! ordered list of shareholders and one share entry per shareholder), and the
//! allocations, one per shareholder and token.

use crate::errors::Error;
use vstd::prelude::*;

verus! {

/// An identity: a shareholder, the administrator, a recipient or a token.
/// Two identities are the same where all three fields agree.
#[derive(Clone, Copy, Debug, PartialEq, Eq, Structural)]
pub struct Address {
    /// Whether the identity is a contract rather than an account.
    pub contract: bool,
    /// The upper sixteen bytes of the identity's key.
    pub hi: u128,
    /// The lower sixteen bytes of the identity's key.
    pub lo: u128,
}

/// A shareholder with its weight in basis points.
#[derive(Clone, Copy, Debug, PartialEq, Eq, Structural)]
pub struct ShareDataKey {
    pub shareholder: Address,
    pub share: i128,
}

/// The administrator, and whether the shares may still be changed.
#[derive(Clone, Copy, Debug, PartialEq, Eq, Structural)]
pub struct ConfigDataKey {
    pub admin: Address,
    pub mutable: bool,
}

/// The primitives on allocations.
#[derive(Clone, Copy, Debug, PartialEq, Eq, Structural)]
pub struct AllocationDataKey {}

/// What a shareholder may still withdraw of one token.
#[derive(Clone, Copy, Debug, PartialEq, Eq, Structural)]
pub struct AllocationEntry {
    pub shareholder: Address,
    pub token: Address,
    pub amount: i128,
}

/// The key under which an entry is stored.
#[derive(Clone, Copy, Debug, PartialEq, Eq, Structural)]
pub enum DataKey {
    /// The configuration.
    Config,
    /// The ordered list of all shareholders.
    Shareholders,
    /// The share of one shareholder.
    Share(Address),
    /// The allocation of a shareholder (first) for a token (second).
    Allocation(Address, Address),
}

/// The stored state.
pub struct Storage {
    config: Option<ConfigDataKey>,
    shareholders: Vec<Address>,
    shares: Vec<ShareDataKey>,
    allocations: Vec<AllocationEntry>,
}

/// The stored state as mathematical values.
pub struct StorageView {
    pub config: Option<ConfigDataKey>,
    pub shareholders: Seq<Address>,
    pub shares: Seq<ShareDataKey>,
    pub allocations: Seq<AllocationEntry>,
}

impl View for Storage {
    type V = StorageView;

    closed spec fn view(&self) -> StorageView {
        StorageView {
            config: self.config,
            shareholders: self.shareholders@,
            shares: self.shares@,
            allocations: self.allocations@,
        }
    }
}

/// Whether some share entry belongs to the shareholder.
pub open spec fn has_share(shares: Seq<ShareDataKey>, shareholder: Address) -> bool {
    exists|i: int| 0 <= i < shares.len() && (#[trigger] shares[i]).shareholder == shareholder
}

/// Where the shareholder's entry stands, if it has one.
pub open spec fn share_position(shares: Seq<ShareDataKey>, shareholder: Address) -> int {
    choose|i: int| 0 <= i < shares.len() && (#[trigger] shares[i]).shareholder == shareholder
}

/// The shareholder's entry, if it has one.
pub open spec fn share_of(shares: Seq<ShareDataKey>, shareholder: Address) -> Option<
    ShareDataKey,
> {
    if has_share(shares, shareholder) {
        Some(shares[share_position(shares, shareholder)])
    } else {
        None
    }
}

/// No two share entries belong to one shareholder.
pub open spec fn distinct_shares(shares: Seq<ShareDataKey>) -> bool {
    forall|i: int, j: int|
        0 <= i < j < shares.len() ==> (#[trigger] shares[i]).shareholder != (
        #[trigger] shares[j]).shareholder
}

/// Whether some allocation entry belongs to the shareholder and the token.
pub open spec fn has_allocation(
    allocations: Seq<AllocationEntry>,
    shareholder: Address,
    token: Address,
) -> bool {
    exists|i: int|
        0 <= i < allocations.len() && (#[trigger] allocations[i]).shareholder == shareholder
            && allocations[i].token == token
}

/// Where the entry of the shareholder and the token stands, if there is one.
pub open spec fn allocation_position(
    allocations: Seq<AllocationEntry>,
    shareholder: Address,
    token: Address,
) -> int {
    choose|i: int|
        0 <= i < allocations.len() && (#[trigger] allocations[i]).shareholder == shareholder
            && allocations[i].token == token
}

/// The stored allocation of the shareholder for the token, if there is one.
pub open spec fn allocation_of(
    allocations: Seq<AllocationEntry>,
    shareholder: Address,
    token: Address,
) -> Option<i128> {
    if has_allocation(allocations, shareholder, token) {
        Some(allocations[allocation_position(allocations, shareholder, token)].amount)
    } else {
        None
    }
}

/// What the shareholder may withdraw of the token: the stored allocation, or
/// zero where none is stored.
pub open spec fn amount_of(
    allocations: Seq<AllocationEntry>,
    shareholder: Address,
    token: Address,
) -> int {
    match allocation_of(allocations, shareholder, token) {
        Some(amount) => amount as int,
        None => 0,
    }
}

/// What one entry adds to the total of a token.
pub open spec fn counted(entry: AllocationEntry, token: Address) -> int {
    if entry.token == token {
        entry.amount as int
    } else {
        0
    }
}

/// The sum of all allocations of the token, over all shareholders.
pub open spec fn total_allocation(allocations: Seq<AllocationEntry>, token: Address) -> int
    decreases allocations.len(),
{
    if allocations.len() == 0 {
        0
    } else {
        total_allocation(allocations.drop_last(), token) + counted(allocations.last(), token)
    }
}

/// No two allocation entries belong to one shareholder and one token.
pub open spec fn distinct_allocations(allocations: Seq<AllocationEntry>) -> bool {
    forall|i: int, j: int|
        0 <= i < j < allocations.len() ==> !((#[trigger] allocations[i]).shareholder == (
        #[trigger] allocations[j]).shareholder && allocations[i].token == allocations[j].token)
}

/// Every stored allocation is positive: an emptied one is removed.
pub open spec fn positive_allocations(allocations: Seq<AllocationEntry>) -> bool {
    forall|i: int| 0 <= i < allocations.len() ==> (#[trigger] allocations[i]).amount > 0
}

/// The answer to a request to take `amount` from what the shareholder may
/// withdraw of the token: the amount must be positive and within it.
pub open spec fn debit_verdict(
    allocations: Seq<AllocationEntry>,
    shareholder: Address,
    token: Address,
    amount: int,
) -> Result<(), Error> {
    if amount <= 0 {
        Err(Error::ZeroWithdrawalAmount)
    } else if amount > amount_of(allocations, shareholder, token) {
        Err(Error::WithdrawalAmountAboveAllocation)
    } else {
        Ok(())
    }
}

impl StorageView {
    /// The state is well formed: share entries and allocation entries are
    /// keyed without repetition, every allocation is positive, and the total
    /// of each token fits the integer type of an amount.
    pub open spec fn wf(self) -> bool {
        &&& distinct_shares(self.shares)
        &&& distinct_allocations(self.allocations)
        &&& positive_allocations(self.allocations)
        &&& forall|token: Address| #[trigger]
            total_allocation(self.allocations, token) <= i128::MAX
    }

    /// Whether the shares can no longer be changed.
    pub open spec fn locked(self) -> bool {
        match self.config {
            Some(config) => !config.mutable,
            None => false,
        }
    }
}

/// In a keyed sequence the entry at a position is the one found by its key.
pub proof fn lemma_share_at(shares: Seq<ShareDataKey>, i: int)
    requires
        distinct_shares(shares),
        0 <= i < shares.len(),
    ensures
        has_share(shares, shares[i].shareholder),
        share_position(shares, shares[i].shareholder) == i,
        share_of(shares, shares[i].shareholder) == Some(shares[i]),
{
    let holder = shares[i].shareholder;
    assert(has_share(shares, holder));
    let j = share_position(shares, holder);
    assert(0 <= j < shares.len() && shares[j].shareholder == holder);
    if j < i {
        assert(shares[j].shareholder != shares[i].shareholder);
    } else if i < j {
        assert(shares[i].shareholder != shares[j].shareholder);
    }
}

/// In a keyed sequence the entry at a position is the one found by its key.
pub proof fn lemma_allocation_at(allocations: Seq<AllocationEntry>, i: int)
    requires
        distinct_allocations(allocations),
        0 <= i < allocations.len(),
    ensures
        has_allocation(allocations, allocations[i].shareholder, allocations[i].token),
        allocation_position(allocations, allocations[i].shareholder, allocations[i].token) == i,
        allocation_of(allocations, allocations[i].shareholder, allocations[i].token) == Some(
            allocations[i].amount,
        ),
{
    let holder = allocations[i].shareholder;
    let token = allocations[i].token;
    assert(has_allocation(allocations, holder, token));
    let j = allocation_position(allocations, holder, token);
    assert(0 <= j < allocations.len() && allocations[j].shareholder == holder && allocations[j].token
        == token);
    if j < i {
        assert(!(allocations[j].shareholder == allocations[i].shareholder && allocations[j].token
            == allocations[i].token));
    } else if i < j {
        assert(!(allocations[i].shareholder == allocations[j].shareholder && allocations[i].token
            == allocations[j].token));
    }
}

/// Appending an entry adds what it counts for.
pub proof fn lemma_total_push(allocations: Seq<AllocationEntry>, entry: AllocationEntry, token: Address)
    ensures
        total_allocation(allocations.push(entry), token) == total_allocation(allocations, token)
            + counted(entry, token),
{
    assert(allocations.push(entry).drop_last() =~= allocations);
}

/// Replacing an entry takes away what the old one counted for and adds what
/// the new one counts for.
pub proof fn lemma_total_update(
    allocations: Seq<AllocationEntry>,
    i: int,
    entry: AllocationEntry,
    token: Address,
)
    requires
        0 <= i < allocations.len(),
    ensures
        total_allocation(allocations.update(i, entry), token) == total_allocation(
            allocations,
            token,
        ) - counted(allocations[i], token) + counted(entry, token),
    decreases allocations.len(),
{
    let updated = allocations.update(i, entry);
    if i == allocations.len() - 1 {
        assert(updated.drop_last() =~= allocations.drop_last());
    } else {
        lemma_total_update(allocations.drop_last(), i, entry, token);
        assert(updated.drop_last() =~= allocations.drop_last().update(i, entry));
    }
}

/// Removing an entry takes away what it counted for.
pub proof fn lemma_total_remove(allocations: Seq<AllocationEntry>, i: int, token: Address)
    requires
        0 <= i < allocations.len(),
    ensures
        total_allocation(allocations.remove(i), token) == total_allocation(allocations, token)
            - counted(allocations[i], token),
    decreases allocations.len(),
{
    let removed = allocations.remove(i);
    if i == allocations.len() - 1 {
        assert(removed =~= allocations.drop_last());
    } else {
        lemma_total_remove(allocations.drop_last(), i, token);
        assert(removed.drop_last() =~= allocations.drop_last().remove(i));
    }
}

/// Where no allocation is negative, the total of a token is at least the
/// total over any leading part, and at least every single allocation of it.
pub proof fn lemma_total_bounds(allocations: Seq<AllocationEntry>, token: Address)
    requires
        positive_allocations(allocations),
    ensures
        0 <= total_allocation(allocations, token),
        forall|k: int|
            0 <= k <= allocations.len() ==> 0 <= #[trigger] total_allocation(
                allocations.take(k),
                token,
            ) <= total_allocation(allocations, token),
        forall|i: int|
            0 <= i < allocations.len() ==> counted(#[trigger] allocations[i], token)
                <= total_allocation(allocations, token),
    decreases allocations.len(),
{
    if allocations.len() == 0 {
        assert forall|k: int| 0 <= k <= allocations.len() implies 0 <= #[trigger] total_allocation(
            allocations.take(k),
            token,
        ) <= total_allocation(allocations, token) by {
            assert(allocations.take(k) =~= allocations);
        }
    } else {
        let front = allocations.drop_last();
        assert(positive_allocations(front)) by {
            assert forall|i: int| 0 <= i < front.len() implies (#[trigger] front[i]).amount > 0 by {
                assert(front[i] == allocations[i]);
            }
        }
        lemma_total_bounds(front, token);
        assert(allocations.last().amount > 0);
        assert forall|k: int| 0 <= k <= allocations.len() implies 0 <= #[trigger] total_allocation(
            allocations.take(k),
            token,
        ) <= total_allocation(allocations, token) by {
            if k == allocations.len() {
                assert(allocations.take(k) =~= allocations);
            } else {
                assert(allocations.take(k) =~= front.take(k));
            }
        }
        assert forall|i: int| 0 <= i < allocations.len() implies counted(
            #[trigger] allocations[i],
            token,
        ) <= total_allocation(allocations, token) by {
            if i < front.len() {
                assert(front[i] == allocations[i]);
            }
        }
    }
}

/// What a shareholder may withdraw of a token is never negative and never
/// above the total of the token.
pub proof fn lemma_amount_bounded(
    allocations: Seq<AllocationEntry>,
    shareholder: Address,
    token: Address,
)
    requires
        positive_allocations(allocations),
    ensures
        0 <= amount_of(allocations, shareholder, token) <= total_allocation(allocations, token),
        allocation_of(allocations, shareholder, token) is Some ==> amount_of(
            allocations,
            shareholder,
            token,
        ) > 0,
{
    lemma_total_bounds(allocations, token);
    if has_allocation(allocations, shareholder, token) {
        let i = allocation_position(allocations, shareholder, token);
        assert(counted(allocations[i], token) <= total_allocation(allocations, token));
    }
}

/// Replacing an entry by one with the same key changes the allocation under
/// that key and no other.
proof fn lemma_allocations_updated(allocations: Seq<AllocationEntry>, i: int, entry: AllocationEntry)
    requires
        distinct_allocations(allocations),
        0 <= i < allocations.len(),
        entry.shareholder == allocations[i].shareholder,
        entry.token == allocations[i].token,
    ensures
        distinct_allocations(allocations.update(i, entry)),
        allocation_of(allocations.update(i, entry), entry.shareholder, entry.token) == Some(
            entry.amount,
        ),
        forall|h: Address, t: Address|
            !(h == entry.shareholder && t == entry.token) ==> #[trigger] allocation_of(
                allocations.update(i, entry),
                h,
                t,
            ) == allocation_of(allocations, h, t),
{
    let updated = allocations.update(i, entry);
    assert forall|a: int, b: int| 0 <= a < b < updated.len() implies !((
    #[trigger] updated[a]).shareholder == (#[trigger] updated[b]).shareholder && updated[a].token
        == updated[b].token) by {
        assert(updated[a].shareholder == allocations[a].shareholder && updated[a].token
            == allocations[a].token);
        assert(updated[b].shareholder == allocations[b].shareholder && updated[b].token
            == allocations[b].token);
    }
    lemma_allocation_at(updated, i);
    assert forall|h: Address, t: Address|
        !(h == entry.shareholder && t == entry.token) implies #[trigger] allocation_of(
        updated,
        h,
        t,
    ) == allocation_of(allocations, h, t) by {
        if has_allocation(allocations, h, t) {
            let j = allocation_position(allocations, h, t);
            assert(updated[j] == allocations[j]);
            lemma_allocation_at(updated, j);
        } else if has_allocation(updated, h, t) {
            let j = allocation_position(updated, h, t);
            assert(allocations[j] == updated[j]);
        }
    }
}

/// Appending an entry under a key not yet stored sets the allocation under
/// that key and changes no other.
proof fn lemma_allocations_pushed(allocations: Seq<AllocationEntry>, entry: AllocationEntry)
    requires
        distinct_allocations(allocations),
        !has_allocation(allocations, entry.shareholder, entry.token),
    ensures
        distinct_allocations(allocations.push(entry)),
        allocation_of(allocations.push(entry), entry.shareholder, entry.token) == Some(
            entry.amount,
        ),
        forall|h: Address, t: Address|
            !(h == entry.shareholder && t == entry.token) ==> #[trigger] allocation_of(
                allocations.push(entry),
                h,
                t,
            ) == allocation_of(allocations, h, t),
{
    let pushed = allocations.push(entry);
    assert forall|a: int, b: int| 0 <= a < b < pushed.len() implies !((
    #[trigger] pushed[a]).shareholder == (#[trigger] pushed[b]).shareholder && pushed[a].token
        == pushed[b].token) by {
        assert(pushed[a] == allocations[a]);
        if b < allocations.len() {
            assert(pushed[b] == allocations[b]);
        }
    }
    lemma_allocation_at(pushed, allocations.len() as int);
    assert forall|h: Address, t: Address|
        !(h == entry.shareholder && t == entry.token) implies #[trigger] allocation_of(
        pushed,
        h,
        t,
    ) == allocation_of(allocations, h, t) by {
        if has_allocation(allocations, h, t) {
            let j = allocation_position(allocations, h, t);
            assert(pushed[j] == allocations[j]);
            lemma_allocation_at(pushed, j);
        } else if has_allocation(pushed, h, t) {
            let j = allocation_position(pushed, h, t);
            assert(allocations[j] == pushed[j]);
        }
    }
}

/// Removing an entry leaves nothing under its key and changes no other
/// allocation.
proof fn lemma_allocations_removed(allocations: Seq<AllocationEntry>, i: int)
    requires
        distinct_allocations(allocations),
        0 <= i < allocations.len(),
    ensures
        distinct_allocations(allocations.remove(i)),
        allocation_of(allocations.remove(i), allocations[i].shareholder, allocations[i].token)
            is None,
        forall|h: Address, t: Address|
            !(h == allocations[i].shareholder && t == allocations[i].token)
                ==> #[trigger] allocation_of(allocations.remove(i), h, t) == allocation_of(
                allocations,
                h,
                t,
            ),
{
    let removed = allocations.remove(i);
    let at = |k: int| if k < i { k } else { k + 1 };
    assert forall|k: int| 0 <= k < removed.len() implies #[trigger] removed[k] == allocations[at(
        k,
    )] by {}
    assert forall|a: int, b: int| 0 <= a < b < removed.len() implies !((
    #[trigger] removed[a]).shareholder == (#[trigger] removed[b]).shareholder && removed[a].token
        == removed[b].token) by {
        assert(removed[a] == allocations[at(a)]);
        assert(removed[b] == allocations[at(b)]);
    }
    if has_allocation(removed, allocations[i].shareholder, allocations[i].token) {
        let j = allocation_position(removed, allocations[i].shareholder, allocations[i].token);
        assert(removed[j] == allocations[at(j)]);
        if at(j) < i {
            assert(!(allocations[at(j)].shareholder == allocations[i].shareholder
                && allocations[at(j)].token == allocations[i].token));
        } else {
            assert(!(allocations[i].shareholder == allocations[at(j)].shareholder
                && allocations[i].token == allocations[at(j)].token));
        }
    }
    assert forall|h: Address, t: Address|
        !(h == allocations[i].shareholder && t == allocations[i].token)
            implies #[trigger] allocation_of(removed, h, t) == allocation_of(allocations, h, t) by {
        if has_allocation(allocations, h, t) {
            let j = allocation_position(allocations, h, t);
            let k = if j < i { j } else { j - 1 };
            assert(removed[k] == allocations[j]);
            lemma_allocation_at(removed, k);
        } else if has_allocation(removed, h, t) {
            let j = allocation_position(removed, h, t);
            assert(removed[j] == allocations[at(j)]);
        }
    }
}

/// Every allocation stays positive where one entry is replaced by, or
/// joined by, a positive one, or is removed.
proof fn lemma_positive_kept(allocations: Seq<AllocationEntry>, i: int, entry: AllocationEntry)
    requires
        positive_allocations(allocations),
        entry.amount > 0,
    ensures
        positive_allocations(allocations.push(entry)),
        0 <= i < allocations.len() ==> positive_allocations(allocations.update(i, entry)),
        0 <= i < allocations.len() ==> positive_allocations(allocations.remove(i)),
{
    let pushed = allocations.push(entry);
    assert forall|k: int| 0 <= k < pushed.len() implies (#[trigger] pushed[k]).amount > 0 by {
        if k < allocations.len() {
            assert(pushed[k] == allocations[k]);
        }
    }
    if 0 <= i < allocations.len() {
        let updated = allocations.update(i, entry);
        assert forall|k: int| 0 <= k < updated.len() implies (#[trigger] updated[k]).amount > 0 by {
            if k != i {
                assert(updated[k] == allocations[k]);
            }
        }
        let removed = allocations.remove(i);
        assert forall|k: int| 0 <= k < removed.len() implies (#[trigger] removed[k]).amount > 0 by {
            if k < i {
                assert(removed[k] == allocations[k]);
            } else {
                assert(removed[k] == allocations[k + 1]);
            }
        }
    }
}

/// Where the entry of the shareholder stands in the vector, if it has one.
fn find_share(shares: &Vec<ShareDataKey>, shareholder: &Address) -> (r: Option<usize>)
    ensures
        match r {
            Some(i) => i < shares.len() && shares[i as int].shareholder == *shareholder,
            None => !has_share(shares@, *shareholder),
        },
{
    let mut i: usize = 0;
    while i < shares.len()
        invariant
            i <= shares.len(),
            forall|k: int| 0 <= k < i ==> (#[trigger] shares@[k]).shareholder != *shareholder,
        decreases shares.len() - i,
    {
        if shares[i].shareholder == *shareholder {
            return Some(i);
        }
        i += 1;
    }
    None
}

/// Where the entry of the shareholder and the token stands in the vector, if
/// there is one.
fn find_allocation(allocations: &Vec<AllocationEntry>, shareholder: &Address, token: &Address) -> (r:
    Option<usize>)
    ensures
        match r {
            Some(i) => i < allocations.len() && allocations[i as int].shareholder == *shareholder
                && allocations[i as int].token == *token,
            None => !has_allocation(allocations@, *shareholder, *token),
        },
{
    let mut i: usize = 0;
    while i < allocations.len()
        invariant
            i <= allocations.len(),
            forall|k: int|
                0 <= k < i ==> !((#[trigger] allocations@[k]).shareholder == *shareholder
                    && allocations@[k].token == *token),
        decreases allocations.len() - i,
    {
        if allocations[i].shareholder == *shareholder && allocations[i].token == *token {
            return Some(i);
        }
        i += 1;
    }
    None
}

impl Storage {
    /// A state in which nothing is stored.
    pub fn new() -> (e: Storage)
        ensures
            e@.wf(),
            e@.config is None,
            e@.shareholders.len() == 0,
            e@.shares.len() == 0,
            e@.allocations.len() == 0,
    {
        Storage {
            config: None,
            shareholders: Vec::new(),
            shares: Vec::new(),
            allocations: Vec::new(),
        }
    }

    /// Whether an entry is stored under the key. The list of shareholders
    /// counts as stored where it is not empty.
    pub fn has(&self, key: &DataKey) -> (r: bool)
        ensures
            r == match *key {
                DataKey::Config => self@.config is Some,
                DataKey::Shareholders => self@.shareholders.len() > 0,
                DataKey::Share(shareholder) => has_share(self@.shares, shareholder),
                DataKey::Allocation(shareholder, token) => has_allocation(
                    self@.allocations,
                    shareholder,
                    token,
                ),
            },
    {
        match key {
            DataKey::Config => self.config.is_some(),
            DataKey::Shareholders => self.shareholders.len() > 0,
            DataKey::Share(shareholder) => find_share(&self.shares, shareholder).is_some(),
            DataKey::Allocation(shareholder, token) => find_allocation(
                &self.allocations,
                shareholder,
                token,
            ).is_some(),
        }
    }
}

impl ShareDataKey {
    /// Stores the share of the shareholder: in place of the entry that the
    /// shareholder has, or else behind all entries.
    pub fn save_share(e: &mut Storage, shareholder: Address, share: i128)
        requires
            old(e)@.wf(),
        ensures
            final(e)@.wf(),
            final(e)@.config == old(e)@.config,
            final(e)@.shareholders == old(e)@.shareholders,
            final(e)@.allocations == old(e)@.allocations,
            final(e)@.shares == if has_share(old(e)@.shares, shareholder) {
                old(e)@.shares.update(
                    share_position(old(e)@.shares, shareholder),
                    (ShareDataKey { shareholder, share }),
                )
            } else {
                old(e)@.shares.push((ShareDataKey { shareholder, share }))
            },
    {
        let entry = ShareDataKey { shareholder, share };
        let ghost before = e@.shares;
        match find_share(&e.shares, &shareholder) {
            Some(i) => {
                proof {
                    lemma_share_at(before, i as int);
                }
                e.shares.set(i, entry);
                proof {
                    let after = e@.shares;
                    assert forall|a: int, b: int| 0 <= a < b < after.len() implies (
                    #[trigger] after[a]).shareholder != (#[trigger] after[b]).shareholder by {
                        assert(after[a].shareholder == before[a].shareholder);
                        assert(after[b].shareholder == before[b].shareholder);
                    }
                }
            },
            None => {
                e.shares.push(entry);
                proof {
                    let after = e@.shares;
                    assert forall|a: int, b: int| 0 <= a < b < after.len() implies (
                    #[trigger] after[a]).shareholder != (#[trigger] after[b]).shareholder by {
                        assert(after[a] == before[a]);
                        if b < before.len() {
                            assert(after[b] == before[b]);
                        }
                    }
                }
            },
        }
    }

    /// The entry of the shareholder, if it has one.
    pub fn get_share(e: &Storage, shareholder: &Address) -> (r: Option<ShareDataKey>)
        requires
            e@.wf(),
        ensures
            r == share_of(e@.shares, *shareholder),
    {
        match find_share(&e.shares, shareholder) {
            Some(i) => {
                proof {
                    lemma_share_at(e@.shares, i as int);
                }
                Some(e.shares[i])
            },
            None => None,
        }
    }

    /// Removes the entry of the shareholder, if it has one.
    pub fn remove_share(e: &mut Storage, shareholder: &Address)
        requires
            old(e)@.wf(),
        ensures
            final(e)@.wf(),
            final(e)@.config == old(e)@.config,
            final(e)@.shareholders == old(e)@.shareholders,
            final(e)@.allocations == old(e)@.allocations,
            final(e)@.shares == if has_share(old(e)@.shares, *shareholder) {
                old(e)@.shares.remove(share_position(old(e)@.shares, *shareholder))
            } else {
                old(e)@.shares
            },
    {
        let ghost before = e@.shares;
        match find_share(&e.shares, shareholder) {
            Some(i) => {
                proof {
                    lemma_share_at(before, i as int);
                }
                e.shares.remove(i);
                proof {
                    let after = e@.shares;
                    assert forall|a: int, b: int| 0 <= a < b < after.len() implies (
                    #[trigger] after[a]).shareholder != (#[trigger] after[b]).shareholder by {
                        let from_a = if a < i { a } else { a + 1 };
                        let from_b = if b < i { b } else { b + 1 };
                        assert(after[a] == before[from_a]);
                        assert(after[b] == before[from_b]);
                    }
                }
            },
            None => {},
        }
    }

    /// Stores the ordered list of all shareholders.
    pub fn save_shareholders(e: &mut Storage, shareholders: Vec<Address>)
        ensures
            final(e)@.shareholders == shareholders@,
            final(e)@.config == old(e)@.config,
            final(e)@.shares == old(e)@.shares,
            final(e)@.allocations == old(e)@.allocations,
    {
        e.shareholders = shareholders;
    }

    /// The ordered list of all shareholders; empty where none is stored.
    pub fn get_shareholders(e: &Storage) -> (r: Vec<Address>)
        ensures
            r@ == e@.shareholders,
    {
        let mut list: Vec<Address> = Vec::new();
        let mut i: usize = 0;
        while i < e.shareholders.len()
            invariant
                i <= e.shareholders.len(),
                list@ == e.shareholders@.take(i as int),
            decreases e.shareholders.len() - i,
        {
            list.push(e.shareholders[i]);
            proof {
                assert(list@ =~= e.shareholders@.take(i + 1));
            }
            i += 1;
        }
        proof {
            assert(list@ =~= e.shareholders@);
        }
        list
    }

    /// Removes the list of shareholders.
    pub fn remove_shareholders(e: &mut Storage)
        ensures
            final(e)@.shareholders.len() == 0,
            final(e)@.config == old(e)@.config,
            final(e)@.shares == old(e)@.shares,
            final(e)@.allocations == old(e)@.allocations,
    {
        e.shareholders.clear();
    }
}

impl ConfigDataKey {
    /// Stores the configuration.
    pub fn init(e: &mut Storage, admin: Address, mutable: bool)
        ensures
            final(e)@.config == Some((ConfigDataKey { admin, mutable })),
            final(e)@.shareholders == old(e)@.shareholders,
            final(e)@.shares == old(e)@.shares,
            final(e)@.allocations == old(e)@.allocations,
    {
        e.config = Some(ConfigDataKey { admin, mutable });
    }

    /// The configuration, if one is stored.
    pub fn get(e: &Storage) -> (r: Option<ConfigDataKey>)
        ensures
            r == e@.config,
    {
        e.config
    }

    /// Makes the shares unchangeable from now on. Nothing changes where they
    /// are so already, or where no configuration is stored.
    pub fn lock_contract(e: &mut Storage)
        ensures
            final(e)@.config == match old(e)@.config {
                Some(config) => Some((ConfigDataKey { admin: config.admin, mutable: false })),
                None => None,
            },
            final(e)@.shareholders == old(e)@.shareholders,
            final(e)@.shares == old(e)@.shares,
            final(e)@.allocations == old(e)@.allocations,
    {
        match e.config {
            Some(config) => {
                e.config = Some(ConfigDataKey { admin: config.admin, mutable: false });
            },
            None => {},
        }
    }

    /// Whether a configuration is stored.
    pub fn is_initialized(e: &Storage) -> (r: bool)
        ensures
            r == (e@.config is Some),
    {
        e.config.is_some()
    }

    /// Succeeds where the caller, the identity that has been proved to act,
    /// is the stored administrator.
    pub fn require_admin(e: &Storage, caller: &Address) -> (r: Result<(), Error>)
        ensures
            r == match e@.config {
                None => Err::<(), Error>(Error::NotInitialized),
                Some(config) => if config.admin == *caller {
                    Ok(())
                } else {
                    Err(Error::Unauthorized)
                },
            },
    {
        match e.config {
            None => Err(Error::NotInitialized),
            Some(config) => {
                if config.admin == *caller {
                    Ok(())
                } else {
                    Err(Error::Unauthorized)
                }
            },
        }
    }

    /// Whether the shares can no longer be changed. Without a configuration
    /// nothing is locked.
    pub fn is_contract_locked(e: &Storage) -> (r: bool)
        ensures
            r == e@.locked(),
    {
        match e.config {
            Some(config) => !config.mutable,
            None => false,
        }
    }
}

impl AllocationDataKey {
    /// Sets the allocation of the shareholder for the token to a positive
    /// amount.
    pub fn save_allocation(e: &mut Storage, shareholder: Address, token: Address, allocation: i128)
        requires
            old(e)@.wf(),
            allocation > 0,
            total_allocation(old(e)@.allocations, token) - amount_of(
                old(e)@.allocations,
                shareholder,
                token,
            ) + allocation <= i128::MAX,
        ensures
            final(e)@.wf(),
            final(e)@.config == old(e)@.config,
            final(e)@.shareholders == old(e)@.shareholders,
            final(e)@.shares == old(e)@.shares,
            final(e)@.allocations == if has_allocation(old(e)@.allocations, shareholder, token) {
                old(e)@.allocations.update(
                    allocation_position(old(e)@.allocations, shareholder, token),
                    (AllocationEntry { shareholder, token, amount: allocation }),
                )
            } else {
                old(e)@.allocations.push((AllocationEntry { shareholder, token, amount: allocation }))
            },
            allocation_of(final(e)@.allocations, shareholder, token) == Some(allocation),
            forall|h: Address, t: Address|
                !(h == shareholder && t == token) ==> #[trigger] allocation_of(
                    final(e)@.allocations,
                    h,
                    t,
                ) == allocation_of(old(e)@.allocations, h, t),
            total_allocation(final(e)@.allocations, token) == total_allocation(
                old(e)@.allocations,
                token,
            ) - amount_of(old(e)@.allocations, shareholder, token) + allocation,
            forall|t: Address|
                t != token ==> #[trigger] total_allocation(final(e)@.allocations, t)
                    == total_allocation(old(e)@.allocations, t),
    {
        let entry = AllocationEntry { shareholder, token, amount: allocation };
        let ghost before = e@.allocations;
        match find_allocation(&e.allocations, &shareholder, &token) {
            Some(i) => {
                proof {
                    lemma_allocation_at(before, i as int);
                    lemma_allocations_updated(before, i as int, entry);
                    lemma_positive_kept(before, i as int, entry);
                    assert forall|t: Address| #[trigger]
                        total_allocation(before.update(i as int, entry), t) == total_allocation(
                            before,
                            t,
                        ) - counted(before[i as int], t) + counted(entry, t) by {
                        lemma_total_update(before, i as int, entry, t);
                    }
                }
                e.allocations.set(i, entry);
            },
            None => {
                proof {
                    lemma_allocations_pushed(before, entry);
                    lemma_positive_kept(before, 0, entry);
                    assert forall|t: Address| #[trigger]
                        total_allocation(before.push(entry), t) == total_allocation(before, t)
                            + counted(entry, t) by {
                        lemma_total_push(before, entry, t);
                    }
                }
                e.allocations.push(entry);
            },
        }
    }

    /// Removes the allocation of the shareholder for the token, if there is
    /// one.
    pub fn remove_allocation(e: &mut Storage, shareholder: Address, token: Address)
        requires
            old(e)@.wf(),
        ensures
            final(e)@.wf(),
            final(e)@.config == old(e)@.config,
            final(e)@.shareholders == old(e)@.shareholders,
            final(e)@.shares == old(e)@.shares,
            final(e)@.allocations == if has_allocation(old(e)@.allocations, shareholder, token) {
                old(e)@.allocations.remove(
                    allocation_position(old(e)@.allocations, shareholder, token),
                )
            } else {
                old(e)@.allocations
            },
            allocation_of(final(e)@.allocations, shareholder, token) is None,
            forall|h: Address, t: Address|
                !(h == shareholder && t == token) ==> #[trigger] allocation_of(
                    final(e)@.allocations,
                    h,
                    t,
                ) == allocation_of(old(e)@.allocations, h, t),
            total_allocation(final(e)@.allocations, token) == total_allocation(
                old(e)@.allocations,
                token,
            ) - amount_of(old(e)@.allocations, shareholder, token),
            forall|t: Address|
                t != token ==> #[trigger] total_allocation(final(e)@.allocations, t)
                    == total_allocation(old(e)@.allocations, t),
    {
        let ghost before = e@.allocations;
        match find_allocation(&e.allocations, &shareholder, &token) {
            Some(i) => {
                proof {
                    lemma_allocation_at(before, i as int);
                    lemma_allocations_removed(before, i as int);
                    lemma_positive_kept(before, i as int, before[i as int]);
                    assert forall|t: Address| #[trigger]
                        total_allocation(before.remove(i as int), t) == total_allocation(before, t)
                            - counted(before[i as int], t) by {
                        lemma_total_remove(before, i as int, t);
                    }
                }
                e.allocations.remove(i);
            },
            None => {},
        }
    }

    /// The stored allocation of the shareholder for the token, if there is
    /// one.
    pub fn get_allocation(e: &Storage, shareholder: Address, token: Address) -> (r: Option<i128>)
        requires
            e@.wf(),
        ensures
            r == allocation_of(e@.allocations, shareholder, token),
    {
        match find_allocation(&e.allocations, &shareholder, &token) {
            Some(i) => {
                proof {
                    lemma_allocation_at(e@.allocations, i as int);
                }
                Some(e.allocations[i].amount)
            },
            None => None,
        }
    }

    /// Adds an amount to what the shareholder may withdraw of the token. The
    /// caller sees to it that the amount is not negative; an amount of zero
    /// stores nothing.
    pub fn credit(e: &mut Storage, shareholder: Address, token: Address, amount: i128)
        requires
            old(e)@.wf(),
            0 <= amount,
            total_allocation(old(e)@.allocations, token) + amount <= i128::MAX,
        ensures
            final(e)@.wf(),
            final(e)@.config == old(e)@.config,
            final(e)@.shareholders == old(e)@.shareholders,
            final(e)@.shares == old(e)@.shares,
            amount == 0 ==> final(e)@ == old(e)@,
            amount_of(final(e)@.allocations, shareholder, token) == amount_of(
                old(e)@.allocations,
                shareholder,
                token,
            ) + amount,
            forall|h: Address, t: Address|
                !(h == shareholder && t == token) ==> #[trigger] allocation_of(
                    final(e)@.allocations,
                    h,
                    t,
                ) == allocation_of(old(e)@.allocations, h, t),
            total_allocation(final(e)@.allocations, token) == total_allocation(
                old(e)@.allocations,
                token,
            ) + amount,
            forall|t: Address|
                t != token ==> #[trigger] total_allocation(final(e)@.allocations, t)
                    == total_allocation(old(e)@.allocations, t),
    {
        if amount > 0 {
            let allocation = match AllocationDataKey::get_allocation(e, shareholder, token) {
                Some(stored) => stored,
                None => 0,
            };
            proof {
                lemma_amount_bounded(e@.allocations, shareholder, token);
            }
            AllocationDataKey::save_allocation(e, shareholder, token, allocation + amount);
        }
    }

    /// Takes a positive amount from what the shareholder may withdraw of the
    /// token, if it is within it. An allocation that is emptied is removed.
    pub fn debit(e: &mut Storage, shareholder: Address, token: Address, amount: i128) -> (r: Result<
        (),
        Error,
    >)
        requires
            old(e)@.wf(),
        ensures
            final(e)@.wf(),
            r == debit_verdict(old(e)@.allocations, shareholder, token, amount as int),
            r is Err ==> final(e)@ == old(e)@,
            final(e)@.config == old(e)@.config,
            final(e)@.shareholders == old(e)@.shareholders,
            final(e)@.shares == old(e)@.shares,
            r is Ok ==> allocation_of(final(e)@.allocations, shareholder, token) == if amount
                == amount_of(old(e)@.allocations, shareholder, token) {
                None::<i128>
            } else {
                Some((amount_of(old(e)@.allocations, shareholder, token) - amount) as i128)
            },
            r is Ok ==> forall|h: Address, t: Address|
                !(h == shareholder && t == token) ==> #[trigger] allocation_of(
                    final(e)@.allocations,
                    h,
                    t,
                ) == allocation_of(old(e)@.allocations, h, t),
            r is Ok ==> total_allocation(final(e)@.allocations, token) == total_allocation(
                old(e)@.allocations,
                token,
            ) - amount,
            r is Ok ==> forall|t: Address|
                t != token ==> #[trigger] total_allocation(final(e)@.allocations, t)
                    == total_allocation(old(e)@.allocations, t),
    {
        let allocation = match AllocationDataKey::get_allocation(e, shareholder, token) {
            Some(stored) => stored,
            None => 0,
        };
        if amount <= 0 {
            return Err(Error::ZeroWithdrawalAmount);
        }
        if amount > allocation {
            return Err(Error::WithdrawalAmountAboveAllocation);
        }
        proof {
            lemma_amount_bounded(e@.allocations, shareholder, token);
        }
        if amount == allocation {
            AllocationDataKey::remove_allocation(e, shareholder, token);
        } else {
            AllocationDataKey::save_allocation(e, shareholder, token, allocation - amount);
        }
        Ok(())
    }

    /// All stored allocations.
    pub fn list_allocations(e: &Storage) -> (r: Vec<AllocationEntry>)
        ensures
            r@ == e@.allocations,
    {
        let mut list: Vec<AllocationEntry> = Vec::new();
        let mut i: usize = 0;
        while i < e.allocations.len()
            invariant
                i <= e.allocations.len(),
                list@ == e.allocations@.take(i as int),
            decreases e.allocations.len() - i,
        {
            list.push(e.allocations[i]);
            proof {
                assert(list@ =~= e.allocations@.take(i + 1));
            }
            i += 1;
        }
        proof {
            assert(list@ =~= e.allocations@);
        }
        list
    }

    /// The sum of all allocations of the token, over all shareholders.
    pub fn get_total_allocation(e: &Storage, token: &Address) -> (r: i128)
        requires
            e@.wf(),
        ensures
            r == total_allocation(e@.allocations, *token),
            r >= 0,
    {
        let mut total: i128 = 0;
        let mut i: usize = 0;
        proof {
            lemma_total_bounds(e@.allocations, *token);
            assert(e@.allocations.take(0) =~= Seq::<AllocationEntry>::empty());
        }
        while i < e.allocations.len()
            invariant
                i <= e.allocations.len(),
                e@.wf(),
                e@.allocations == e.allocations@,
                total == total_allocation(e@.allocations.take(i as int), *token),
                forall|k: int|
                    0 <= k <= e@.allocations.len() ==> 0 <= #[trigger] total_allocation(
                        e@.allocations.take(k),
                        *token,
                    ) <= total_allocation(e@.allocations, *token),
            decreases e.allocations.len() - i,
        {
            proof {
                assert(e@.allocations.take(i + 1).drop_last() =~= e@.allocations.take(i as int));
                assert(total_allocation(e@.allocations.take(i + 1), *token) <= total_allocation(
                    e@.allocations,
                    *token,
                ));
            }
            if e.allocations[i].token == *token {
                total = total + e.allocations[i].amount;
            }
            i += 1;
        }
        proof {
            assert(e@.allocations.take(i as int) =~= e@.allocations);
        }
        total
    }
}


} // verus!
