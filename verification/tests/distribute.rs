use splitter::contract::{Splitter, SplitterTrait};
use splitter::errors::Error;
use splitter::execute::transfer_tokens::{execute, Transfer};
use splitter::math::basis_points_of;
use splitter::storage::{Address, AllocationDataKey, DataKey, ShareDataKey, Storage};

fn account(n: u128) -> Address {
    Address { contract: false, hi: 0, lo: n }
}

fn token(n: u128) -> Address {
    Address { contract: true, hi: 7, lo: n }
}

fn create_splitter_with_shares(admin: &Address, shares: Vec<ShareDataKey>) -> Storage {
    let mut env = Storage::new();
    assert_eq!(Splitter::init(&mut env, *admin, shares, true), Ok(()));
    env
}

#[test]
fn distribute_happy_path() {
    let admin = account(1);
    let shareholder_1 = account(2);
    let shareholder_2 = account(3);

    let mut env = create_splitter_with_shares(
        &admin,
        vec![
            ShareDataKey { shareholder: shareholder_1, share: 8050 },
            ShareDataKey { shareholder: shareholder_2, share: 1950 },
        ],
    );

    let token_address = token(1);
    let balance: i128 = 1_000_000_000;

    assert_eq!(Splitter::distribute_tokens(&mut env, token_address, balance), Ok(()));

    assert_eq!(
        Splitter::get_allocation(&env, shareholder_1, token_address),
        Ok(805_000_000)
    );
    assert_eq!(
        Splitter::get_allocation(&env, shareholder_2, token_address),
        Ok(195_000_000)
    );
}

#[test]
fn test_not_initialized() {
    let mut env = Storage::new();

    assert_eq!(
        Splitter::distribute_tokens(&mut env, token(1), 1_000_000_000),
        Err(Error::NotInitialized)
    );
}

#[test]
fn end_to_end_distribute_and_withdraw() {
    let admin = account(1);
    let a = account(2);
    let b = account(3);
    let asset = token(1);
    let mut env = create_splitter_with_shares(
        &admin,
        vec![
            ShareDataKey { shareholder: a, share: 8050 },
            ShareDataKey { shareholder: b, share: 1950 },
        ],
    );
    let mut balance: i128 = 1_000_000_000;
    assert_eq!(Splitter::distribute_tokens(&mut env, asset, balance), Ok(()));
    assert_eq!(Splitter::get_allocation(&env, a, asset), Ok(805_000_000));
    assert_eq!(Splitter::get_allocation(&env, b, asset), Ok(195_000_000));
    assert_eq!(AllocationDataKey::get_total_allocation(&env, &asset), 1_000_000_000);
    assert_eq!(balance - AllocationDataKey::get_total_allocation(&env, &asset), 0);

    assert_eq!(
        Splitter::withdraw_allocation(&mut env, &a, asset, a, 805_000_000),
        Ok(Transfer { token: asset, to: a, amount: 805_000_000 })
    );
    balance -= 805_000_000;
    assert_eq!(Splitter::get_allocation(&env, a, asset), Ok(0));
    assert_eq!(AllocationDataKey::get_allocation(&env, a, asset), None);
    assert!(!env.has(&DataKey::Allocation(a, asset)));
    assert_eq!(
        Splitter::withdraw_allocation(&mut env, &a, asset, a, 805_000_000),
        Err(Error::WithdrawalAmountAboveAllocation)
    );
    assert_eq!(Splitter::get_allocation(&env, b, asset), Ok(195_000_000));
    assert_eq!(AllocationDataKey::get_total_allocation(&env, &asset), balance);
}

#[test]
fn distribute_rounds_down_and_leaves_the_rest_unallocated() {
    let admin = account(1);
    let asset = token(1);
    let mut env = create_splitter_with_shares(
        &admin,
        vec![
            ShareDataKey { shareholder: account(2), share: 3333 },
            ShareDataKey { shareholder: account(3), share: 3333 },
            ShareDataKey { shareholder: account(4), share: 3334 },
        ],
    );
    assert_eq!(Splitter::distribute_tokens(&mut env, asset, 100), Ok(()));
    assert_eq!(Splitter::get_allocation(&env, account(2), asset), Ok(33));
    assert_eq!(Splitter::get_allocation(&env, account(3), asset), Ok(33));
    assert_eq!(Splitter::get_allocation(&env, account(4), asset), Ok(33));
    assert_eq!(AllocationDataKey::get_total_allocation(&env, &asset), 99);
    assert_eq!(
        Splitter::transfer_tokens(&env, &admin, asset, 100, account(9), 2),
        Err(Error::TransferAmountAboveUnusedBalance)
    );
    assert_eq!(
        Splitter::transfer_tokens(&env, &admin, asset, 100, account(9), 1),
        Ok(Transfer { token: asset, to: account(9), amount: 1 })
    );
}

#[test]
fn distribute_skips_portions_of_zero() {
    let admin = account(1);
    let asset = token(1);
    let mut env = create_splitter_with_shares(
        &admin,
        vec![
            ShareDataKey { shareholder: account(2), share: 9999 },
            ShareDataKey { shareholder: account(3), share: 1 },
        ],
    );
    assert_eq!(Splitter::distribute_tokens(&mut env, asset, 9999), Ok(()));
    assert_eq!(Splitter::get_allocation(&env, account(2), asset), Ok(9998));
    assert_eq!(Splitter::get_allocation(&env, account(3), asset), Ok(0));
    assert_eq!(AllocationDataKey::get_allocation(&env, account(3), asset), None);
    assert!(!env.has(&DataKey::Allocation(account(3), asset)));
    assert!(env.has(&DataKey::Allocation(account(2), asset)));
}

#[test]
fn distribute_splits_only_what_is_not_allocated_yet() {
    let admin = account(1);
    let a = account(2);
    let b = account(3);
    let asset = token(1);
    let mut env = create_splitter_with_shares(
        &admin,
        vec![
            ShareDataKey { shareholder: a, share: 8050 },
            ShareDataKey { shareholder: b, share: 1950 },
        ],
    );
    assert_eq!(Splitter::distribute_tokens(&mut env, asset, 1_000_000_000), Ok(()));
    assert_eq!(Splitter::distribute_tokens(&mut env, asset, 1_000_000_000), Ok(()));
    assert_eq!(Splitter::get_allocation(&env, a, asset), Ok(805_000_000));
    assert_eq!(Splitter::get_allocation(&env, b, asset), Ok(195_000_000));
    assert_eq!(Splitter::distribute_tokens(&mut env, asset, 1_000_010_000), Ok(()));
    assert_eq!(Splitter::get_allocation(&env, a, asset), Ok(805_008_050));
    assert_eq!(Splitter::get_allocation(&env, b, asset), Ok(195_001_950));
    assert_eq!(Splitter::distribute_tokens(&mut env, asset, 5), Ok(()));
    assert_eq!(AllocationDataKey::get_total_allocation(&env, &asset), 1_000_010_000);
}

#[test]
fn distribute_keeps_tokens_apart() {
    let admin = account(1);
    let a = account(2);
    let b = account(3);
    let mut env = create_splitter_with_shares(
        &admin,
        vec![
            ShareDataKey { shareholder: a, share: 2500 },
            ShareDataKey { shareholder: b, share: 7500 },
        ],
    );
    assert_eq!(Splitter::distribute_tokens(&mut env, token(1), 1000), Ok(()));
    assert_eq!(Splitter::distribute_tokens(&mut env, token(2), 40), Ok(()));
    assert_eq!(Splitter::get_allocation(&env, a, token(1)), Ok(250));
    assert_eq!(Splitter::get_allocation(&env, b, token(1)), Ok(750));
    assert_eq!(Splitter::get_allocation(&env, a, token(2)), Ok(10));
    assert_eq!(Splitter::get_allocation(&env, b, token(2)), Ok(30));
    assert_eq!(AllocationDataKey::get_total_allocation(&env, &token(1)), 1000);
    assert_eq!(AllocationDataKey::get_total_allocation(&env, &token(2)), 40);
    assert_eq!(AllocationDataKey::get_total_allocation(&env, &token(3)), 0);
}

#[test]
fn distribute_takes_the_largest_balance() {
    let admin = account(1);
    let a = account(2);
    let b = account(3);
    let asset = token(1);
    let mut env = create_splitter_with_shares(
        &admin,
        vec![
            ShareDataKey { shareholder: a, share: 5000 },
            ShareDataKey { shareholder: b, share: 5000 },
        ],
    );
    assert_eq!(Splitter::distribute_tokens(&mut env, asset, i128::MAX), Ok(()));
    assert_eq!(Splitter::get_allocation(&env, a, asset), Ok(i128::MAX / 2));
    assert_eq!(Splitter::get_allocation(&env, b, asset), Ok(i128::MAX / 2));
    assert_eq!(AllocationDataKey::get_total_allocation(&env, &asset), i128::MAX - 1);
}

#[test]
fn distribute_of_nothing_or_less_changes_nothing() {
    let admin = account(1);
    let a = account(2);
    let asset = token(1);
    let mut env = create_splitter_with_shares(
        &admin,
        vec![
            ShareDataKey { shareholder: a, share: 5000 },
            ShareDataKey { shareholder: account(3), share: 5000 },
        ],
    );
    assert_eq!(Splitter::distribute_tokens(&mut env, asset, 0), Ok(()));
    assert_eq!(Splitter::distribute_tokens(&mut env, asset, -5), Ok(()));
    assert_eq!(AllocationDataKey::get_allocation(&env, a, asset), None);
    assert_eq!(AllocationDataKey::get_total_allocation(&env, &asset), 0);
}

#[test]
fn allocations_outlive_a_change_of_shares() {
    let admin = account(1);
    let a = account(2);
    let b = account(3);
    let c = account(4);
    let asset = token(1);
    let mut env = create_splitter_with_shares(
        &admin,
        vec![
            ShareDataKey { shareholder: a, share: 5000 },
            ShareDataKey { shareholder: b, share: 5000 },
        ],
    );
    assert_eq!(Splitter::distribute_tokens(&mut env, asset, 100), Ok(()));
    assert_eq!(
        Splitter::update_shares(
            &mut env,
            &admin,
            vec![
                ShareDataKey { shareholder: b, share: 1000 },
                ShareDataKey { shareholder: c, share: 9000 },
            ]
        ),
        Ok(())
    );
    assert_eq!(Splitter::distribute_tokens(&mut env, asset, 200), Ok(()));
    assert_eq!(Splitter::get_allocation(&env, a, asset), Ok(50));
    assert_eq!(Splitter::get_allocation(&env, b, asset), Ok(60));
    assert_eq!(Splitter::get_allocation(&env, c, asset), Ok(90));
    assert_eq!(
        Splitter::withdraw_allocation(&mut env, &a, asset, a, 50),
        Ok(Transfer { token: asset, to: a, amount: 50 })
    );
}

#[test]
fn withdraw_checks_in_order() {
    let admin = account(1);
    let a = account(2);
    let b = account(3);
    let asset = token(1);
    let mut env = Storage::new();
    assert_eq!(
        Splitter::withdraw_allocation(&mut env, &a, asset, a, 1),
        Err(Error::NotInitialized)
    );
    assert_eq!(Splitter::get_allocation(&env, a, asset), Err(Error::NotInitialized));
    assert_eq!(
        Splitter::init(
            &mut env,
            admin,
            vec![
                ShareDataKey { shareholder: a, share: 6000 },
                ShareDataKey { shareholder: b, share: 4000 },
            ],
            true
        ),
        Ok(())
    );
    assert_eq!(Splitter::distribute_tokens(&mut env, asset, 1000), Ok(()));
    assert_eq!(
        Splitter::withdraw_allocation(&mut env, &b, asset, a, 0),
        Err(Error::Unauthorized)
    );
    assert_eq!(
        Splitter::withdraw_allocation(&mut env, &admin, asset, a, 10),
        Err(Error::Unauthorized)
    );
    assert_eq!(
        Splitter::withdraw_allocation(&mut env, &a, asset, a, 0),
        Err(Error::ZeroWithdrawalAmount)
    );
    assert_eq!(
        Splitter::withdraw_allocation(&mut env, &a, asset, a, -1),
        Err(Error::ZeroWithdrawalAmount)
    );
    assert_eq!(
        Splitter::withdraw_allocation(&mut env, &a, asset, a, 601),
        Err(Error::WithdrawalAmountAboveAllocation)
    );
    assert_eq!(
        Splitter::withdraw_allocation(&mut env, &a, token(2), a, 1),
        Err(Error::WithdrawalAmountAboveAllocation)
    );
    assert_eq!(Splitter::get_allocation(&env, a, asset), Ok(600));
    assert_eq!(
        Splitter::withdraw_allocation(&mut env, &a, asset, a, 599),
        Ok(Transfer { token: asset, to: a, amount: 599 })
    );
    assert_eq!(Splitter::get_allocation(&env, a, asset), Ok(1));
    assert_eq!(AllocationDataKey::get_allocation(&env, a, asset), Some(1));
    assert_eq!(AllocationDataKey::get_total_allocation(&env, &asset), 401);
    assert_eq!(
        Splitter::withdraw_allocation(&mut env, &a, asset, a, 1),
        Ok(Transfer { token: asset, to: a, amount: 1 })
    );
    assert_eq!(AllocationDataKey::get_allocation(&env, a, asset), None);
    assert_eq!(Splitter::get_allocation(&env, b, asset), Ok(400));
}

#[test]
fn transfer_checks_in_order() {
    let admin = account(1);
    let a = account(2);
    let b = account(3);
    let asset = token(1);
    let recipient = account(9);
    let mut env = Storage::new();
    assert_eq!(
        Splitter::transfer_tokens(&env, &admin, asset, 100, recipient, 1),
        Err(Error::NotInitialized)
    );
    assert_eq!(
        Splitter::init(
            &mut env,
            admin,
            vec![
                ShareDataKey { shareholder: a, share: 6000 },
                ShareDataKey { shareholder: b, share: 4000 },
            ],
            true
        ),
        Ok(())
    );
    assert_eq!(Splitter::distribute_tokens(&mut env, asset, 1000), Ok(()));
    assert_eq!(
        Splitter::transfer_tokens(&env, &a, asset, 1500, recipient, 0),
        Err(Error::Unauthorized)
    );
    assert_eq!(
        Splitter::transfer_tokens(&env, &admin, asset, 1500, recipient, 0),
        Err(Error::ZeroTransferAmount)
    );
    assert_eq!(
        Splitter::transfer_tokens(&env, &admin, asset, 1500, recipient, -3),
        Err(Error::ZeroTransferAmount)
    );
    assert_eq!(
        Splitter::transfer_tokens(&env, &admin, asset, 1500, recipient, 1501),
        Err(Error::TransferAmountAboveBalance)
    );
    assert_eq!(
        Splitter::transfer_tokens(&env, &admin, asset, 1500, recipient, 501),
        Err(Error::TransferAmountAboveUnusedBalance)
    );
    assert_eq!(
        Splitter::transfer_tokens(&env, &admin, asset, 1500, recipient, 500),
        Ok(Transfer { token: asset, to: recipient, amount: 500 })
    );
    assert_eq!(
        Splitter::transfer_tokens(&env, &admin, asset, 1000, recipient, 1),
        Err(Error::TransferAmountAboveUnusedBalance)
    );
    assert_eq!(
        Splitter::transfer_tokens(&env, &admin, token(2), 70, recipient, 70),
        Ok(Transfer { token: token(2), to: recipient, amount: 70 })
    );
    assert_eq!(
        execute(&env, &admin, asset, 1500, recipient, 500),
        Ok(Transfer { token: asset, to: recipient, amount: 500 })
    );
    assert_eq!(
        execute(&env, &admin, asset, i128::MIN, recipient, 1),
        Err(Error::TransferAmountAboveBalance)
    );
}

#[test]
fn transfer_never_reaches_into_allocations() {
    let admin = account(1);
    let asset = token(1);
    let mut env = create_splitter_with_shares(
        &admin,
        vec![
            ShareDataKey { shareholder: account(2), share: 3333 },
            ShareDataKey { shareholder: account(3), share: 6667 },
        ],
    );
    let balance: i128 = 1_000_003;
    assert_eq!(Splitter::distribute_tokens(&mut env, asset, balance), Ok(()));
    let total = AllocationDataKey::get_total_allocation(&env, &asset);
    assert_eq!(total, 333_300 + 666_702);
    let mut amount: i128 = 0;
    while amount <= 5 {
        match Splitter::transfer_tokens(&env, &admin, asset, balance, account(9), amount) {
            Ok(transfer) => {
                assert_eq!(transfer.amount, amount);
                assert!(balance - amount >= total);
            }
            Err(_) => assert!(amount <= 0 || balance - amount < total),
        }
        amount += 1;
    }
}

#[test]
fn basis_points_of_rounds_down() {
    assert_eq!(basis_points_of(1_000_000_000, 8050), 805_000_000);
    assert_eq!(basis_points_of(1_000_000_000, 1950), 195_000_000);
    assert_eq!(basis_points_of(9999, 1), 0);
    assert_eq!(basis_points_of(10000, 1), 1);
    assert_eq!(basis_points_of(19999, 1), 1);
    assert_eq!(basis_points_of(7, 5000), 3);
    assert_eq!(basis_points_of(0, 10000), 0);
    assert_eq!(basis_points_of(123, 0), 0);
    assert_eq!(basis_points_of(123, 10000), 123);
}

#[test]
fn basis_points_of_large_amounts() {
    assert_eq!(basis_points_of(i128::MAX, 10000), i128::MAX);
    assert_eq!(basis_points_of(i128::MAX, 5000), i128::MAX / 2);
    assert_eq!(
        basis_points_of(i128::MAX, 1),
        17014118346046923173168730371588410
    );
    assert_eq!(
        basis_points_of(100_000_000_000_000_000_000_000_000_000_000_000_007, 3333),
        33_330_000_000_000_000_000_000_000_000_000_000_002
    );
}

#[test]
fn allocation_primitives_store_and_remove() {
    let mut env = Storage::new();
    let a = account(2);
    let b = account(3);
    assert_eq!(AllocationDataKey::get_allocation(&env, a, token(1)), None);
    AllocationDataKey::save_allocation(&mut env, a, token(1), 10);
    AllocationDataKey::save_allocation(&mut env, b, token(1), 20);
    AllocationDataKey::save_allocation(&mut env, a, token(2), 30);
    AllocationDataKey::save_allocation(&mut env, a, token(1), 15);
    assert_eq!(AllocationDataKey::get_allocation(&env, a, token(1)), Some(15));
    assert_eq!(AllocationDataKey::get_allocation(&env, b, token(1)), Some(20));
    assert_eq!(AllocationDataKey::get_allocation(&env, a, token(2)), Some(30));
    assert_eq!(AllocationDataKey::get_allocation(&env, b, token(2)), None);
    assert_eq!(AllocationDataKey::get_total_allocation(&env, &token(1)), 35);
    assert_eq!(AllocationDataKey::get_total_allocation(&env, &token(2)), 30);
    AllocationDataKey::remove_allocation(&mut env, a, token(1));
    AllocationDataKey::remove_allocation(&mut env, b, token(2));
    assert_eq!(AllocationDataKey::get_allocation(&env, a, token(1)), None);
    assert_eq!(AllocationDataKey::get_allocation(&env, b, token(1)), Some(20));
    assert_eq!(AllocationDataKey::get_total_allocation(&env, &token(1)), 20);
    assert_eq!(AllocationDataKey::get_total_allocation(&env, &token(2)), 30);
}
