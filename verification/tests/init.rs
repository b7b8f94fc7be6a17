use splitter::contract::{check_shares, Splitter, SplitterTrait};
use splitter::errors::Error;
use splitter::storage::{Address, ConfigDataKey, DataKey, ShareDataKey, Storage};

fn account(n: u128) -> Address {
    Address { contract: false, hi: 0, lo: n }
}

fn two_shares(first: &Address, second: &Address) -> Vec<ShareDataKey> {
    vec![
        ShareDataKey { shareholder: *first, share: 8050 },
        ShareDataKey { shareholder: *second, share: 1950 },
    ]
}

#[test]
fn init_happy_path() {
    let mut env = Storage::new();

    let admin = account(1);
    let shareholder_1 = account(2);
    let shareholder_2 = account(3);
    let shares = two_shares(&shareholder_1, &shareholder_2);

    assert_eq!(Splitter::init(&mut env, admin, shares.clone(), true), Ok(()));

    assert_eq!(Splitter::get_share(&env, shareholder_1), Ok(Some(8050)));
    assert_eq!(Splitter::get_share(&env, shareholder_2), Ok(Some(1950)));
    assert_eq!(Splitter::list_shares(&env), Ok(shares));
}

#[test]
fn test_already_initialized() {
    let mut env = Storage::new();

    let admin = account(1);
    let shares = two_shares(&account(2), &account(3));
    assert_eq!(Splitter::init(&mut env, admin, shares.clone(), true), Ok(()));

    assert_eq!(
        Splitter::init(&mut env, admin, shares, true),
        Err(Error::AlreadyInitialized)
    );
}

#[test]
fn test_low_share_count() {
    let mut env = Storage::new();

    let admin = account(1);
    let shares = vec![ShareDataKey { shareholder: account(2), share: 8050 }];

    assert_eq!(
        Splitter::init(&mut env, admin, shares, true),
        Err(Error::LowShareCount)
    );
}

#[test]
fn test_invalid_share_total() {
    let mut env = Storage::new();

    let admin = account(1);

    assert_eq!(
        Splitter::init(
            &mut env,
            admin,
            vec![
                ShareDataKey { shareholder: account(2), share: 8050 },
                ShareDataKey { shareholder: account(3), share: 8050 },
            ],
            true
        ),
        Err(Error::InvalidShareTotal)
    );

    assert_eq!(
        Splitter::init(
            &mut env,
            admin,
            vec![
                ShareDataKey { shareholder: account(2), share: 8050 },
                ShareDataKey { shareholder: account(3), share: 50 },
            ],
            true
        ),
        Err(Error::InvalidShareTotal)
    );
}

#[test]
fn refused_init_stores_nothing() {
    let mut env = Storage::new();
    let shares = vec![ShareDataKey { shareholder: account(2), share: 10000 }];
    assert_eq!(
        Splitter::init(&mut env, account(1), shares, true),
        Err(Error::LowShareCount)
    );
    assert!(!ConfigDataKey::is_initialized(&env));
    assert!(!env.has(&DataKey::Config));
    assert!(!env.has(&DataKey::Shareholders));
    assert_eq!(Splitter::get_config(&env), Err(Error::NotInitialized));
    assert_eq!(Splitter::list_shares(&env), Err(Error::NotInitialized));
}

#[test]
fn init_stores_config() {
    let mut env = Storage::new();
    let admin = account(1);
    assert_eq!(
        Splitter::init(&mut env, admin, two_shares(&account(2), &account(3)), false),
        Ok(())
    );
    assert_eq!(
        Splitter::get_config(&env),
        Ok(ConfigDataKey { admin, mutable: false })
    );
    assert!(env.has(&DataKey::Config));
    assert!(env.has(&DataKey::Shareholders));
    assert!(env.has(&DataKey::Share(account(2))));
    assert!(!env.has(&DataKey::Share(account(4))));
    assert_eq!(
        ShareDataKey::get_shareholders(&env),
        vec![account(2), account(3)]
    );
    assert_eq!(Splitter::get_share(&env, account(4)), Ok(None));
}

#[test]
fn check_shares_accepts_exact_split() {
    let shares = vec![
        ShareDataKey { shareholder: account(1), share: 1 },
        ShareDataKey { shareholder: account(2), share: 9998 },
        ShareDataKey { shareholder: account(3), share: 1 },
    ];
    assert_eq!(check_shares(&shares), Ok(()));
}

#[test]
fn check_shares_counts_before_it_sums() {
    assert_eq!(check_shares(&Vec::new()), Err(Error::LowShareCount));
    assert_eq!(
        check_shares(&vec![ShareDataKey { shareholder: account(1), share: 10000 }]),
        Err(Error::LowShareCount)
    );
    assert_eq!(
        check_shares(&vec![ShareDataKey { shareholder: account(1), share: 7 }]),
        Err(Error::LowShareCount)
    );
}

#[test]
fn check_shares_refuses_wrong_totals() {
    let below = vec![
        ShareDataKey { shareholder: account(1), share: 5000 },
        ShareDataKey { shareholder: account(2), share: 4999 },
    ];
    assert_eq!(check_shares(&below), Err(Error::InvalidShareTotal));
    let above = vec![
        ShareDataKey { shareholder: account(1), share: 5000 },
        ShareDataKey { shareholder: account(2), share: 5001 },
    ];
    assert_eq!(check_shares(&above), Err(Error::InvalidShareTotal));
    let huge = vec![
        ShareDataKey { shareholder: account(1), share: i128::MAX },
        ShareDataKey { shareholder: account(2), share: i128::MAX },
    ];
    assert_eq!(check_shares(&huge), Err(Error::InvalidShareTotal));
}

#[test]
fn check_shares_refuses_weights_that_are_not_positive() {
    let negative = vec![
        ShareDataKey { shareholder: account(1), share: 20000 },
        ShareDataKey { shareholder: account(2), share: -10000 },
    ];
    assert_eq!(check_shares(&negative), Err(Error::InvalidShareTotal));
    let zero = vec![
        ShareDataKey { shareholder: account(1), share: 10000 },
        ShareDataKey { shareholder: account(2), share: 0 },
    ];
    assert_eq!(check_shares(&zero), Err(Error::InvalidShareTotal));
}

#[test]
fn check_shares_refuses_a_shareholder_named_twice() {
    let twice = vec![
        ShareDataKey { shareholder: account(1), share: 5000 },
        ShareDataKey { shareholder: account(1), share: 5000 },
    ];
    assert_eq!(check_shares(&twice), Err(Error::InvalidShareTotal));
    let contract = Address { contract: true, hi: 0, lo: 1 };
    let distinct = vec![
        ShareDataKey { shareholder: account(1), share: 5000 },
        ShareDataKey { shareholder: contract, share: 5000 },
    ];
    assert_eq!(check_shares(&distinct), Ok(()));
}

#[test]
fn update_shares_replaces_all_entries() {
    let mut env = Storage::new();
    let admin = account(1);
    assert_eq!(
        Splitter::init(&mut env, admin, two_shares(&account(2), &account(3)), true),
        Ok(())
    );
    let next = vec![
        ShareDataKey { shareholder: account(3), share: 2500 },
        ShareDataKey { shareholder: account(4), share: 2500 },
        ShareDataKey { shareholder: account(5), share: 5000 },
    ];
    assert_eq!(Splitter::update_shares(&mut env, &admin, next.clone()), Ok(()));
    assert_eq!(Splitter::list_shares(&env), Ok(next));
    assert_eq!(Splitter::get_share(&env, account(2)), Ok(None));
    assert_eq!(Splitter::get_share(&env, account(3)), Ok(Some(2500)));
    assert_eq!(
        ShareDataKey::get_shareholders(&env),
        vec![account(3), account(4), account(5)]
    );
}

#[test]
fn update_shares_failures_leave_shares_unchanged() {
    let mut env = Storage::new();
    let admin = account(1);
    let first = two_shares(&account(2), &account(3));
    let next = two_shares(&account(4), &account(5));
    assert_eq!(
        Splitter::update_shares(&mut env, &admin, next.clone()),
        Err(Error::NotInitialized)
    );
    assert_eq!(Splitter::init(&mut env, admin, first.clone(), true), Ok(()));
    assert_eq!(
        Splitter::update_shares(&mut env, &account(2), next.clone()),
        Err(Error::Unauthorized)
    );
    assert_eq!(
        Splitter::update_shares(
            &mut env,
            &admin,
            vec![ShareDataKey { shareholder: account(4), share: 10000 }]
        ),
        Err(Error::LowShareCount)
    );
    assert_eq!(
        Splitter::update_shares(
            &mut env,
            &admin,
            vec![
                ShareDataKey { shareholder: account(4), share: 6000 },
                ShareDataKey { shareholder: account(5), share: 3000 },
            ]
        ),
        Err(Error::InvalidShareTotal)
    );
    assert_eq!(Splitter::list_shares(&env), Ok(first));
}

#[test]
fn lock_is_one_way_and_can_be_repeated() {
    let mut env = Storage::new();
    let admin = account(1);
    let first = two_shares(&account(2), &account(3));
    let next = two_shares(&account(4), &account(5));
    assert_eq!(Splitter::lock_contract(&mut env, &admin), Err(Error::NotInitialized));
    assert_eq!(Splitter::init(&mut env, admin, first.clone(), true), Ok(()));
    assert!(!ConfigDataKey::is_contract_locked(&env));
    assert_eq!(
        Splitter::lock_contract(&mut env, &account(2)),
        Err(Error::Unauthorized)
    );
    assert!(!ConfigDataKey::is_contract_locked(&env));
    assert_eq!(Splitter::lock_contract(&mut env, &admin), Ok(()));
    assert!(ConfigDataKey::is_contract_locked(&env));
    assert_eq!(Splitter::lock_contract(&mut env, &admin), Ok(()));
    assert!(ConfigDataKey::is_contract_locked(&env));
    assert_eq!(
        Splitter::get_config(&env),
        Ok(ConfigDataKey { admin, mutable: false })
    );
    assert_eq!(
        Splitter::update_shares(&mut env, &admin, next.clone()),
        Err(Error::ContractLocked)
    );
    assert_eq!(
        Splitter::update_shares(&mut env, &account(2), next),
        Err(Error::Unauthorized)
    );
    assert_eq!(Splitter::list_shares(&env), Ok(first));
}

#[test]
fn init_as_immutable_is_locked_from_the_start() {
    let mut env = Storage::new();
    let admin = account(1);
    assert_eq!(
        Splitter::init(&mut env, admin, two_shares(&account(2), &account(3)), false),
        Ok(())
    );
    assert!(ConfigDataKey::is_contract_locked(&env));
    assert_eq!(
        Splitter::update_shares(&mut env, &admin, two_shares(&account(4), &account(5))),
        Err(Error::ContractLocked)
    );
}

#[test]
fn require_admin_tells_the_administrator_from_others() {
    let mut env = Storage::new();
    let admin = account(1);
    assert_eq!(
        ConfigDataKey::require_admin(&env, &admin),
        Err(Error::NotInitialized)
    );
    ConfigDataKey::init(&mut env, admin, true);
    assert_eq!(ConfigDataKey::get(&env), Some(ConfigDataKey { admin, mutable: true }));
    assert_eq!(ConfigDataKey::require_admin(&env, &admin), Ok(()));
    assert_eq!(
        ConfigDataKey::require_admin(&env, &Address { contract: true, hi: 0, lo: 1 }),
        Err(Error::Unauthorized)
    );
    ConfigDataKey::lock_contract(&mut env);
    assert_eq!(ConfigDataKey::get(&env), Some(ConfigDataKey { admin, mutable: false }));
}

#[test]
fn share_primitives_store_and_remove() {
    let mut env = Storage::new();
    assert_eq!(ShareDataKey::get_share(&env, &account(1)), None);
    ShareDataKey::save_share(&mut env, account(1), 4000);
    ShareDataKey::save_share(&mut env, account(2), 6000);
    ShareDataKey::save_share(&mut env, account(1), 3000);
    assert_eq!(
        ShareDataKey::get_share(&env, &account(1)),
        Some(ShareDataKey { shareholder: account(1), share: 3000 })
    );
    assert_eq!(
        ShareDataKey::get_share(&env, &account(2)),
        Some(ShareDataKey { shareholder: account(2), share: 6000 })
    );
    ShareDataKey::remove_share(&mut env, &account(1));
    ShareDataKey::remove_share(&mut env, &account(3));
    assert_eq!(ShareDataKey::get_share(&env, &account(1)), None);
    assert!(env.has(&DataKey::Share(account(2))));
    ShareDataKey::save_shareholders(&mut env, vec![account(2)]);
    assert_eq!(ShareDataKey::get_shareholders(&env), vec![account(2)]);
    ShareDataKey::remove_shareholders(&mut env);
    assert_eq!(ShareDataKey::get_shareholders(&env), Vec::<Address>::new());
}
