use std::sync::Arc;

use trusted_accounts::pallet::Pallet;
use trusted_accounts::rpc::{Client, Error, QueryFailed, TrustedAccounts};

fn chain() -> TrustedAccounts {
    let genesis = Pallet::new();
    let mut client = Client::new(100, genesis);
    let mut p = Pallet::new();
    assert_eq!(p.trust_account(1, 2), Ok(()));
    assert!(client.push_block(101, p));
    let mut q = Pallet::new();
    assert_eq!(q.trust_account(1, 2), Ok(()));
    assert_eq!(q.trust_account(2, 3), Ok(()));
    assert_eq!(q.trust_account(1, 4), Ok(()));
    assert!(client.push_block(102, q));
    TrustedAccounts::new(Arc::new(client))
}

#[test]
fn error_codes() {
    assert_eq!(i32::from(Error::RuntimeError), 1);
    assert_eq!(i32::from(Error::DecodeError), 2);
}

#[test]
fn queries_default_to_best_block() {
    let api = chain();
    assert_eq!(api.is_trusted(1, 2, None), Ok(true));
    assert_eq!(api.is_trusted(1, 3, None), Ok(false));
    assert_eq!(api.is_trusted_only_deep(1, 3, None), Ok(true));
    assert_eq!(api.is_trusted_deep(1, 3, None), Ok(true));
    assert_eq!(api.trusted_by(1, None), Ok(vec![2, 4]));
    assert_eq!(api.trusted_by_that_trust(1, 3, None), Ok(vec![2]));
}

#[test]
fn queries_at_an_earlier_block() {
    let api = chain();
    assert_eq!(api.is_trusted(1, 2, Some(100)), Ok(false));
    assert_eq!(api.is_trusted(1, 2, Some(101)), Ok(true));
    assert_eq!(api.is_trusted_deep(1, 3, Some(101)), Ok(false));
    assert_eq!(api.trusted_by(1, Some(101)), Ok(vec![2]));
    assert_eq!(api.trusted_by_that_trust(1, 3, Some(101)), Ok(vec![]));
}

#[test]
fn unknown_block_fails() {
    let api = chain();
    let failed = QueryFailed { code: 1, block: 7 };
    assert_eq!(api.is_trusted(1, 2, Some(7)), Err(failed));
    assert_eq!(api.is_trusted_only_deep(1, 3, Some(7)), Err(failed));
    assert_eq!(api.is_trusted_deep(1, 3, Some(7)), Err(failed));
    assert_eq!(api.trusted_by(1, Some(7)), Err(failed));
    assert_eq!(api.trusted_by_that_trust(1, 3, Some(7)), Err(failed));
}

#[test]
fn block_hashes_are_unique() {
    let mut client = Client::new(5, Pallet::new());
    assert!(!client.push_block(5, Pallet::new()));
    assert_eq!(client.best_hash(), 5);
    assert!(client.push_block(6, Pallet::new()));
    assert_eq!(client.best_hash(), 6);
}
