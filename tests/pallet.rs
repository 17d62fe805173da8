use trusted_accounts::pallet::{Error, Event, Pallet};

fn trusted_from(truster: u64, trustees: &[u64]) -> Pallet {
    let mut p = Pallet::new();
    for t in trustees {
        assert_eq!(p.trust_account(truster, *t), Ok(()));
    }
    p
}

#[test]
fn trust_account_cant_trust_self_control() {
    let mut p = Pallet::new();
    assert_eq!(p.trust_account(1, 2), Ok(()));
}

#[test]
fn trust_account_cant_trust_self() {
    let mut p = Pallet::new();
    assert_eq!(p.trust_account(1, 1), Err(Error::TrustSelf));
    assert_eq!(p.account_trusted_account_list_count(1), 0);
    assert!(!p.is_trusted(1, 1));
    assert!(p.events().is_empty());
}

#[test]
fn trust_account_already_trusted_control() {
    let mut p = Pallet::new();
    assert_eq!(p.trust_account(1, 2), Ok(()));
    assert_eq!(p.trust_account(1, 3), Ok(()));
}

#[test]
fn trust_account_already_trusted() {
    let mut p = Pallet::new();
    assert_eq!(p.trust_account(1, 2), Ok(()));
    assert_eq!(p.trust_account(1, 2), Err(Error::AlreadyTrusted));
    assert_eq!(p.account_trusted_account_list_count(1), 1);
    assert_eq!(p.trusted_by(1), vec![2]);
    assert_eq!(p.events().len(), 1);
}

#[test]
fn trust_account() {
    let mut p = Pallet::new();
    assert_eq!(p.account_trusted_account_list_count(1), 0);

    assert_eq!(p.trust_account(1, 2), Ok(()));
    assert_eq!(p.account_trusted_account_list_count(1), 1);
    let i = p.account_trusted_account_index(1, 2).unwrap() - 1;
    assert_eq!(p.account_trusted_account_list(1, i).unwrap(), 2);

    assert_eq!(p.trust_account(1, 3), Ok(()));
    assert_eq!(p.account_trusted_account_list_count(1), 2);
    let i = p.account_trusted_account_index(1, 3).unwrap() - 1;
    assert_eq!(p.account_trusted_account_list(1, i).unwrap(), 3);

    assert_eq!(p.trust_account(1, 4), Ok(()));
    assert_eq!(p.account_trusted_account_list_count(1), 3);
    let i = p.account_trusted_account_index(1, 4).unwrap() - 1;
    assert_eq!(p.account_trusted_account_list(1, i).unwrap(), 4);

    assert_eq!(p.trust_account(1, 5), Ok(()));
    assert_eq!(p.account_trusted_account_list_count(1), 4);
    let i = p.account_trusted_account_index(1, 5).unwrap() - 1;
    assert_eq!(p.account_trusted_account_list(1, i).unwrap(), 5);
}

#[test]
fn untrust_account_not_trusted_control() {
    let mut p = Pallet::new();
    assert_eq!(p.trust_account(1, 2), Ok(()));
    assert_eq!(p.untrust_account(1, 2), Ok(()));
}

#[test]
fn untrust_account_not_trusted() {
    let mut p = Pallet::new();
    assert_eq!(p.untrust_account(1, 2), Err(Error::NotTrusted));
    assert_eq!(p.account_trusted_account_list_count(1), 0);
    assert!(p.events().is_empty());
}

#[test]
fn untrust_account() {
    let mut p = trusted_from(1, &[2, 3, 4, 5]);
    assert_eq!(p.account_trusted_account_list_count(1), 4);

    assert_eq!(p.untrust_account(1, 3), Ok(()));
    assert_eq!(p.account_trusted_account_list_count(1), 3);
    assert_eq!(p.account_trusted_account_index(1, 3), None);

    assert_eq!(p.untrust_account(1, 5), Ok(()));
    assert_eq!(p.account_trusted_account_list_count(1), 2);
    assert_eq!(p.account_trusted_account_index(1, 5), None);

    assert_eq!(p.untrust_account(1, 2), Ok(()));
    assert_eq!(p.account_trusted_account_list_count(1), 1);
    assert_eq!(p.account_trusted_account_index(1, 2), None);

    assert_eq!(p.untrust_account(1, 4), Ok(()));
    assert_eq!(p.account_trusted_account_list_count(1), 0);
    assert_eq!(p.account_trusted_account_index(1, 4), None);
}

#[test]
fn events_record_each_change() {
    let mut p = Pallet::new();
    assert_eq!(p.trust_account(1, 2), Ok(()));
    assert_eq!(p.trust_account(1, 1), Err(Error::TrustSelf));
    assert_eq!(p.untrust_account(1, 2), Ok(()));
    assert_eq!(p.untrust_account(1, 2), Err(Error::NotTrusted));
    assert_eq!(
        p.events().clone(),
        vec![Event::AccountTrusted(1, 2), Event::AccountUntrusted(1, 2)]
    );
}

#[test]
fn round_trip_restores_list() {
    let mut p = trusted_from(1, &[2, 3]);
    let before = p.trusted_by(1);
    assert_eq!(p.trust_account(1, 7), Ok(()));
    assert_eq!(p.account_trusted_account_list_count(1), 3);
    assert_eq!(p.untrust_account(1, 7), Ok(()));
    assert_eq!(p.account_trusted_account_list_count(1), 2);
    assert!(!p.is_trusted(1, 7));
    assert_eq!(p.trusted_by(1), before);
}

#[test]
fn trusting_self_changes_nothing() {
    let mut p = trusted_from(9, &[1, 2]);
    assert_eq!(p.trust_account(9, 9), Err(Error::TrustSelf));
    assert_eq!(p.trusted_by(9), vec![1, 2]);
    assert_eq!(p.events().len(), 2);
}

#[test]
fn untrust_after_other_trusts_fails() {
    let mut p = Pallet::new();
    assert_eq!(p.trust_account(2, 1), Ok(()));
    assert_eq!(p.trust_account(1, 3), Ok(()));
    assert_eq!(p.untrust_account(1, 2), Err(Error::NotTrusted));
}

#[test]
fn compaction_moves_last_into_gap() {
    let (a, b, c, d, e) = (10, 20, 30, 40, 50);
    let mut p = trusted_from(a, &[b, c, d, e]);
    assert_eq!(p.account_trusted_account_list_count(a), 4);
    let slot_of_c = p.account_trusted_account_index(a, c).unwrap();
    assert_eq!(p.untrust_account(a, c), Ok(()));
    assert_eq!(p.account_trusted_account_list_count(a), 3);
    assert!(!p.is_trusted(a, c));
    assert!(p.is_trusted(a, b));
    assert!(p.is_trusted(a, d));
    assert!(p.is_trusted(a, e));
    assert_eq!(p.account_trusted_account_index(a, e), Some(slot_of_c));
    assert_eq!(p.account_trusted_account_list(a, slot_of_c - 1), Some(e));
    let mut rest = p.trusted_by(a);
    rest.sort();
    assert_eq!(rest, vec![b, d, e]);
    assert_eq!(p.trusted_by(a), vec![b, e, d]);
}

#[test]
fn removing_the_last_moves_nothing() {
    let mut p = trusted_from(1, &[2, 3, 4]);
    assert_eq!(p.untrust_account(1, 4), Ok(()));
    assert_eq!(p.trusted_by(1), vec![2, 3]);
    assert_eq!(p.account_trusted_account_index(1, 2), Some(1));
    assert_eq!(p.account_trusted_account_index(1, 3), Some(2));
}

#[test]
fn deep_trust_over_two_hops() {
    let (a, b, c) = (1, 2, 3);
    let mut p = Pallet::new();
    assert_eq!(p.trust_account(a, b), Ok(()));
    assert_eq!(p.trust_account(b, c), Ok(()));
    assert!(!p.is_trusted(a, c));
    assert!(p.is_trusted_only_deep(a, c));
    assert!(p.is_trusted_deep(a, c));
    assert_eq!(p.trusted_by(a), vec![b]);
    assert_eq!(p.trusted_by_that_trust(a, c), vec![b]);
}

#[test]
fn only_deep_ignores_direct_trust() {
    let mut p = Pallet::new();
    assert_eq!(p.trust_account(1, 2), Ok(()));
    assert!(p.is_trusted(1, 2));
    assert!(!p.is_trusted_only_deep(1, 2));
    assert!(p.is_trusted_deep(1, 2));
    assert_eq!(p.trust_account(1, 3), Ok(()));
    assert_eq!(p.trust_account(3, 2), Ok(()));
    assert!(p.is_trusted_only_deep(1, 2));
    assert!(!p.is_trusted_deep(2, 1));
    assert!(!p.is_trusted_deep(1, 4));
}

#[test]
fn intersection_keeps_those_that_trust() {
    let (a, b, c, y) = (1, 2, 3, 9);
    let mut p = trusted_from(a, &[b, c]);
    assert_eq!(p.trust_account(b, y), Ok(()));
    assert_eq!(p.trusted_by_that_trust(a, y), vec![b]);
    assert_eq!(p.trust_account(c, y), Ok(()));
    assert_eq!(p.trusted_by_that_trust(a, y), vec![b, c]);
    assert_eq!(p.trusted_by_that_trust(a, 5), Vec::<u64>::new());
    assert_eq!(p.trusted_by_that_trust(7, y), Vec::<u64>::new());
}

#[test]
fn full_drain_in_any_order() {
    let orders: [[u64; 4]; 3] = [[2, 3, 4, 5], [5, 4, 3, 2], [3, 5, 2, 4]];
    for order in orders {
        let mut p = trusted_from(1, &[2, 3, 4, 5]);
        for x in order {
            assert_eq!(p.untrust_account(1, x), Ok(()));
        }
        assert_eq!(p.account_trusted_account_list_count(1), 0);
        for x in [2, 3, 4, 5] {
            assert!(!p.is_trusted(1, x));
            assert_eq!(p.account_trusted_account_index(1, x), None);
        }
        assert!(p.trusted_by(1).is_empty());
    }
}

#[test]
fn accounts_are_independent() {
    let mut p = trusted_from(1, &[2, 3]);
    assert_eq!(p.trust_account(2, 3), Ok(()));
    assert_eq!(p.untrust_account(1, 3), Ok(()));
    assert!(p.is_trusted(2, 3));
    assert_eq!(p.trusted_by(2), vec![3]);
    assert_eq!(p.account_trusted_account_list(1, 1), None);
    assert_eq!(p.account_trusted_account_list(4, 0), None);
}
