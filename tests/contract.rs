use divvy_wealth::account::AccountName;
use divvy_wealth::contract::Contract;
use divvy_wealth::error::StashError;
use divvy_wealth::storage::{check_storage, StorageSettlement};
use divvy_wealth::token::AllowList;

fn name(s: &str) -> AccountName {
    AccountName::parse(s).unwrap()
}

#[test]
fn test_new_contract() {
    let contract = Contract::new(AllowList::of_tokens());
    assert!(contract.is_empty());
    assert!(contract.get_stash(0).is_none());
    assert!(contract.get_stashes_for_account(&name("alice.near")).is_empty());
}

#[test]
fn lib_test_create_stash() {
    let alice = name("alice.near");
    let mut contract = Contract::new(AllowList::of_tokens());
    let id = contract.create_stash(&alice, "Roommates".to_string()).unwrap();
    assert!(!contract.is_empty());
    assert!(contract.get_stash(id).is_some());
    assert_eq!(contract.get_stashes_for_account(&alice), vec![id]);
}

#[test]
fn lib_test_remove_stash() {
    let alice = name("alice.near");
    let mut contract = Contract::new(AllowList::of_tokens());
    contract.create_stash(&alice, "Roommates".to_string()).unwrap();
    let stash_id = 0;
    contract.remove_stash(&alice, stash_id).unwrap();
    assert!(contract.get_stash(stash_id).is_none());
}

#[test]
fn integration_tests_test_create_stash() {
    let root = name("test.near");
    let mut contract = Contract::new(AllowList::of_tokens());
    contract.create_stash(&root, "Roommate slush funds".to_string()).unwrap();
    let stashes = contract.get_stashes_for_account(&root);
    assert_eq!(stashes.len(), 1);
}

#[test]
fn integration_tests_test_remove_stash() {
    let root = name("test.near");
    let mut contract = Contract::new(AllowList::of_tokens());
    contract.create_stash(&root, "Roommates".to_string()).unwrap();
    contract.remove_stash(&root, 0).unwrap();
    let stashes = contract.get_stashes_for_account(&root);
    assert_eq!(stashes.len(), 0);
}

#[test]
fn stash_ids_are_not_reused_after_removal() {
    let alice = name("alice.near");
    let bob = name("bob.near");
    let mut contract = Contract::new(AllowList::of_tokens());
    assert_eq!(contract.create_stash(&alice, "One".to_string()), Ok(0));
    assert_eq!(contract.create_stash(&bob, "Two".to_string()), Ok(1));
    contract.remove_stash(&alice, 0).unwrap();
    assert_eq!(contract.create_stash(&alice, "Three".to_string()), Ok(2));
    assert_eq!(contract.get_stashes_for_account(&alice), vec![2]);
    assert_eq!(contract.get_stashes_for_account(&bob), vec![1]);
    assert_eq!(contract.get_stash(1).unwrap().name(), "Two");
}

#[test]
fn removing_a_stash_needs_authorization() {
    let alice = name("alice.near");
    let bob = name("bob.near");
    let mut contract = Contract::new(AllowList::of_tokens());
    contract.create_stash(&alice, "Roommates".to_string()).unwrap();
    assert_eq!(contract.remove_stash(&bob, 0), Err(StashError::Unauthorized));
    assert_eq!(contract.remove_stash(&alice, 7), Err(StashError::NotFound));
    assert!(contract.get_stash(0).is_some());
    assert_eq!(contract.get_stashes_for_account(&alice), vec![0]);
}

#[test]
fn operations_on_a_missing_stash() {
    let alice = name("alice.near");
    let usdt = name("usdt-token.near");
    let mut contract = Contract::new(AllowList::of_tokens());
    assert_eq!(contract.add_token_to_stash(&alice, 3, usdt.clone()), Err(StashError::NotFound));
    assert_eq!(contract.deposit(&alice, 3, &usdt, 1), Err(StashError::NotFound));
    assert_eq!(contract.add_liquidity_to_stash(&alice, 3, &usdt, 1), Err(StashError::NotFound));
    assert_eq!(contract.remove_liquidity_from_stash(&alice, 3, &usdt, 1), Err(StashError::NotFound));
    assert_eq!(contract.withdraw(&alice, 3, &usdt, 1), Err(StashError::NotFound));
    assert_eq!(contract.authorize_contributor(&alice, 3, usdt.clone()), Err(StashError::NotFound));
    assert_eq!(contract.revoke_contributor(&alice, 3, &usdt), Err(StashError::NotFound));
}

#[test]
fn roommates_scenario() {
    let alice = name("alice.near");
    let x = name("usdt-token.near");
    let mut contract = Contract::new(AllowList::of_tokens());
    let id = contract.create_stash(&alice, "Roommates".to_string()).unwrap();
    contract.add_token_to_stash(&alice, id, x.clone()).unwrap();
    assert_eq!(contract.deposit(&alice, id, &x, 10_000), Ok(10_000));
    let minted = contract.add_liquidity_to_stash(&alice, id, &x, 10_000).unwrap();
    assert_eq!(minted, 10_000);
    assert_eq!(contract.remove_liquidity_from_stash(&alice, id, &x, minted), Ok(10_000));
    contract.withdraw(&alice, id, &x, 10_000).unwrap();
    let stash = contract.get_stash(id).unwrap();
    assert_eq!(stash.pending_balance(&alice, &x), 0);
    assert!(!stash.is_authorized(&alice));
}

#[test]
fn a_second_contributor_joins_through_the_index() {
    let alice = name("alice.near");
    let bob = name("bob.near");
    let x = name("eth-token.near");
    let mut contract = Contract::new(AllowList::of_tokens());
    let id = contract.create_stash(&alice, "Roommates".to_string()).unwrap();
    contract.add_token_to_stash(&alice, id, x.clone()).unwrap();
    assert_eq!(contract.deposit(&bob, id, &x, 5), Err(StashError::Unauthorized));
    contract.authorize_contributor(&alice, id, bob.clone()).unwrap();
    assert_eq!(contract.deposit(&bob, id, &x, 5), Ok(5));
    contract.revoke_contributor(&alice, id, &bob).unwrap();
    assert_eq!(contract.deposit(&bob, id, &x, 5), Err(StashError::Unauthorized));
    assert!(contract.get_stashes_for_account(&bob).is_empty());
}

#[test]
fn storage_refund_is_the_surplus() {
    assert_eq!(check_storage(100, 150, 10, 1_000), Ok(StorageSettlement { cost: 500, refund: 500 }));
    assert_eq!(check_storage(100, 150, 10, 500), Ok(StorageSettlement { cost: 500, refund: 0 }));
    assert_eq!(check_storage(100, 150, 10, 499), Err(StashError::InsufficientStake));
}

#[test]
fn storage_released_costs_nothing() {
    assert_eq!(check_storage(150, 100, 10, 42), Ok(StorageSettlement { cost: 0, refund: 42 }));
    assert_eq!(check_storage(7, 7, 10, 0), Ok(StorageSettlement { cost: 0, refund: 0 }));
}

#[test]
fn storage_cost_beyond_any_stake_is_refused() {
    assert_eq!(check_storage(0, u64::MAX, u128::MAX, u128::MAX), Err(StashError::InsufficientStake));
}

#[test]
fn first_stash_gets_id_zero() {
    let alice = name("alice.near");
    let mut contract = Contract::new(AllowList::of_tokens());
    assert_eq!(contract.create_stash(&alice, "Roommates".to_string()), Ok(0));
    assert_eq!(contract.create_stash(&alice, "Trip".to_string()), Ok(1));
}
