use divvy_wealth::account::AccountName;
use divvy_wealth::error::StashError;
use divvy_wealth::storage::check_storage;
use divvy_wealth::token::AllowList;
use divvy_wealth::stash::Stash;

fn name(s: &str) -> AccountName {
    AccountName::parse(s).unwrap()
}

#[test]
fn test_withdraw_success() {
    let alice = name("alice.near");
    let mut contract = Stash::new(1, "501c3 donations for 2025".to_string(), alice.clone());
    let token_id = name("usdt-token.near");
    contract.add_vault(&alice, token_id.clone(), &AllowList::of_tokens()).unwrap();
    let amount = 100;
    contract.deposit(&alice, &token_id, amount).unwrap();
    contract.withdraw(&alice, &token_id, amount).unwrap();
    assert_eq!(contract.pending_balance(&alice, &token_id), 0);
    assert!(!contract.is_authorized(&alice));
}

#[test]
fn test_withdraw_insufficient_balance() {
    let alice = name("alice.near");
    let mut contract = Stash::new(1, "Weekend getaway to Miami".to_string(), alice.clone());
    let token_id = name("usdt-token.near");
    contract.add_vault(&alice, token_id.clone(), &AllowList::of_tokens()).unwrap();
    let amount: u128 = 1000;
    contract.deposit(&alice, &token_id, amount).unwrap();
    assert_eq!(
        contract.withdraw(&alice, &token_id, amount + 1),
        Err(StashError::InsufficientPendingBalance)
    );
    assert_eq!(contract.pending_balance(&alice, &token_id), amount);
}

#[test]
fn test_internal_add_vault_success() {
    let alice = name("alice.near");
    let mut contract = Stash::new(1, "Weekend getaway to Miami".to_string(), alice.clone());
    let token_type = name("usdt-token.near");
    contract.add_vault(&alice, token_type.clone(), &AllowList::of_tokens()).unwrap();
    assert!(contract.vault(&token_type).is_some(), "Vault was not added");
}

#[test]
fn test_internal_add_vault_insufficient_deposit() {
    // A vault adds storage; with nothing attached the call cannot pay for it.
    assert_eq!(check_storage(1_000, 1_250, 10_000_000_000_000_000_000, 0), Err(StashError::InsufficientStake));
}

#[test]
fn test_authorization() {
    let sender = name("alice.near");
    let mut stash = Stash::new(1, "A week in Barcelona".to_string(), sender.clone());
    assert!(stash.is_authorized(&sender));
    stash.add_vault(&sender, name("usdt-token.near"), &AllowList::of_tokens()).unwrap();
    let shares = stash.deposit(&sender, &name("usdt-token.near"), 100_000_000_000_000_000_000_000_000);
    assert_eq!(shares, Ok(100000000000000000000000000));
}

#[test]
fn re_adding_a_vault_keeps_its_accounting() {
    let alice = name("alice.near");
    let usdt = name("usdt-token.near");
    let allow = AllowList::of_tokens();
    let mut stash = Stash::new(3, "Roommates".to_string(), alice.clone());
    stash.add_vault(&alice, usdt.clone(), &allow).unwrap();
    stash.deposit(&alice, &usdt, 500).unwrap();
    stash.add_liquidity(&alice, &usdt, 400).unwrap();
    stash.add_vault(&alice, usdt.clone(), &allow).unwrap();
    let vault = stash.vault(&usdt).unwrap();
    assert_eq!(vault.total_assets(), 400);
    assert_eq!(vault.shares_of(&alice), 400);
}

#[test]
fn vault_for_unlisted_asset_is_refused() {
    let alice = name("alice.near");
    let mut stash = Stash::new(3, "Close Friends".to_string(), alice.clone());
    assert_eq!(
        stash.add_vault(&alice, name("usdt.token.near"), &AllowList::of_tokens()),
        Err(StashError::AssetNotSupported)
    );
    assert!(stash.vault(&name("usdt.token.near")).is_none());
}

#[test]
fn unauthorized_calls_change_nothing() {
    let alice = name("alice.near");
    let mallory = name("mallory.near");
    let usdt = name("usdt-token.near");
    let allow = AllowList::of_tokens();
    let mut stash = Stash::new(4, "Roommates".to_string(), alice.clone());
    stash.add_vault(&alice, usdt.clone(), &allow).unwrap();
    stash.deposit(&alice, &usdt, 1_000).unwrap();
    stash.add_liquidity(&alice, &usdt, 600).unwrap();

    assert_eq!(stash.add_vault(&mallory, name("eth-token.near"), &allow), Err(StashError::Unauthorized));
    assert_eq!(stash.deposit(&mallory, &usdt, 5), Err(StashError::Unauthorized));
    assert_eq!(stash.add_liquidity(&mallory, &usdt, 5), Err(StashError::Unauthorized));
    assert_eq!(stash.remove_liquidity(&mallory, &usdt, 5), Err(StashError::Unauthorized));
    assert_eq!(stash.withdraw(&mallory, &usdt, 5), Err(StashError::Unauthorized));
    assert_eq!(stash.authorize_contributor(&mallory, mallory.clone()), Err(StashError::Unauthorized));
    assert_eq!(stash.revoke_contributor(&mallory, &alice), Err(StashError::Unauthorized));

    assert!(!stash.is_authorized(&mallory));
    assert!(stash.is_authorized(&alice));
    assert!(stash.vault(&name("eth-token.near")).is_none());
    assert_eq!(stash.pending_balance(&alice, &usdt), 400);
    assert_eq!(stash.pending_balance(&mallory, &usdt), 0);
    assert_eq!(stash.vault(&usdt).unwrap().shares_of(&alice), 600);
}

#[test]
fn auto_revocation_and_re_authorization() {
    let alice = name("alice.near");
    let bob = name("bob.near");
    let usdt = name("usdt-token.near");
    let eth = name("eth-token.near");
    let allow = AllowList::of_tokens();
    let mut stash = Stash::new(5, "Trip".to_string(), alice.clone());
    stash.add_vault(&alice, usdt.clone(), &allow).unwrap();
    stash.add_vault(&alice, eth.clone(), &allow).unwrap();
    stash.authorize_contributor(&alice, bob.clone()).unwrap();
    stash.deposit(&bob, &usdt, 70).unwrap();
    stash.deposit(&bob, &eth, 30).unwrap();

    // One asset drained: still holding the other, still authorized.
    stash.withdraw(&bob, &usdt, 70).unwrap();
    assert!(stash.is_authorized(&bob));
    // Every asset drained: the authorization goes with it.
    stash.withdraw(&bob, &eth, 30).unwrap();
    assert!(!stash.is_authorized(&bob));
    assert_eq!(stash.deposit(&bob, &usdt, 1), Err(StashError::Unauthorized));

    // Re-authorized, bob may deposit again.
    stash.authorize_contributor(&alice, bob.clone()).unwrap();
    assert_eq!(stash.deposit(&bob, &usdt, 10), Ok(10));
}

#[test]
fn explicit_revocation() {
    let alice = name("alice.near");
    let bob = name("bob.near");
    let mut stash = Stash::new(6, "Trip".to_string(), alice.clone());
    stash.authorize_contributor(&alice, bob.clone()).unwrap();
    stash.authorize_contributor(&alice, bob.clone()).unwrap();
    assert!(stash.is_authorized(&bob));
    stash.revoke_contributor(&alice, &bob).unwrap();
    assert!(!stash.is_authorized(&bob));
    assert!(stash.is_authorized(&alice));
}

#[test]
fn add_liquidity_debits_the_pending_balance() {
    let alice = name("alice.near");
    let usdt = name("usdt-token.near");
    let mut stash = Stash::new(7, "Trip".to_string(), alice.clone());
    stash.add_vault_with_fee(&alice, usdt.clone(), &AllowList::of_tokens(), 100).unwrap();
    stash.deposit(&alice, &usdt, 10_000).unwrap();
    assert_eq!(stash.add_liquidity(&alice, &usdt, 20_000), Err(StashError::InsufficientPendingBalance));
    assert_eq!(stash.add_liquidity(&alice, &usdt, 0), Err(StashError::ZeroAmount));
    assert_eq!(stash.add_liquidity(&alice, &usdt, 10_000), Ok(9_900));
    assert_eq!(stash.pending_balance(&alice, &usdt), 0);
    // Liquidity goes back to the pending balance, not out of the stash.
    assert_eq!(stash.remove_liquidity(&alice, &usdt, 9_900), Ok(9_900));
    assert_eq!(stash.pending_balance(&alice, &usdt), 9_900);
    assert!(stash.is_authorized(&alice));
}

#[test]
fn operations_on_a_missing_vault_or_balance() {
    let alice = name("alice.near");
    let usdt = name("usdt-token.near");
    let mut stash = Stash::new(8, "Trip".to_string(), alice.clone());
    assert_eq!(stash.deposit(&alice, &usdt, 5), Err(StashError::NotFound));
    assert_eq!(stash.add_liquidity(&alice, &usdt, 5), Err(StashError::NotFound));
    assert_eq!(stash.remove_liquidity(&alice, &usdt, 5), Err(StashError::NotFound));
    assert_eq!(stash.withdraw(&alice, &usdt, 5), Err(StashError::InsufficientPendingBalance));
    stash.add_vault(&alice, usdt.clone(), &AllowList::of_tokens()).unwrap();
    assert_eq!(stash.remove_liquidity(&alice, &usdt, 1), Err(StashError::InsufficientShares));
    assert_eq!(stash.deposit(&alice, &usdt, u128::MAX), Ok(u128::MAX));
    assert_eq!(stash.deposit(&alice, &usdt, 1), Err(StashError::ArithmeticOverflow));
}

#[test]
fn stash_identity_is_kept() {
    let alice = name("alice.near");
    let stash = Stash::new(9, "Roommates".to_string(), alice);
    assert_eq!(stash.id(), 9);
    assert_eq!(stash.name(), "Roommates");
}

#[test]
fn failed_transfer_is_undone() {
    let alice = name("alice.near");
    let usdt = name("usdt-token.near");
    let mut stash = Stash::new(10, "Trip".to_string(), alice.clone());
    stash.add_vault(&alice, usdt.clone(), &AllowList::of_tokens()).unwrap();
    stash.deposit(&alice, &usdt, 50).unwrap();
    stash.withdraw(&alice, &usdt, 50).unwrap();
    assert!(!stash.is_authorized(&alice));
    assert_eq!(stash.restore_withdrawal(&alice, &usdt, 0), Err(StashError::ZeroAmount));
    assert_eq!(stash.restore_withdrawal(&alice, &usdt, 50), Ok(()));
    assert_eq!(stash.pending_balance(&alice, &usdt), 50);
    assert!(stash.is_authorized(&alice));
}

#[test]
fn deposit_returns_the_amount_deposited() {
    let alice = name("alice.near");
    let usdt = name("usdt-token.near");
    let mut stash = Stash::new(11, "Trip".to_string(), alice.clone());
    stash.add_vault(&alice, usdt.clone(), &AllowList::of_tokens()).unwrap();
    assert_eq!(stash.deposit(&alice, &usdt, 300), Ok(300));
    assert_eq!(stash.deposit(&alice, &usdt, 200), Ok(200));
    assert_eq!(stash.pending_balance(&alice, &usdt), 500);
}

#[test]
fn zero_deposit_and_zero_withdrawal_succeed() {
    let alice = name("alice.near");
    let bob = name("bob.near");
    let usdt = name("usdt-token.near");
    let mut stash = Stash::new(12, "Trip".to_string(), alice.clone());
    stash.add_vault(&alice, usdt.clone(), &AllowList::of_tokens()).unwrap();
    stash.authorize_contributor(&alice, bob.clone()).unwrap();
    assert_eq!(stash.deposit(&alice, &usdt, 0), Ok(0));
    assert_eq!(stash.pending_balance(&alice, &usdt), 0);
    stash.deposit(&alice, &usdt, 40).unwrap();
    // Withdrawing nothing from a positive balance keeps it and the authorization.
    assert_eq!(stash.withdraw(&alice, &usdt, 0), Ok(()));
    assert_eq!(stash.pending_balance(&alice, &usdt), 40);
    assert!(stash.is_authorized(&alice));
    // With no pending balance at all, the usual auto-revocation applies.
    assert_eq!(stash.withdraw(&bob, &usdt, 0), Ok(()));
    assert!(!stash.is_authorized(&bob));
}
