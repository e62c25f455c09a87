use divvy_wealth::account::AccountName;
use divvy_wealth::error::StashError;
use divvy_wealth::math::compute_entry_fee;
use divvy_wealth::token::{AllowList, Token};
use divvy_wealth::token_vault::TokenVault;

fn name(s: &str) -> AccountName {
    AccountName::parse(s).unwrap()
}

fn vault(token: &str) -> TokenVault {
    TokenVault::new(name(token), &AllowList::of_tokens()).unwrap()
}

#[test]
fn test_initialization() {
    let vault = vault(Token::BTC.contract_id());
    assert_eq!(vault.get_token_type().as_str(), "btc-token.near");
    assert_eq!(vault.total_assets(), 0);
    assert_eq!(vault.shares_total_supply(), 0);
}

#[test]
fn test_add_liquidity() {
    let sender = name("roger.near");
    let mut vault = vault(Token::ETH.contract_id());
    assert_eq!(vault.get_token_type().as_str(), "eth-token.near");
    let shares = vault.add_liquidity(&sender, 10_000).unwrap();
    assert_eq!(shares, 10_000);
    assert_eq!(vault.total_assets(), 10_000);
    assert_eq!(vault.shares_total_supply(), 10_000);
    assert_eq!(vault.shares_of(&sender), 10_000);
}

#[test]
fn test_withdraw() {
    let sender = name("phillipe.near");
    let mut vault = vault(Token::USDC.contract_id());
    vault.add_liquidity(&sender, 10_000).unwrap();
    let assets = vault.remove_liquidity(&sender, 10_000).unwrap();
    assert_eq!(assets, 10_000);
    assert_eq!(vault.total_assets(), 0);
    assert_eq!(vault.shares_total_supply(), 0);
    assert_eq!(vault.shares_of(&sender), 0);
}

#[test]
fn test_deauthorize_on_zero_balance() {
    let sender = name("toy.near");
    let mut vault = vault(Token::USDT.contract_id());
    vault.add_liquidity(&sender, 10_000).unwrap();
    vault.remove_liquidity(&sender, 10_000).unwrap();
    assert_eq!(vault.total_assets(), 0);
    assert_eq!(vault.shares_total_supply(), 0);
    assert_eq!(vault.shares_of(&sender), 0);
}

#[test]
fn test_multiple_deposits() {
    let sender = name("phillipe.near");
    let mut vault = vault(Token::SOL.contract_id());
    vault.add_liquidity(&sender, 5_000).unwrap();
    vault.add_liquidity(&sender, 5_000).unwrap();
    assert_eq!(vault.total_assets(), 10_000);
    assert_eq!(vault.shares_total_supply(), 10_000);
    assert_eq!(vault.shares_of(&sender), 10_000);
}

#[test]
fn test_multiple_withdrawals() {
    let sender = name("root.near");
    let mut vault = vault(Token::NEAR.contract_id());
    vault.add_liquidity(&sender, 10_000).unwrap();
    vault.remove_liquidity(&sender, 5_000).unwrap();
    vault.remove_liquidity(&sender, 5_000).unwrap();
    assert_eq!(vault.total_assets(), 0);
    assert_eq!(vault.shares_total_supply(), 0);
    assert_eq!(vault.shares_of(&sender), 0);
}

#[test]
fn vault_refuses_asset_off_the_allow_list() {
    let r = TokenVault::new(name("usdt.token.near"), &AllowList::of_tokens());
    assert_eq!(r.err(), Some(StashError::AssetNotSupported));
}

#[test]
fn entry_fee_of_one_percent_on_first_deposit() {
    let holder = name("alice.near");
    let mut vault = TokenVault::with_entry_fee(name("usdt-token.near"), &AllowList::of_tokens(), 100).unwrap();
    assert_eq!(vault.preview_deposit(&holder, 10_000), Ok(9_900));
    assert_eq!(vault.add_liquidity(&holder, 10_000), Ok(9_900));
    assert_eq!(vault.collected_fees(), 100);
    assert_eq!(vault.total_assets(), 9_900);
    assert_eq!(vault.shares_total_supply(), 9_900);
    assert_eq!(vault.shares_of(&holder), 9_900);
}

#[test]
fn entry_fee_formula_values() {
    assert_eq!(compute_entry_fee(10_000, 100), 100);
    assert_eq!(compute_entry_fee(9_999, 100), 99);
    assert_eq!(compute_entry_fee(12_345, 10_000), 12_345);
    assert_eq!(compute_entry_fee(u128::MAX, 10_000), u128::MAX);
    assert_eq!(compute_entry_fee(u128::MAX, 1), u128::MAX / 10_000);
    assert_eq!(compute_entry_fee(7, 0), 0);
}

#[test]
fn fees_stay_out_of_the_pool() {
    let a = name("alice.near");
    let b = name("bob.near");
    let mut vault = TokenVault::with_entry_fee(name("usdt-token.near"), &AllowList::of_tokens(), 5_000).unwrap();
    vault.add_liquidity(&a, 10).unwrap();
    assert_eq!(vault.shares_of(&a), 5);
    // Pool: 5 assets, 5 shares. Bob deposits 3, of which 2 enter after the 50% fee (3 * 5000 / 10000 = 1).
    assert_eq!(vault.add_liquidity(&b, 3), Ok(2));
    assert_eq!(vault.total_assets(), 7);
    assert_eq!(vault.shares_total_supply(), 7);
    assert_eq!(vault.collected_fees(), 6);
}

#[test]
fn preview_agrees_with_deposit_and_withdrawal() {
    let a = name("alice.near");
    let b = name("bob.near");
    let mut vault = TokenVault::with_entry_fee(name("eth-token.near"), &AllowList::of_tokens(), 30).unwrap();
    vault.add_liquidity(&a, 1_000_003).unwrap();
    let expected = vault.preview_deposit(&b, 777_777).unwrap();
    vault.add_liquidity(&b, 777_777).unwrap();
    assert_eq!(vault.shares_of(&b), expected);
    let owed = vault.preview_withdraw(&a, 123_457).unwrap();
    assert_eq!(vault.remove_liquidity(&a, 123_457), Ok(owed));
}

#[test]
fn zero_amounts_are_refused() {
    let a = name("alice.near");
    let mut vault = vault("usdt-token.near");
    assert_eq!(vault.add_liquidity(&a, 0), Err(StashError::ZeroAmount));
    assert_eq!(vault.remove_liquidity(&a, 0), Err(StashError::InsufficientShares));
}

#[test]
fn withdrawing_more_shares_than_held_is_refused() {
    let a = name("alice.near");
    let b = name("bob.near");
    let mut vault = vault("usdt-token.near");
    vault.add_liquidity(&a, 100).unwrap();
    assert_eq!(vault.remove_liquidity(&a, 101), Err(StashError::InsufficientShares));
    assert_eq!(vault.remove_liquidity(&b, 1), Err(StashError::InsufficientShares));
    assert_eq!(vault.total_assets(), 100);
    assert_eq!(vault.shares_of(&a), 100);
}

#[test]
fn deposits_that_overflow_are_refused() {
    let a = name("alice.near");
    let mut vault = vault("usdt-token.near");
    vault.add_liquidity(&a, u128::MAX).unwrap();
    assert_eq!(vault.add_liquidity(&a, 1), Err(StashError::ArithmeticOverflow));
    assert_eq!(vault.total_assets(), u128::MAX);
}

#[test]
fn withdrawal_whose_product_overflows_is_refused() {
    let a = name("alice.near");
    let mut vault = vault("usdt-token.near");
    vault.add_liquidity(&a, u128::MAX).unwrap();
    assert_eq!(vault.remove_liquidity(&a, 2), Err(StashError::ArithmeticOverflow));
    assert_eq!(vault.remove_liquidity(&a, 1), Ok(1));
}

#[test]
fn round_trip_on_a_fresh_fee_free_vault() {
    let a = name("alice.near");
    let mut vault = vault("wrap.near");
    let minted = vault.add_liquidity(&a, 10_000).unwrap();
    assert_eq!(vault.remove_liquidity(&a, minted), Ok(10_000));
}

#[test]
fn balances_add_up_to_the_supply() {
    let a = name("alice.near");
    let b = name("bob.near");
    let c = name("carol.near");
    let mut vault = TokenVault::with_entry_fee(name("sol-token.near"), &AllowList::of_tokens(), 25).unwrap();
    vault.add_liquidity(&a, 50_000).unwrap();
    vault.add_liquidity(&b, 33_333).unwrap();
    vault.remove_liquidity(&a, 7_777).unwrap();
    vault.add_liquidity(&c, 1_001).unwrap();
    vault.remove_liquidity(&b, 3).unwrap();
    let sum = vault.shares_of(&a) + vault.shares_of(&b) + vault.shares_of(&c);
    assert_eq!(sum, vault.shares_total_supply());
}
