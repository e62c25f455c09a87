use divvy_wealth::account::AccountName;
use divvy_wealth::token::{AllowList, Token};

#[test]
fn well_formed_account_ids_parse() {
    for s in ["alice.near", "a1", "usdt-token.near", "x_y.z-w", "0s", "wrap.near"] {
        let a = AccountName::parse(s).unwrap();
        assert_eq!(a.as_str(), s);
    }
    let long = "a".repeat(64);
    assert!(AccountName::parse(&long).is_some());
}

#[test]
fn malformed_account_ids_are_refused() {
    let too_long = "a".repeat(65);
    for s in ["", "a", "Alice.near", "-alice", "alice-", "al..ice", "al_-ice", "al ice", "ålice", too_long.as_str()] {
        assert!(AccountName::parse(s).is_none(), "{}", s);
    }
}

#[test]
fn account_names_compare_by_text() {
    let a = AccountName::parse("alice.near").unwrap();
    let b = AccountName::parse("alice.near").unwrap();
    let c = AccountName::parse("bob.near").unwrap();
    assert!(a.equals(&b));
    assert!(!a.equals(&c));
    assert!(a == b.clone());
}

#[test]
fn token_contract_ids() {
    assert_eq!(Token::BTC.contract_id(), "btc-token.near");
    assert_eq!(Token::ETH.contract_id(), "eth-token.near");
    assert_eq!(Token::USDT.contract_id(), "usdt-token.near");
    assert_eq!(Token::USDC.contract_id(), "usdc-token.near");
    assert_eq!(Token::NEAR.contract_id(), "wrap.near");
    assert_eq!(Token::SOL.contract_id(), "sol-token.near");
    assert_eq!(Token::all().len(), 6);
}

#[test]
fn tokens_found_by_contract_id() {
    let near = AccountName::parse("wrap.near").unwrap();
    assert_eq!(Token::from_contract_id(&near), Some(Token::NEAR));
    let other = AccountName::parse("usdt.token.near").unwrap();
    assert_eq!(Token::from_contract_id(&other), None);
}

#[test]
fn allow_list_of_tokens_and_by_hand() {
    let tokens = AllowList::of_tokens();
    for t in Token::all() {
        assert!(tokens.contains(&AccountName::parse(t.contract_id()).unwrap()));
    }
    assert!(!tokens.contains(&AccountName::parse("usdt.token.near").unwrap()));
    let mut custom = AllowList::new();
    let x = AccountName::parse("x.near").unwrap();
    assert!(!custom.contains(&x));
    custom.add(x.clone());
    assert!(custom.contains(&x));
}
