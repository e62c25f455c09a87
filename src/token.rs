//! Supported assets: the allow-list a vault's asset is checked against, and the
//! tokens the stash service supports out of the box.

use vstd::prelude::*;
use crate::account::{is_valid_account_id, AccountName};

verus! {

/// The tokens supported out of the box, each identified by its contract account.
#[derive(Clone, Copy, Debug, PartialEq, Eq, Structural)]
pub enum Token {
    BTC,
    ETH,
    USDT,
    USDC,
    NEAR,
    SOL,
}

/// The contract account of token `t`.
pub open spec fn token_contract_id(t: Token) -> Seq<char> {
    match t {
        Token::BTC => "btc-token.near"@,
        Token::ETH => "eth-token.near"@,
        Token::USDT => "usdt-token.near"@,
        Token::USDC => "usdc-token.near"@,
        Token::NEAR => "wrap.near"@,
        Token::SOL => "sol-token.near"@,
    }
}

/// The position of `t` in `all_tokens()`.
pub open spec fn token_index(t: Token) -> int {
    match t {
        Token::BTC => 0,
        Token::ETH => 1,
        Token::USDT => 2,
        Token::USDC => 3,
        Token::NEAR => 4,
        Token::SOL => 5,
    }
}

/// The supported tokens, in a fixed order.
pub open spec fn all_tokens() -> Seq<Token> {
    seq![Token::BTC, Token::ETH, Token::USDT, Token::USDC, Token::NEAR, Token::SOL]
}

fn same_text(a: &str, b: &str) -> (r: bool)
    ensures
        r == (a@ == b@),
{
    a.to_owned() == b.to_owned()
}

impl Token {
    pub fn contract_id(&self) -> (r: &'static str)
        ensures
            r@ == token_contract_id(*self),
    {
        match self {
            Token::BTC => "btc-token.near",
            Token::ETH => "eth-token.near",
            Token::USDT => "usdt-token.near",
            Token::USDC => "usdc-token.near",
            Token::NEAR => "wrap.near",
            Token::SOL => "sol-token.near",
        }
    }

    pub fn all() -> (r: Vec<Token>)
        ensures
            r@ == all_tokens(),
    {
        vec![Token::BTC, Token::ETH, Token::USDT, Token::USDC, Token::NEAR, Token::SOL]
    }

    /// The token whose contract account is `id`, if any.
    pub fn from_contract_id(id: &AccountName) -> (r: Option<Token>)
        ensures
            r matches Some(t) ==> token_contract_id(t) == id@,
            r is None ==> forall|t: Token| token_contract_id(t) != id@,
    {
        let all = Token::all();
        let mut i: usize = 0;
        while i < all.len()
            invariant
                all@ == all_tokens(),
                i <= all@.len(),
                forall|j: int| 0 <= j < i ==> token_contract_id(#[trigger] all@[j]) != id@,
            decreases all@.len() - i,
        {
            let t = all[i];
            if same_text(t.contract_id(), id.as_str()) {
                return Some(t);
            }
            i = i + 1;
        }
        proof {
            assert forall|t: Token| token_contract_id(t) != id@ by {
                assert(all@[token_index(t)] == t);
            }
        }
        None
    }
}

/// The assets that vaults may be opened for.
pub struct AllowList {
    assets: Vec<AccountName>,
}

impl View for AllowList {
    type V = Set<Seq<char>>;

    closed spec fn view(&self) -> Set<Seq<char>> {
        Set::new(|a: Seq<char>| exists|i: int| 0 <= i < self.assets@.len() && self.assets@[i]@ == a)
    }
}

impl AllowList {
    /// An allow-list that admits nothing.
    pub fn new() -> (r: AllowList)
        ensures
            r@ == Set::<Seq<char>>::empty(),
    {
        let r = AllowList { assets: Vec::new() };
        assert(r@ =~= Set::<Seq<char>>::empty());
        r
    }

    /// Admits `asset` as well.
    pub fn add(&mut self, asset: AccountName)
        ensures
            final(self)@ == old(self)@.insert(asset@),
    {
        let ghost pre = self.assets@;
        let ghost a = asset@;
        self.assets.push(asset);
        proof {
            assert forall|x: Seq<char>| old(self)@.insert(a).contains(x) implies self@.contains(x) by {
                if x == a {
                    assert(self.assets@[pre.len() as int]@ == a);
                } else {
                    let i = choose|i: int| 0 <= i < pre.len() && pre[i]@ == x;
                    assert(self.assets@[i] == pre[i]);
                }
            }
            assert forall|x: Seq<char>| self@.contains(x) implies old(self)@.insert(a).contains(x) by {
                if x != a {
                    let i = choose|i: int| 0 <= i < self.assets@.len() && self.assets@[i]@ == x;
                    assert(i < pre.len());
                    assert(pre[i] == self.assets@[i]);
                }
            }
        }
        assert(self@ =~= old(self)@.insert(a));
    }

    pub fn contains(&self, asset: &AccountName) -> (r: bool)
        ensures
            r == self@.contains(asset@),
    {
        let mut i: usize = 0;
        while i < self.assets.len()
            invariant
                i <= self.assets@.len(),
                forall|j: int| 0 <= j < i ==> (#[trigger] self.assets@[j])@ != asset@,
            decreases self.assets@.len() - i,
        {
            if self.assets[i].equals(asset) {
                assert(self@.contains(asset@));
                return true;
            }
            i = i + 1;
        }
        false
    }

    /// The allow-list of the supported tokens.
    pub fn of_tokens() -> (r: AllowList)
        ensures
            forall|a: Seq<char>|
                r@.contains(a) <==> (exists|t: Token| token_contract_id(t) == a) && is_valid_account_id(a),
    {
        let all = Token::all();
        let mut r = AllowList::new();
        let mut i: usize = 0;
        while i < all.len()
            invariant
                all@ == all_tokens(),
                i <= all@.len(),
                forall|a: Seq<char>|
                    #![trigger r@.contains(a)]
                    r@.contains(a) <==> (exists|j: int|
                        0 <= j < i && token_contract_id(#[trigger] all@[j]) == a) && is_valid_account_id(a),
            decreases all@.len() - i,
        {
            let t = all[i];
            let ghost pre = r@;
            if let Some(name) = AccountName::parse(t.contract_id()) {
                r.add(name);
            }
            proof {
                assert(t == all@[i as int]);
                assert forall|a: Seq<char>|
                    #![trigger r@.contains(a)]
                    r@.contains(a) <==> (exists|j: int|
                        0 <= j < i + 1 && token_contract_id(#[trigger] all@[j]) == a) && is_valid_account_id(a)
                    by {
                    assert(pre.contains(a) || !pre.contains(a));
                    if a == token_contract_id(t) {
                        if is_valid_account_id(a) {
                            assert(r@.contains(a));
                            assert(0 <= i < i + 1 && token_contract_id(all@[i as int]) == a);
                        }
                    } else {
                        assert(r@.contains(a) == pre.contains(a));
                        if exists|j: int| 0 <= j < i + 1 && token_contract_id(#[trigger] all@[j]) == a {
                            let j = choose|j: int|
                                0 <= j < i + 1 && token_contract_id(#[trigger] all@[j]) == a;
                            assert(j < i);
                        }
                    }
                }
            }
            i = i + 1;
        }
        proof {
            assert forall|t: Token| all@[token_index(t)] == t by {}
            assert forall|a: Seq<char>|
                #![trigger r@.contains(a)]
                (exists|t: Token| token_contract_id(t) == a) implies (exists|j: int|
                    0 <= j < all@.len() && token_contract_id(#[trigger] all@[j]) == a) by {
                let t = choose|t: Token| token_contract_id(t) == a;
                assert(all@[token_index(t)] == t);
            }
        }
        r
    }
}

} // verus!
