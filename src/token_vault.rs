//! A vault: the share ledger of one asset. Deposits turn assets into shares at the
//! pool's exchange rate, withdrawals turn shares back into assets; both round down,
//! in the pool's favour.

use vstd::prelude::*;
use crate::account::AccountName;
use crate::book::ShareBook;
use crate::error::StashError;
use crate::math::{
    assets_for, compute_entry_fee, entry_fee, lemma_mint_rounds_down, lemma_redeem_rounds_down,
    shares_for, BASIS_POINTS,
};
use crate::token::AllowList;

verus! {

pub struct TokenVault {
    token_type: AccountName,
    entry_fee_bp: u128,
    total_assets: u128,
    shares_total_supply: u128,
    collected_fees: u128,
    shares: ShareBook,
}

/// What a successful deposit of `amount` by holder `h`, minting `minted` shares,
/// does to vault `pre`, giving `post`. The fee stays out of the pool and is counted
/// among the collected fees.
pub open spec fn deposit_effect(
    pre: TokenVault,
    post: TokenVault,
    h: Seq<char>,
    amount: int,
    minted: int,
) -> bool {
    let fee = entry_fee(amount, pre.fee_bp() as int);
    let net = amount - fee;
    &&& minted == shares_for(net, pre.assets() as int, pre.supply() as int)
    &&& post.assets() == pre.assets() + net
    &&& post.supply() == pre.supply() + minted
    &&& post.fees() == pre.fees() + fee
    &&& post.balance(h) == pre.balance(h) + minted
    &&& forall|o: Seq<char>| o != h ==> post.balance(o) == pre.balance(o)
    &&& post.asset() == pre.asset()
    &&& post.fee_bp() == pre.fee_bp()
}

/// Whether every result of depositing `amount` into `v` fits in 128 bits, the
/// product `net * total_shares` of the conversion included.
pub open spec fn deposit_fits(v: TokenVault, amount: int) -> bool {
    let fee = entry_fee(amount, v.fee_bp() as int);
    let net = amount - fee;
    &&& v.assets() == 0 || net * v.supply() <= u128::MAX
    &&& v.assets() + net <= u128::MAX
    &&& v.supply() + shares_for(net, v.assets() as int, v.supply() as int) <= u128::MAX
    &&& v.fees() + fee <= u128::MAX
}

/// What a successful withdrawal of `shares` by holder `h`, paying out `assets`,
/// does to vault `pre`, giving `post`.
pub open spec fn withdraw_effect(
    pre: TokenVault,
    post: TokenVault,
    h: Seq<char>,
    shares: int,
    assets: int,
) -> bool {
    &&& assets == assets_for(shares, pre.assets() as int, pre.supply() as int)
    &&& post.assets() == pre.assets() - assets
    &&& post.supply() == pre.supply() - shares
    &&& post.balance(h) == pre.balance(h) - shares
    &&& forall|o: Seq<char>| o != h ==> post.balance(o) == pre.balance(o)
    &&& post.fees() == pre.fees()
    &&& post.asset() == pre.asset()
    &&& post.fee_bp() == pre.fee_bp()
}

/// Whether the product `total_assets * shares` of the conversion fits in 128 bits.
pub open spec fn withdraw_fits(v: TokenVault, shares: int) -> bool {
    v.assets() * shares <= u128::MAX
}

impl TokenVault {
    /// The asset's contract account.
    pub closed spec fn asset(&self) -> Seq<char> {
        self.token_type@
    }

    /// The entry fee, in basis points.
    pub closed spec fn fee_bp(&self) -> u128 {
        self.entry_fee_bp
    }

    /// The assets in the pool.
    pub closed spec fn assets(&self) -> u128 {
        self.total_assets
    }

    /// The shares in circulation.
    pub closed spec fn supply(&self) -> u128 {
        self.shares_total_supply
    }

    /// The entry fees charged so far.
    pub closed spec fn fees(&self) -> u128 {
        self.collected_fees
    }

    /// The shares held by `h`.
    pub closed spec fn balance(&self, h: Seq<char>) -> nat {
        self.shares.balance(h)
    }

    /// The sum of the shares held by every holder.
    pub closed spec fn balance_sum(&self) -> nat {
        self.shares.total()
    }

    /// The share book keeps one entry per holder.
    pub closed spec fn book_wf(&self) -> bool {
        self.shares.wf()
    }

    /// The vault's invariant: the holders' balances add up to the supply, the pool
    /// is empty of assets exactly when no shares circulate, and the fee is at most
    /// the whole amount.
    pub open spec fn wf(&self) -> bool {
        &&& self.book_wf()
        &&& self.balance_sum() == self.supply()
        &&& (self.assets() == 0 <==> self.supply() == 0)
        &&& self.fee_bp() <= BASIS_POINTS
    }

    /// No holder holds more shares than circulate.
    pub proof fn lemma_balance_le_supply(&self, h: Seq<char>)
        requires
            self.wf(),
        ensures
            self.balance(h) <= self.supply(),
    {
        self.shares.lemma_balance_le_total(h);
    }

    /// A fee-free vault for `token_type`, which must be on the allow-list.
    pub fn new(token_type: AccountName, allow_list: &AllowList) -> (r: Result<
        TokenVault,
        StashError,
    >)
        ensures
            r is Ok <==> allow_list@.contains(token_type@),
            r is Err ==> r == Err::<TokenVault, StashError>(StashError::AssetNotSupported),
            r matches Ok(v) ==> v.wf() && v.asset() == token_type@ && v.fee_bp() == 0 && v.assets()
                == 0 && v.supply() == 0 && v.fees() == 0 && forall|h: Seq<char>| v.balance(h)
                == 0,
    {
        TokenVault::with_entry_fee(token_type, allow_list, 0)
    }

    /// A vault for `token_type`, which must be on the allow-list, charging
    /// `entry_fee_bp` basis points on every deposit.
    pub fn with_entry_fee(token_type: AccountName, allow_list: &AllowList, entry_fee_bp: u128) -> (r:
        Result<TokenVault, StashError>)
        requires
            entry_fee_bp <= BASIS_POINTS,
        ensures
            r is Ok <==> allow_list@.contains(token_type@),
            r is Err ==> r == Err::<TokenVault, StashError>(StashError::AssetNotSupported),
            r matches Ok(v) ==> v.wf() && v.asset() == token_type@ && v.fee_bp() == entry_fee_bp
                && v.assets() == 0 && v.supply() == 0 && v.fees() == 0 && forall|h: Seq<char>|
                v.balance(h) == 0,
    {
        if !allow_list.contains(&token_type) {
            return Err(StashError::AssetNotSupported);
        }
        Ok(
            TokenVault {
                token_type,
                entry_fee_bp,
                total_assets: 0,
                shares_total_supply: 0,
                collected_fees: 0,
                shares: ShareBook::new(),
            },
        )
    }

    pub fn get_token_type(&self) -> (r: AccountName)
        ensures
            r@ == self.asset(),
    {
        self.token_type.clone()
    }

    pub fn entry_fee_bp(&self) -> (r: u128)
        ensures
            r == self.fee_bp(),
    {
        self.entry_fee_bp
    }

    pub fn total_assets(&self) -> (r: u128)
        ensures
            r == self.assets(),
    {
        self.total_assets
    }

    pub fn shares_total_supply(&self) -> (r: u128)
        ensures
            r == self.supply(),
    {
        self.shares_total_supply
    }

    pub fn collected_fees(&self) -> (r: u128)
        ensures
            r == self.fees(),
    {
        self.collected_fees
    }

    pub fn shares_of(&self, holder: &AccountName) -> (r: u128)
        requires
            self.wf(),
        ensures
            r == self.balance(holder@),
    {
        self.shares.balance_of(holder)
    }

    /// The fee, net assets and minted shares of a deposit of `amount`.
    fn plan_deposit(&self, amount: u128) -> (r: Result<(u128, u128, u128), StashError>)
        requires
            self.wf(),
        ensures
            r is Ok <==> amount > 0 && deposit_fits(*self, amount as int),
            amount == 0 ==> r == Err::<(u128, u128, u128), StashError>(StashError::ZeroAmount),
            amount > 0 && !deposit_fits(*self, amount as int) ==> r == Err::<
                (u128, u128, u128),
                StashError,
            >(StashError::ArithmeticOverflow),
            r matches Ok((fee, net, minted)) ==> {
                &&& fee == entry_fee(amount as int, self.fee_bp() as int)
                &&& net == amount - fee
                &&& minted == shares_for(net as int, self.assets() as int, self.supply() as int)
            },
    {
        if amount == 0 {
            return Err(StashError::ZeroAmount);
        }
        let fee = compute_entry_fee(amount, self.entry_fee_bp);
        let net = amount - fee;
        let minted = if self.total_assets == 0 {
            net
        } else {
            match net.checked_mul(self.shares_total_supply) {
                Some(p) => p / self.total_assets,
                None => {
                    return Err(StashError::ArithmeticOverflow);
                },
            }
        };
        if self.total_assets.checked_add(net).is_none() || self.shares_total_supply.checked_add(
            minted,
        ).is_none() || self.collected_fees.checked_add(fee).is_none() {
            return Err(StashError::ArithmeticOverflow);
        }
        Ok((fee, net, minted))
    }

    /// The balance `sender` would hold after depositing `assets`: the same
    /// computation, rounding and refusals as `add_liquidity`, without its effect.
    pub fn preview_deposit(&self, sender: &AccountName, assets: u128) -> (r: Result<u128, StashError>)
        requires
            self.wf(),
        ensures
            r is Ok <==> assets > 0 && deposit_fits(*self, assets as int),
            assets == 0 ==> r == Err::<u128, StashError>(StashError::ZeroAmount),
            assets > 0 && !deposit_fits(*self, assets as int) ==> r == Err::<u128, StashError>(
                StashError::ArithmeticOverflow,
            ),
            r matches Ok(b) ==> b == self.balance(sender@) + shares_for(
                assets - entry_fee(assets as int, self.fee_bp() as int),
                self.assets() as int,
                self.supply() as int,
            ),
    {
        match self.plan_deposit(assets) {
            Ok((_, _, minted)) => {
                proof {
                    self.shares.lemma_balance_le_total(sender@);
                }
                Ok(self.shares.balance_of(sender) + minted)
            },
            Err(e) => Err(e),
        }
    }

    /// Deposits `amount` for `sender`: the entry fee is set aside, the rest enters
    /// the pool, and `sender` is credited the shares it buys. Returns the shares minted.
    pub fn add_liquidity(&mut self, sender: &AccountName, amount: u128) -> (r: Result<
        u128,
        StashError,
    >)
        requires
            old(self).wf(),
        ensures
            final(self).wf(),
            r is Ok <==> amount > 0 && deposit_fits(*old(self), amount as int),
            amount == 0 ==> r == Err::<u128, StashError>(StashError::ZeroAmount),
            amount > 0 && !deposit_fits(*old(self), amount as int) ==> r == Err::<u128, StashError>(
                StashError::ArithmeticOverflow,
            ),
            r matches Ok(minted) ==> deposit_effect(
                *old(self),
                *final(self),
                sender@,
                amount as int,
                minted as int,
            ),
            r is Err ==> *final(self) == *old(self),
    {
        let (fee, net, minted) = match self.plan_deposit(amount) {
            Ok(p) => p,
            Err(e) => {
                return Err(e);
            },
        };
        self.total_assets = self.total_assets + net;
        self.shares_total_supply = self.shares_total_supply + minted;
        self.collected_fees = self.collected_fees + fee;
        self.shares.credit(sender, minted);
        Ok(minted)
    }

    /// The assets that withdrawing `shares` of `sender` pays out: the same
    /// computation, rounding and refusals as `remove_liquidity`, without its effect.
    pub fn preview_withdraw(&self, sender: &AccountName, shares: u128) -> (r: Result<
        u128,
        StashError,
    >)
        requires
            self.wf(),
        ensures
            r is Ok <==> 0 < shares <= self.balance(sender@) && withdraw_fits(*self, shares as int),
            (shares == 0 || shares > self.balance(sender@)) ==> r == Err::<u128, StashError>(
                StashError::InsufficientShares,
            ),
            0 < shares <= self.balance(sender@) && !withdraw_fits(*self, shares as int) ==> r
                == Err::<u128, StashError>(StashError::ArithmeticOverflow),
            r matches Ok(a) ==> a == assets_for(
                shares as int,
                self.assets() as int,
                self.supply() as int,
            ),
    {
        let balance = self.shares.balance_of(sender);
        if shares == 0 || shares > balance {
            return Err(StashError::InsufficientShares);
        }
        proof {
            self.shares.lemma_balance_le_total(sender@);
        }
        match self.total_assets.checked_mul(shares) {
            Some(p) => Ok(p / self.shares_total_supply),
            None => Err(StashError::ArithmeticOverflow),
        }
    }

    /// Withdraws `shares` of `sender`: they are burned and the assets they stand
    /// for leave the pool. Returns the assets paid out.
    pub fn remove_liquidity(&mut self, sender: &AccountName, shares: u128) -> (r: Result<
        u128,
        StashError,
    >)
        requires
            old(self).wf(),
        ensures
            final(self).wf(),
            r is Ok <==> 0 < shares <= old(self).balance(sender@) && withdraw_fits(
                *old(self),
                shares as int,
            ),
            (shares == 0 || shares > old(self).balance(sender@)) ==> r == Err::<u128, StashError>(
                StashError::InsufficientShares,
            ),
            0 < shares <= old(self).balance(sender@) && !withdraw_fits(*old(self), shares as int)
                ==> r == Err::<u128, StashError>(StashError::ArithmeticOverflow),
            r matches Ok(assets) ==> withdraw_effect(
                *old(self),
                *final(self),
                sender@,
                shares as int,
                assets as int,
            ),
            r is Err ==> *final(self) == *old(self),
    {
        let assets = match self.preview_withdraw(sender, shares) {
            Ok(a) => a,
            Err(e) => {
                return Err(e);
            },
        };
        proof {
            self.shares.lemma_balance_le_total(sender@);
            lemma_redeem_rounds_down(
                shares as int,
                self.total_assets as int,
                self.shares_total_supply as int,
            );
        }
        self.total_assets = self.total_assets - assets;
        self.shares_total_supply = self.shares_total_supply - shares;
        self.shares.debit(sender, shares);
        Ok(assets)
    }
}

/// Conservation: in every well-formed vault, and so after every deposit and
/// withdrawal, the holders' balances add up to the shares in circulation.
pub proof fn lemma_conservation(v: TokenVault)
    requires
        v.wf(),
    ensures
        v.balance_sum() == v.supply(),
{
}

/// No dilution on deposit: the shares minted, valued at the exchange rate before
/// the deposit, are worth no more than the net assets that came in. Into an empty
/// pool exactly one share is minted per net asset.
pub proof fn lemma_deposit_no_dilution(
    pre: TokenVault,
    post: TokenVault,
    h: Seq<char>,
    amount: int,
    minted: int,
)
    requires
        pre.wf(),
        0 <= amount,
        deposit_effect(pre, post, h, amount, minted),
    ensures
        pre.supply() == 0 ==> minted == amount - entry_fee(amount, pre.fee_bp() as int),
        pre.supply() > 0 ==> minted * pre.assets() <= (amount - entry_fee(
            amount,
            pre.fee_bp() as int,
        )) * pre.supply(),
{
    let fee = entry_fee(amount, pre.fee_bp() as int);
    assert(0 <= fee <= amount) by (nonlinear_arith)
        requires fee == amount * pre.fee_bp() / 10_000, 0 <= pre.fee_bp() <= 10_000, 0 <= amount;
    if pre.supply() > 0 {
        lemma_mint_rounds_down(amount - fee, pre.assets() as int, pre.supply() as int);
    }
}

/// No dilution on withdrawal: a withdrawal of shares the holder has never pays
/// out more than the pool held.
pub proof fn lemma_withdraw_no_dilution(
    pre: TokenVault,
    post: TokenVault,
    h: Seq<char>,
    shares: int,
    assets: int,
)
    requires
        pre.wf(),
        0 < shares <= pre.balance(h),
        withdraw_effect(pre, post, h, shares, assets),
    ensures
        assets <= pre.assets(),
{
    pre.shares.lemma_balance_le_total(h);
    lemma_redeem_rounds_down(shares, pre.assets() as int, pre.supply() as int);
}

/// Round trip: on a fee-free vault that nothing has touched yet, depositing
/// `amount` and then withdrawing all the shares minted returns exactly `amount`.
pub proof fn lemma_round_trip(
    v0: TokenVault,
    v1: TokenVault,
    v2: TokenVault,
    h: Seq<char>,
    amount: int,
    minted: int,
    returned: int,
)
    requires
        v0.wf(),
        v0.supply() == 0,
        v0.fee_bp() == 0,
        0 < amount,
        deposit_effect(v0, v1, h, amount, minted),
        withdraw_effect(v1, v2, h, minted, returned),
    ensures
        returned == amount,
{
    assert(entry_fee(amount, 0) == 0);
    assert(amount * amount / amount == amount) by (nonlinear_arith)
        requires 0 < amount;
}

/// Fee correctness: at an entry fee of 1%, a deposit of 10_000 pays a fee of 100
/// and puts the other 9_900 into the pool; into an empty pool it mints 9_900 shares.
pub proof fn lemma_one_percent_entry_fee(pre: TokenVault, post: TokenVault, h: Seq<char>, minted: int)
    requires
        pre.wf(),
        pre.fee_bp() == 100,
        deposit_effect(pre, post, h, 10_000, minted),
    ensures
        entry_fee(10_000, 100) == 100,
        post.fees() == pre.fees() + 100,
        post.assets() == pre.assets() + 9_900,
        pre.supply() == 0 ==> minted == 9_900,
{
    assert(entry_fee(10_000, 100) == 100);
}

} // verus!
