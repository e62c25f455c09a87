//! The share/asset conversion formulas of a vault, and their arithmetic facts.

use vstd::prelude::*;

verus! {

/// Fees are given in basis points: 10_000 of them make the whole amount.
pub const BASIS_POINTS: u128 = 10_000;

/// The entry fee on `amount` at `fee_bp` basis points, rounded down.
pub open spec fn entry_fee(amount: int, fee_bp: int) -> int {
    amount * fee_bp / 10_000
}

/// The shares minted for `net` assets entering a pool that holds `total_assets`
/// backing `total_shares`: one share per asset while the pool is empty, else the
/// pool's exchange rate, rounded down.
pub open spec fn shares_for(net: int, total_assets: int, total_shares: int) -> int {
    if total_assets == 0 || total_shares == 0 {
        net
    } else {
        net * total_shares / total_assets
    }
}

/// The assets paid out for `shares` of a pool holding `total_assets` backing
/// `total_shares`, rounded down.
pub open spec fn assets_for(shares: int, total_assets: int, total_shares: int) -> int {
    total_assets * shares / total_shares
}

/// Computes the entry fee without forming `amount * fee_bp`, which may not fit in 128 bits.
pub fn compute_entry_fee(amount: u128, fee_bp: u128) -> (r: u128)
    requires
        fee_bp <= BASIS_POINTS,
    ensures
        r == entry_fee(amount as int, fee_bp as int),
        r <= amount,
{
    let q = amount / BASIS_POINTS;
    let rem = amount % BASIS_POINTS;
    proof {
        lemma_fee_split(amount as int, fee_bp as int, q as int, rem as int);
    }
    q * fee_bp + rem * fee_bp / BASIS_POINTS
}

proof fn lemma_fee_split(amount: int, fee_bp: int, q: int, rem: int)
    requires
        0 <= fee_bp <= 10_000,
        0 <= amount,
        q == amount / 10_000,
        rem == amount % 10_000,
    ensures
        q * fee_bp + rem * fee_bp / 10_000 == entry_fee(amount, fee_bp),
        q * fee_bp <= q * 10_000,
        q * 10_000 <= amount,
        entry_fee(amount, fee_bp) <= amount,
        rem * fee_bp <= 10_000 * 10_000,
{
    assert(amount == q * 10_000 + rem) by (nonlinear_arith)
        requires q == amount / 10_000, rem == amount % 10_000;
    assert(0 <= rem < 10_000) by (nonlinear_arith)
        requires rem == amount % 10_000;
    assert(amount * fee_bp == (q * fee_bp) * 10_000 + rem * fee_bp) by (nonlinear_arith)
        requires amount == q * 10_000 + rem;
    assert(((q * fee_bp) * 10_000 + rem * fee_bp) / 10_000 == q * fee_bp + rem * fee_bp / 10_000)
        by (nonlinear_arith)
        requires 0 <= rem * fee_bp;
    assert(q * fee_bp <= q * 10_000) by (nonlinear_arith)
        requires 0 <= fee_bp <= 10_000, 0 <= q;
    assert(rem * fee_bp <= 10_000 * 10_000) by (nonlinear_arith)
        requires 0 <= fee_bp <= 10_000, 0 <= rem < 10_000;
    assert(amount * fee_bp <= amount * 10_000) by (nonlinear_arith)
        requires 0 <= fee_bp <= 10_000, 0 <= amount;
    assert(amount * fee_bp / 10_000 <= amount) by (nonlinear_arith)
        requires amount * fee_bp <= amount * 10_000, 0 <= amount * fee_bp;
}

/// Rounding down protects the pool: the minted shares, valued at the pool's rate
/// before the deposit, are worth no more than the assets that came in.
pub proof fn lemma_mint_rounds_down(net: int, total_assets: int, total_shares: int)
    requires
        0 <= net,
        0 < total_assets,
        0 < total_shares,
    ensures
        0 <= shares_for(net, total_assets, total_shares),
        shares_for(net, total_assets, total_shares) * total_assets <= net * total_shares,
{
    let p = net * total_shares;
    assert(0 <= p) by (nonlinear_arith)
        requires 0 <= net, 0 < total_shares, p == net * total_shares;
    assert((p / total_assets) * total_assets <= p) by (nonlinear_arith)
        requires 0 <= p, 0 < total_assets;
    assert(0 <= p / total_assets) by (nonlinear_arith)
        requires 0 <= p, 0 < total_assets;
}

/// Rounding down protects the pool: redeeming at most all shares pays out at most all assets.
pub proof fn lemma_redeem_rounds_down(shares: int, total_assets: int, total_shares: int)
    requires
        0 <= shares <= total_shares,
        0 < total_shares,
        0 <= total_assets,
    ensures
        0 <= assets_for(shares, total_assets, total_shares) <= total_assets,
        shares < total_shares && 0 < total_assets ==> assets_for(shares, total_assets, total_shares)
            < total_assets,
        shares == total_shares ==> assets_for(shares, total_assets, total_shares) == total_assets,
{
    let p = total_assets * shares;
    assert(0 <= p <= total_assets * total_shares) by (nonlinear_arith)
        requires 0 <= shares <= total_shares, 0 <= total_assets, p == total_assets * shares;
    assert(0 <= p / total_shares <= total_assets) by (nonlinear_arith)
        requires 0 <= p <= total_assets * total_shares, 0 < total_shares;
    if shares < total_shares && 0 < total_assets {
        assert(p < total_assets * total_shares) by (nonlinear_arith)
            requires shares < total_shares, 0 < total_assets, p == total_assets * shares;
        assert(p / total_shares < total_assets) by (nonlinear_arith)
            requires 0 <= p < total_assets * total_shares, 0 < total_shares;
    }
    if shares == total_shares {
        assert(p / total_shares == total_assets) by (nonlinear_arith)
            requires p == total_assets * shares, shares == total_shares, 0 < total_shares;
    }
}

} // verus!
