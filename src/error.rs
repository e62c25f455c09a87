//! Why an operation was refused. Every refused operation leaves the state as it was.

use vstd::prelude::*;

verus! {

#[derive(Clone, Copy, Debug, PartialEq, Eq, Structural)]
pub enum StashError {
    /// The stash, vault or pending balance named does not exist.
    NotFound,
    /// The caller is not an authorized contributor of the stash.
    Unauthorized,
    /// The asset is not on the allow-list.
    AssetNotSupported,
    /// The amount asked for exceeds the caller's pending balance.
    InsufficientPendingBalance,
    /// No shares were asked for, or more than the caller holds.
    InsufficientShares,
    /// A result would not fit in 128 bits.
    ArithmeticOverflow,
    /// The attached stake does not cover the storage cost.
    InsufficientStake,
    /// An amount of zero was given where assets must move.
    ZeroAmount,
}

} // verus!
