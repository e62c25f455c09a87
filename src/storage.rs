//! Storage accounting: a call pays for the storage it adds out of the stake it
//! attached, and gets the rest back.

use vstd::prelude::*;
use crate::error::StashError;

verus! {

/// What a call owes for storage, and what goes back to its caller.
#[derive(Clone, Copy, Debug, PartialEq, Eq, Structural)]
pub struct StorageSettlement {
    pub cost: u128,
    pub refund: u128,
}

/// The storage units a call added: none when usage went down.
pub open spec fn usage_delta(before: int, after: int) -> int {
    if after > before {
        after - before
    } else {
        0
    }
}

/// Settles a call that moved storage usage from `before` to `after` units at
/// `price_per_byte` each, with `attached` stake: the call succeeds exactly when the
/// stake covers the cost, and the surplus goes back.
pub fn check_storage(before: u64, after: u64, price_per_byte: u128, attached: u128) -> (r: Result<
    StorageSettlement,
    StashError,
>)
    ensures
        r is Ok <==> usage_delta(before as int, after as int) * price_per_byte <= attached,
        r is Err ==> r == Err::<StorageSettlement, StashError>(StashError::InsufficientStake),
        r matches Ok(s) ==> s.cost == usage_delta(before as int, after as int) * price_per_byte
            && s.refund == attached - s.cost,
{
    let delta: u64 = if after > before {
        after - before
    } else {
        0
    };
    let cost = match (delta as u128).checked_mul(price_per_byte) {
        Some(c) => c,
        None => {
            return Err(StashError::InsufficientStake);
        },
    };
    if cost > attached {
        return Err(StashError::InsufficientStake);
    }
    Ok(StorageSettlement { cost, refund: attached - cost })
}

} // verus!
