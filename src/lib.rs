//! Accounting core of a multi-tenant fund-pooling ledger: groups of contributors
//! ("stashes") pool whitelisted assets in per-asset share vaults.

pub mod account;
pub mod math;
pub mod book;
pub mod token;
pub mod error;
pub mod token_vault;
pub mod authorization;
pub mod pending;
pub mod stash;
pub mod storage;
pub mod contract;
