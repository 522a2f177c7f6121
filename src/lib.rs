//! Settlement engine for a mining pool: a ledger of shares, balances,
//! payments and blocks, and the per-coin cycle that credits rewards and
//! pays miners out of a coin wallet.
use vstd::prelude::*;

pub mod model;
pub mod ledger;
pub mod rewards;
pub mod settlement;
pub mod payout;
pub mod config;
pub mod dashboard;

verus! {

} // verus!
