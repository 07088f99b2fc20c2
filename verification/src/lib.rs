//! Staking-rewards accrual engine.
//!
//! Tracks time-weighted stake positions against a shared reward pool and
//! computes each position's exact accrued share without iterating over all
//! participants.  Settlement is lazy: decay of expired lockup bonuses and
//! accrual against the pool's cumulative reward index happen when a record
//! is next touched.

pub mod error;
pub mod state;
pub mod utils;
