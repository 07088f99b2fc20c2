//! State types: the reward pool, the per-participant position, and the
//! bounded ordered timeline that backs their schedules.

pub mod laws;
pub mod mining;
pub mod reward_pool;
pub mod timeline;

use vstd::prelude::*;

verus! {

/// Capacity of a position's local decay schedule.
pub const MINING_MODIFIERS_TREE_CAPACITY: usize = 50;

/// Capacity of the pool's decay schedule.
pub const POOL_MODIFIERS_TREE_CAPACITY: usize = 365;

/// Capacity of the pool's cumulative-index history.
pub const INDEX_HISTORY_MAX_SIZE: usize = 1095;

/// Fixed-point scale of the cumulative reward index.
pub const PRECISION: u128 = 10_000_000_000_000_000;

/// Discriminator for the kind of record a stored account holds.
#[derive(Clone, Copy, Debug, PartialEq, Eq, Structural)]
pub enum AccountType {
    /// Not initialized yet.
    Uninitialized,
    /// A reward pool record.
    RewardPool,
    /// A mining (stake position) record.
    Mining,
}

impl AccountType {
    /// Byte tag stored for this account type.
    pub fn to_u8(&self) -> (r: u8)
        ensures
            self is Uninitialized ==> r == 0,
            self is RewardPool ==> r == 1,
            self is Mining ==> r == 2,
    {
        match self {
            AccountType::Uninitialized => 0,
            AccountType::RewardPool => 1,
            AccountType::Mining => 2,
        }
    }

    /// Account type for a stored byte tag; tags above 2 are not valid.
    pub fn from_u8(value: u8) -> (r: AccountType)
        requires
            value <= 2,
        ensures
            value == 0 ==> r is Uninitialized,
            value == 1 ==> r is RewardPool,
            value == 2 ==> r is Mining,
    {
        if value == 0 {
            AccountType::Uninitialized
        } else if value == 1 {
            AccountType::RewardPool
        } else {
            AccountType::Mining
        }
    }
}

} // verus!
