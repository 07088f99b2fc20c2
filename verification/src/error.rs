//! Error types

use vstd::prelude::*;

verus! {

/// Errors that the accrual engine can return.
///
/// Every operation is checked: arithmetic that would wrap fails with
/// `MathOverflow`, domain violations fail with their own variant, and a
/// bounded timeline that is full fails with `CapacityExceeded`.
#[derive(Clone, Copy, Debug, PartialEq, Eq, Structural)]
pub enum TrzRewardsError {
    /// Input account owner is not the expected one.
    InvalidAccountOwner,
    /// A checked arithmetic operation overflowed or underflowed.
    MathOverflow,
    /// Rewards cannot be distributed while the pool has no deposits.
    RewardsNoDeposits,
    /// The lockup period is the unset variant.
    InvalidLockupPeriod,
    /// The requested distribution end date lies before the current day.
    DistributionInThePast,
    /// A value did not fit in the requested primitive type.
    InvalidPrimitiveTypesConversion,
    /// A position with unclaimed rewards cannot be closed.
    RewardsMustBeClaimed,
    /// Filling the vault with zero rewards is rejected.
    RewardsMustBeGreaterThanZero,
    /// A position that still hosts delegated stake cannot be closed.
    StakeFromOthersMustBeZero,
    /// A position that still holds weighted stake of its own cannot be
    /// closed.
    StakeMustBeWithdrawn,
    /// No weighted-stake modifier is scheduled at the given date.
    NoWeightedStakeModifiersAtADate,
    /// The new delegate must differ from the old one.  The library itself
    /// encodes that distinctness in its signatures — a delegate change
    /// takes the two delegates as separate exclusive references — so this
    /// variant is for the host, which compares the addresses it loaded
    /// before choosing an operation.
    DelegatesAreTheSame,
    /// Reconstructing a stored record failed.
    RetreivingZeroCopyAccountFailire,
    /// The account is already initialized.
    AlreadyInitialized,
    /// The mining account address is not the expected one.
    InvalidMining,
    /// Address derivation failed.
    DerivationError,
    /// The penalty is bigger than the position's weighted stake.
    DecreaseRewardsTooBig,
    /// A bounded timeline has reached its fixed capacity.
    CapacityExceeded,
}

} // verus!
