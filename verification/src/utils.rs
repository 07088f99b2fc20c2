//! Time grid and lockup schedule.

use crate::error::TrzRewardsError;
use vstd::prelude::*;

verus! {

/// Length of one settlement day in seconds; all day boundaries truncate to
/// this grid.
pub const SECONDS_PER_DAY: u64 = 86400;

/// Timestamp truncated down to the beginning of its day.
pub open spec fn spec_day_floor(ts: u64) -> u64 {
    (ts - (ts % 86400)) as u64
}

/// Beginning of the day that `ts` falls in.
pub fn day_floor(ts: u64) -> (r: u64)
    ensures
        r == spec_day_floor(ts),
{
    ts - (ts % SECONDS_PER_DAY)
}

/// Lockup choice for a stake: a pure table mapping each choice to a reward
/// multiplier and a duration in days.
#[derive(Clone, Copy, Debug, PartialEq, Eq, Structural)]
pub enum LockupPeriod {
    /// Invalid, unset choice.
    Unset,
    /// Unlimited lockup: baseline multiplier, never expires on its own.
    Flex,
    /// Three months.
    ThreeMonths,
    /// Six months.
    SixMonths,
    /// One year.
    OneYear,
}

impl LockupPeriod {
    /// Reward multiplier of the lockup choice.
    pub open spec fn spec_multiplier(self) -> u64 {
        match self {
            LockupPeriod::Unset => 0,
            LockupPeriod::Flex => 1,
            LockupPeriod::ThreeMonths => 2,
            LockupPeriod::SixMonths => 4,
            LockupPeriod::OneYear => 6,
        }
    }

    /// Duration of the lockup choice in days (zero for the unset choice,
    /// which every operation rejects before using it).
    pub open spec fn spec_days(self) -> u64 {
        match self {
            LockupPeriod::Unset => 0,
            LockupPeriod::Flex => 5,
            LockupPeriod::ThreeMonths => 90,
            LockupPeriod::SixMonths => 180,
            LockupPeriod::OneYear => 365,
        }
    }

    /// When a lockup started at `start_ts` expires: the start's day floor
    /// plus the duration.
    pub open spec fn spec_end_timestamp(self, start_ts: u64) -> Result<u64, TrzRewardsError> {
        if self is Unset {
            Err(TrzRewardsError::InvalidLockupPeriod)
        } else if spec_day_floor(start_ts) + self.spec_days() * 86400 > u64::MAX {
            Err(TrzRewardsError::MathOverflow)
        } else {
            Ok((spec_day_floor(start_ts) + self.spec_days() * 86400) as u64)
        }
    }

    /// Multiplier used in the weighted-stake calculations.
    pub fn multiplier(&self) -> (r: u64)
        ensures
            r == self.spec_multiplier(),
    {
        match self {
            LockupPeriod::Unset => 0,
            LockupPeriod::ThreeMonths => 2,
            LockupPeriod::SixMonths => 4,
            LockupPeriod::OneYear => 6,
            LockupPeriod::Flex => 1,
        }
    }

    /// Number of days the lockup lasts.
    pub fn days(&self) -> (r: Result<u64, TrzRewardsError>)
        ensures
            self is Unset ==> r == Err::<u64, TrzRewardsError>(
                TrzRewardsError::InvalidLockupPeriod,
            ),
            !(self is Unset) ==> r == Ok::<u64, TrzRewardsError>(self.spec_days()),
    {
        match self {
            LockupPeriod::Unset => Err(TrzRewardsError::InvalidLockupPeriod),
            LockupPeriod::ThreeMonths => Ok(90),
            LockupPeriod::SixMonths => Ok(180),
            LockupPeriod::OneYear => Ok(365),
            LockupPeriod::Flex => Ok(5),
        }
    }

    /// Day-aligned time when a lockup that started at `start_ts` expires.
    pub fn end_timestamp(&self, start_ts: u64) -> (r: Result<u64, TrzRewardsError>)
        ensures
            r == self.spec_end_timestamp(start_ts),
    {
        let days: u64 = match self {
            LockupPeriod::Unset => {
                return Err(TrzRewardsError::InvalidLockupPeriod);
            },
            LockupPeriod::ThreeMonths => 90,
            LockupPeriod::SixMonths => 180,
            LockupPeriod::OneYear => 365,
            LockupPeriod::Flex => 5,
        };
        let beginning_of_the_day = day_floor(start_ts);
        match beginning_of_the_day.checked_add(days * SECONDS_PER_DAY) {
            Some(end) => Ok(end),
            None => Err(TrzRewardsError::MathOverflow),
        }
    }
}

} // verus!
