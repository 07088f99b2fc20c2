//! Global accrual ledger: aggregate weighted stake, cumulative reward
//! index history, and the pool-wide decay schedule.

use crate::error::TrzRewardsError;
use crate::state::mining::{
    lemma_refresh_of_settled_identity, settle_calc, spec_refresh, Mining, MiningView,
};
use crate::state::timeline::{
    lemma_get_skip_high, lemma_prefix_le_props, lemma_skip_sorted, lemma_upsert_get_key,
    lemma_upsert_get_other, lemma_upsert_len_existing, spec_insert_or_add, spec_sub_at,
    tl_floor_strict, tl_get, tl_prefix_le, tl_sorted, OrderedTimeline,
};
use crate::state::{INDEX_HISTORY_MAX_SIZE, MINING_MODIFIERS_TREE_CAPACITY,
    POOL_MODIFIERS_TREE_CAPACITY, PRECISION};
use crate::utils::{day_floor, spec_day_floor, LockupPeriod, SECONDS_PER_DAY};
use vstd::arithmetic::div_mod::{
    lemma_div_is_ordered, lemma_div_multiples_vanish, lemma_div_nonincreasing,
};
use vstd::prelude::*;

verus! {

/// Mathematical view of the reward pool.
#[verifier::ext_equal]
pub ghost struct PoolView {
    /// Cumulative fixed-point reward index, scaled by the precision.
    pub index_with_precision: u128,
    /// Sum of all positions' active weighted stake at the last settlement.
    pub total_share: u64,
    /// Day-aligned time when the current distribution window ends.
    pub distribution_ends_at: u64,
    /// Tokens funded and not yet folded into the index.
    pub tokens_available_for_distribution: u64,
    /// Pool-wide decay schedule, sorted by day.
    pub weighted_stake_diffs: Seq<(u64, u64)>,
    /// History of the cumulative index, one entry per distributed day.
    pub cumulative_index: Seq<(u64, u128)>,
}

/// Global accrual ledger of the staking-rewards engine.
#[derive(Debug)]
pub struct RewardPool {
    /// Cumulative fixed-point reward index, scaled by the precision.
    pub index_with_precision: u128,
    /// Sum of all positions' active weighted stake at the last settlement.
    pub total_share: u64,
    /// Day-aligned time when the current distribution window ends.
    pub distribution_ends_at: u64,
    /// Tokens funded and not yet folded into the index.
    pub tokens_available_for_distribution: u64,
    /// Weighted-stake reductions scheduled at lockup expiry days.
    pub weighted_stake_diffs: OrderedTimeline<u64>,
    /// History of the cumulative index, one entry per distributed day.
    pub cumulative_index: OrderedTimeline<u128>,
}

impl View for RewardPool {
    type V = PoolView;

    open spec fn view(&self) -> PoolView {
        PoolView {
            index_with_precision: self.index_with_precision,
            total_share: self.total_share,
            distribution_ends_at: self.distribution_ends_at,
            tokens_available_for_distribution: self.tokens_available_for_distribution,
            weighted_stake_diffs: self.weighted_stake_diffs@,
            cumulative_index: self.cumulative_index@,
        }
    }
}

/// Folds the pool's due decays (key at most `day`) into the total share,
/// subtracting each in ascending order.
pub open spec fn spec_pool_consume(diffs: Seq<(u64, u64)>, day: u64, total_share: u64) -> Result<
    u64,
    TrzRewardsError,
>
    decreases diffs.len(),
{
    if diffs.len() == 0 || diffs[0].0 > day {
        Ok(total_share)
    } else if diffs[0].1 > total_share {
        Err(TrzRewardsError::MathOverflow)
    } else {
        spec_pool_consume(diffs.drop_first(), day, (total_share - diffs[0].1) as u64)
    }
}

/// Advances the cumulative index by `floor(rewards * precision /
/// total_share)` and records the new value under `date`.
pub open spec fn spec_pool_update_index(
    hist: Seq<(u64, u128)>,
    index_with_precision: u128,
    rewards: u64,
    total_share: u64,
    date: u64,
    cap: int,
) -> Result<(Seq<(u64, u128)>, u128), TrzRewardsError> {
    if (PRECISION as int) * rewards > u128::MAX {
        Err(TrzRewardsError::MathOverflow)
    } else if total_share == 0 {
        Err(TrzRewardsError::MathOverflow)
    } else {
        let index = ((PRECISION as int) * rewards) / (total_share as int);
        if index_with_precision + index > u128::MAX {
            Err(TrzRewardsError::MathOverflow)
        } else if tl_get(hist, date) is None && hist.len() >= cap {
            Err(TrzRewardsError::CapacityExceeded)
        } else {
            Ok(
                (
                    crate::state::timeline::tl_upsert(
                        hist,
                        date,
                        (index_with_precision + index) as u128,
                    ),
                    (index_with_precision + index) as u128,
                ),
            )
        }
    }
}

/// One distribution step at time `now`: consume due decays, then advance
/// the index at most once per day and take the distributed rewards out of
/// the available balance.
pub open spec fn spec_distribute(p: PoolView, rewards: u64, now: u64) -> Result<
    PoolView,
    TrzRewardsError,
> {
    if p.total_share == 0 {
        Err(TrzRewardsError::RewardsNoDeposits)
    } else {
        let day = spec_day_floor(now);
        match spec_pool_consume(p.weighted_stake_diffs, day, p.total_share) {
            Err(e) => Err(e),
            Ok(t1) => {
                let d1 = p.weighted_stake_diffs.skip(tl_prefix_le(p.weighted_stake_diffs, day));
                if tl_get(p.cumulative_index, day) is Some {
                    Ok((PoolView { total_share: t1, weighted_stake_diffs: d1, ..p }))
                } else {
                    match spec_pool_update_index(
                        p.cumulative_index,
                        p.index_with_precision,
                        rewards,
                        t1,
                        day,
                        INDEX_HISTORY_MAX_SIZE as int,
                    ) {
                        Err(e) => Err(e),
                        Ok((h2, ix2)) => {
                            if rewards > p.tokens_available_for_distribution {
                                Err(TrzRewardsError::MathOverflow)
                            } else {
                                Ok(
                                    (PoolView {
                                        index_with_precision: ix2,
                                        total_share: t1,
                                        tokens_available_for_distribution: (
                                        p.tokens_available_for_distribution - rewards) as u64,
                                        weighted_stake_diffs: d1,
                                        cumulative_index: h2,
                                        ..p
                                    }),
                                )
                            }
                        },
                    }
                }
            },
        }
    }
}

/// Straight-line estimate of the rewards owed to the next distribution:
/// the remaining balance spread over the remaining whole days, or the full
/// balance once the window has fewer than two days left.
pub open spec fn spec_rewards_to_distribute(p: PoolView, now: u64) -> u64 {
    if p.distribution_ends_at <= now {
        p.tokens_available_for_distribution
    } else {
        let days_left = ((p.distribution_ends_at - now) as u64) / 86400;
        if days_left == 0 {
            p.tokens_available_for_distribution
        } else {
            ((((p.tokens_available_for_distribution * (PRECISION as int)) / (days_left as int))
                / (PRECISION as int)) as u64)
        }
    }
}

/// Tops up the distribution balance and moves the end of the window to the
/// day floor of the requested date, which may not lie in the past nor
/// before the current window's end.
pub open spec fn spec_fill_vault(
    p: PoolView,
    rewards: u64,
    distribution_ends_at: u64,
    now: u64,
) -> Result<PoolView, TrzRewardsError> {
    if rewards == 0 {
        Err(TrzRewardsError::RewardsMustBeGreaterThanZero)
    } else {
        let dday = spec_day_floor(distribution_ends_at);
        let cday = spec_day_floor(now);
        if dday < cday {
            Err(TrzRewardsError::DistributionInThePast)
        } else if dday < p.distribution_ends_at {
            Err(TrzRewardsError::MathOverflow)
        } else if p.tokens_available_for_distribution + rewards > u64::MAX {
            Err(TrzRewardsError::MathOverflow)
        } else {
            Ok(
                (PoolView {
                    distribution_ends_at: dday,
                    tokens_available_for_distribution: (p.tokens_available_for_distribution
                        + rewards) as u64,
                    ..p
                }),
            )
        }
    }
}

/// A deposit of `amount` under `lockup_period` at time `now`: the position
/// is settled first, then the weighted stake is added to both the position
/// and the pool, and the bonus part above the never-expiring baseline is
/// scheduled to decay at the lockup's expiry in both schedules.
pub open spec fn spec_deposit(
    p: PoolView,
    m: MiningView,
    amount: u64,
    lockup_period: LockupPeriod,
    now: u64,
) -> Result<(PoolView, MiningView), TrzRewardsError> {
    match spec_refresh(m, p.cumulative_index, now) {
        Err(e) => Err(e),
        Ok(m1) => {
            if amount * lockup_period.spec_multiplier() > u64::MAX {
                Err(TrzRewardsError::MathOverflow)
            } else {
                let weighted = (amount * lockup_period.spec_multiplier()) as u64;
                if weighted < amount {
                    Err(TrzRewardsError::MathOverflow)
                } else {
                    let diff = (weighted - amount) as u64;
                    if p.total_share + weighted > u64::MAX {
                        Err(TrzRewardsError::MathOverflow)
                    } else if m1.share + weighted > u64::MAX {
                        Err(TrzRewardsError::MathOverflow)
                    } else {
                        match lockup_period.spec_end_timestamp(now) {
                            Err(e) => Err(e),
                            Ok(expiry) => match spec_insert_or_add(
                                p.weighted_stake_diffs,
                                POOL_MODIFIERS_TREE_CAPACITY as int,
                                expiry,
                                diff,
                            ) {
                                Err(e) => Err(e),
                                Ok(pd2) => match spec_insert_or_add(
                                    m1.weighted_stake_diffs,
                                    MINING_MODIFIERS_TREE_CAPACITY as int,
                                    expiry,
                                    diff,
                                ) {
                                    Err(e) => Err(e),
                                    Ok(md2) => Ok(
                                        (
                                            (PoolView {
                                                total_share: (p.total_share + weighted) as u64,
                                                weighted_stake_diffs: pd2,
                                                ..p
                                            }),
                                            (MiningView {
                                                share: (m1.share + weighted) as u64,
                                                weighted_stake_diffs: md2,
                                                ..m1
                                            }),
                                        ),
                                    ),
                                },
                            },
                        }
                    }
                }
            }
        },
    }
}

/// A deposit whose earning power is hosted by a distinct delegate: after
/// the plain deposit, the raw amount is added to the delegate's hosted
/// stake and to the pool's total share, and the delegate is settled.
pub open spec fn spec_deposit_delegated(
    p: PoolView,
    m: MiningView,
    d: MiningView,
    amount: u64,
    lockup_period: LockupPeriod,
    now: u64,
) -> Result<(PoolView, MiningView, MiningView), TrzRewardsError> {
    match spec_deposit(p, m, amount, lockup_period, now) {
        Err(e) => Err(e),
        Ok((p1, m1)) => {
            if d.stake_from_others + amount > u64::MAX {
                Err(TrzRewardsError::MathOverflow)
            } else if p1.total_share + amount > u64::MAX {
                Err(TrzRewardsError::MathOverflow)
            } else {
                let d1 = MiningView {
                    stake_from_others: (d.stake_from_others + amount) as u64,
                    ..d
                };
                match spec_refresh(d1, p1.cumulative_index, now) {
                    Err(e) => Err(e),
                    Ok(d2) => Ok(
                        (
                            (PoolView { total_share: (p1.total_share + amount) as u64, ..p1 }),
                            m1,
                            d2,
                        ),
                    ),
                }
            }
        },
    }
}

/// A withdrawal of `amount` at time `now`: the position is settled, the
/// amount leaves both the position's share and the pool's total, and the
/// pool's due decays are consumed.
pub open spec fn spec_withdraw(p: PoolView, m: MiningView, amount: u64, now: u64) -> Result<
    (PoolView, MiningView),
    TrzRewardsError,
> {
    match spec_refresh(m, p.cumulative_index, now) {
        Err(e) => Err(e),
        Ok(m1) => {
            if p.total_share < amount {
                Err(TrzRewardsError::MathOverflow)
            } else if m1.share < amount {
                Err(TrzRewardsError::MathOverflow)
            } else {
                let day = spec_day_floor(now);
                match spec_pool_consume(
                    p.weighted_stake_diffs,
                    day,
                    (p.total_share - amount) as u64,
                ) {
                    Err(e) => Err(e),
                    Ok(t2) => Ok(
                        (
                            (PoolView {
                                total_share: t2,
                                weighted_stake_diffs: p.weighted_stake_diffs.skip(
                                    tl_prefix_le(p.weighted_stake_diffs, day),
                                ),
                                ..p
                            }),
                            (MiningView { share: (m1.share - amount) as u64, ..m1 }),
                        ),
                    ),
                }
            }
        },
    }
}

/// A withdrawal whose earning power was hosted by a distinct delegate:
/// after the plain withdrawal, the raw amount leaves the delegate's hosted
/// stake and the pool's total, and the delegate is settled.
pub open spec fn spec_withdraw_delegated(
    p: PoolView,
    m: MiningView,
    d: MiningView,
    amount: u64,
    now: u64,
) -> Result<(PoolView, MiningView, MiningView), TrzRewardsError> {
    match spec_withdraw(p, m, amount, now) {
        Err(e) => Err(e),
        Ok((p1, m1)) => {
            if d.stake_from_others < amount {
                Err(TrzRewardsError::MathOverflow)
            } else if p1.total_share < amount {
                Err(TrzRewardsError::MathOverflow)
            } else {
                let d1 = MiningView {
                    stake_from_others: (d.stake_from_others - amount) as u64,
                    ..d
                };
                match spec_refresh(d1, p1.cumulative_index, now) {
                    Err(e) => Err(e),
                    Ok(d2) => Ok(
                        (
                            (PoolView { total_share: (p1.total_share - amount) as u64, ..p1 }),
                            m1,
                            d2,
                        ),
                    ),
                }
            }
        },
    }
}

/// A slash: a withdrawal of the weighted amount, and, when the slashed
/// lockup is still scheduled, a matching reduction of the decay recorded
/// at its expiry day in both schedules.
pub open spec fn spec_slash(
    p: PoolView,
    m: MiningView,
    slash_amount_in_native: u64,
    slash_amount_multiplied_by_period: u64,
    stake_expiration_date: Option<u64>,
    now: u64,
) -> Result<(PoolView, MiningView), TrzRewardsError> {
    match spec_withdraw(p, m, slash_amount_multiplied_by_period, now) {
        Err(e) => Err(e),
        Ok((p1, m1)) => match stake_expiration_date {
            None => Ok((p1, m1)),
            Some(expiry) => {
                let expiry_day = spec_day_floor(expiry);
                if slash_amount_multiplied_by_period < slash_amount_in_native {
                    Err(TrzRewardsError::MathOverflow)
                } else {
                    let diff = (slash_amount_multiplied_by_period - slash_amount_in_native) as u64;
                    match spec_sub_at(m1.weighted_stake_diffs, expiry_day, diff) {
                        Err(e) => Err(e),
                        Ok(md2) => match spec_sub_at(p1.weighted_stake_diffs, expiry_day, diff) {
                            Err(e) => Err(e),
                            Ok(pd2) => Ok(
                                (
                                    (PoolView { weighted_stake_diffs: pd2, ..p1 }),
                                    (MiningView { weighted_stake_diffs: md2, ..m1 }),
                                ),
                            ),
                        },
                    }
                }
            },
        },
    }
}

/// Moving hosted stake from one distinct delegate to another: the staked
/// amount leaves the old delegate's hosted stake and enters the new one's,
/// with every touched position settled once at `now`.
pub open spec fn spec_change_delegate(
    p: PoolView,
    m: MiningView,
    old_d: MiningView,
    new_d: MiningView,
    staked_amount: u64,
    now: u64,
) -> Result<(PoolView, MiningView, MiningView, MiningView), TrzRewardsError> {
    match spec_refresh(m, p.cumulative_index, now) {
        Err(e) => Err(e),
        Ok(m1) => {
            if old_d.stake_from_others < staked_amount {
                Err(TrzRewardsError::MathOverflow)
            } else if p.total_share < staked_amount {
                Err(TrzRewardsError::MathOverflow)
            } else {
                let od1 = MiningView {
                    stake_from_others: (old_d.stake_from_others - staked_amount) as u64,
                    ..old_d
                };
                match spec_refresh(od1, p.cumulative_index, now) {
                    Err(e) => Err(e),
                    Ok(od2) => {
                        if new_d.stake_from_others + staked_amount > u64::MAX {
                            Err(TrzRewardsError::MathOverflow)
                        } else if (p.total_share - staked_amount) + staked_amount > u64::MAX {
                            Err(TrzRewardsError::MathOverflow)
                        } else {
                            let nd1 = MiningView {
                                stake_from_others: (new_d.stake_from_others + staked_amount) as u64,
                                ..new_d
                            };
                            match spec_refresh(nd1, p.cumulative_index, now) {
                                Err(e) => Err(e),
                                Ok(nd2) => Ok((p, m1, od2, nd2)),
                            }
                        }
                    },
                }
            }
        },
    }
}

/// Delegating previously self-hosted stake to a distinct delegate: the
/// staked amount enters the new delegate's hosted stake and the pool's
/// total share.
pub open spec fn spec_change_delegate_from_self(
    p: PoolView,
    m: MiningView,
    new_d: MiningView,
    staked_amount: u64,
    now: u64,
) -> Result<(PoolView, MiningView, MiningView), TrzRewardsError> {
    match spec_refresh(m, p.cumulative_index, now) {
        Err(e) => Err(e),
        Ok(m1) => {
            if new_d.stake_from_others + staked_amount > u64::MAX {
                Err(TrzRewardsError::MathOverflow)
            } else if p.total_share + staked_amount > u64::MAX {
                Err(TrzRewardsError::MathOverflow)
            } else {
                let nd1 = MiningView {
                    stake_from_others: (new_d.stake_from_others + staked_amount) as u64,
                    ..new_d
                };
                match spec_refresh(nd1, p.cumulative_index, now) {
                    Err(e) => Err(e),
                    Ok(nd2) => Ok(
                        (
                            (PoolView { total_share: (p.total_share + staked_amount) as u64, ..p }),
                            m1,
                            nd2,
                        ),
                    ),
                }
            }
        },
    }
}

/// Taking hosted stake back from a distinct delegate to the position
/// itself: the staked amount leaves the old delegate's hosted stake and
/// the pool's total share.
pub open spec fn spec_change_delegate_to_self(
    p: PoolView,
    m: MiningView,
    old_d: MiningView,
    staked_amount: u64,
    now: u64,
) -> Result<(PoolView, MiningView, MiningView), TrzRewardsError> {
    match spec_refresh(m, p.cumulative_index, now) {
        Err(e) => Err(e),
        Ok(m1) => {
            if old_d.stake_from_others < staked_amount {
                Err(TrzRewardsError::MathOverflow)
            } else if p.total_share < staked_amount {
                Err(TrzRewardsError::MathOverflow)
            } else {
                let od1 = MiningView {
                    stake_from_others: (old_d.stake_from_others - staked_amount) as u64,
                    ..old_d
                };
                match spec_refresh(od1, p.cumulative_index, now) {
                    Err(e) => Err(e),
                    Ok(od2) => Ok(
                        (
                            (PoolView { total_share: (p.total_share - staked_amount) as u64, ..p }),
                            m1,
                            od2,
                        ),
                    ),
                }
            }
        },
    }
}

/// Unwinding the still-outstanding part of an old lockup before restaking:
/// the shared first half of an extend operation, producing the pool and
/// position state on which the fresh deposit then runs.
pub open spec fn spec_extend_unwind(
    p: PoolView,
    m1: MiningView,
    old_lockup_period: LockupPeriod,
    deposit_start_ts: u64,
    base_amount: u64,
    now: u64,
) -> Result<(PoolView, MiningView), TrzRewardsError> {
    if !(old_lockup_period is Flex) && old_lockup_period.spec_end_timestamp(
        deposit_start_ts,
    ) is Err {
        Err(old_lockup_period.spec_end_timestamp(deposit_start_ts)->Err_0)
    } else {
        let old_expiry: u64 = if old_lockup_period is Flex {
            0u64
        } else {
            old_lockup_period.spec_end_timestamp(deposit_start_ts)->Ok_0
        };
        {
            if now < old_expiry {
                if base_amount * old_lockup_period.spec_multiplier() > u64::MAX {
                    Err(TrzRewardsError::MathOverflow)
                } else {
                    let old_weighted = (base_amount * old_lockup_period.spec_multiplier()) as u64;
                    if old_weighted < base_amount {
                        Err(TrzRewardsError::MathOverflow)
                    } else {
                        let wdiff = (old_weighted - base_amount) as u64;
                        match spec_sub_at(m1.weighted_stake_diffs, old_expiry, wdiff) {
                            Err(e) => Err(e),
                            Ok(md2) => {
                                if m1.share < old_weighted {
                                    Err(TrzRewardsError::MathOverflow)
                                } else if p.total_share < old_weighted {
                                    Err(TrzRewardsError::MathOverflow)
                                } else {
                                    Ok(
                                        (
                                            (PoolView {
                                                total_share: (p.total_share - old_weighted) as u64,
                                                ..p
                                            }),
                                            (MiningView {
                                                share: (m1.share - old_weighted) as u64,
                                                weighted_stake_diffs: md2,
                                                ..m1
                                            }),
                                        ),
                                    )
                                }
                            },
                        }
                    }
                }
            } else {
                if m1.share < base_amount {
                    Err(TrzRewardsError::MathOverflow)
                } else if p.total_share < base_amount {
                    Err(TrzRewardsError::MathOverflow)
                } else {
                    Ok(
                        (
                            (PoolView { total_share: (p.total_share - base_amount) as u64, ..p }),
                            (MiningView { share: (m1.share - base_amount) as u64, ..m1 }),
                        ),
                    )
                }
            }
        }
    }
}

/// Extending a stake: the position is settled, the still-outstanding part
/// of the old lockup is unwound, and the base plus additional amount is
/// deposited afresh under the new lockup.
pub open spec fn spec_extend(
    p: PoolView,
    m: MiningView,
    old_lockup_period: LockupPeriod,
    new_lockup_period: LockupPeriod,
    deposit_start_ts: u64,
    base_amount: u64,
    additional_amount: u64,
    now: u64,
) -> Result<(PoolView, MiningView), TrzRewardsError> {
    match spec_refresh(m, p.cumulative_index, now) {
        Err(e) => Err(e),
        Ok(m1) => match spec_extend_unwind(
            p,
            m1,
            old_lockup_period,
            deposit_start_ts,
            base_amount,
            now,
        ) {
            Err(e) => Err(e),
            Ok((p2, m2)) => {
                if base_amount + additional_amount > u64::MAX {
                    Err(TrzRewardsError::MathOverflow)
                } else {
                    spec_deposit(
                        p2,
                        m2,
                        (base_amount + additional_amount) as u64,
                        new_lockup_period,
                        now,
                    )
                }
            },
        },
    }
}

/// Extending a stake whose earning power a distinct delegate hosts: after
/// the unwind, the base amount leaves the delegate's hosted stake and the
/// pool's total, the delegate is settled, and the fresh deposit is made
/// with the delegate hosting the restaked amount.
pub open spec fn spec_extend_delegated(
    p: PoolView,
    m: MiningView,
    d: MiningView,
    old_lockup_period: LockupPeriod,
    new_lockup_period: LockupPeriod,
    deposit_start_ts: u64,
    base_amount: u64,
    additional_amount: u64,
    now: u64,
) -> Result<(PoolView, MiningView, MiningView), TrzRewardsError> {
    match spec_refresh(m, p.cumulative_index, now) {
        Err(e) => Err(e),
        Ok(m1) => match spec_extend_unwind(
            p,
            m1,
            old_lockup_period,
            deposit_start_ts,
            base_amount,
            now,
        ) {
            Err(e) => Err(e),
            Ok((p2, m2)) => {
                if base_amount + additional_amount > u64::MAX {
                    Err(TrzRewardsError::MathOverflow)
                } else {
                    if d.stake_from_others < base_amount {
                        Err(TrzRewardsError::MathOverflow)
                    } else if p2.total_share < base_amount {
                        Err(TrzRewardsError::MathOverflow)
                    } else {
                        let d1 = MiningView {
                            stake_from_others: (d.stake_from_others - base_amount) as u64,
                            ..d
                        };
                        match spec_refresh(d1, p2.cumulative_index, now) {
                            Err(e) => Err(e),
                            Ok(d2) => spec_deposit_delegated(
                                PoolView { total_share: (p2.total_share - base_amount) as u64, ..p2 },
                                m2,
                                d2,
                                (base_amount + additional_amount) as u64,
                                new_lockup_period,
                                now,
                            ),
                        }
                    }
                }
            },
        },
    }
}

impl RewardPool {
    /// Well-formed pool: both timelines sorted, at their fixed capacities.
    pub open spec fn wf(&self) -> bool {
        &&& tl_sorted(self.weighted_stake_diffs@)
        &&& self.weighted_stake_diffs.capacity == POOL_MODIFIERS_TREE_CAPACITY
        &&& tl_sorted(self.cumulative_index@)
        &&& self.cumulative_index.capacity == INDEX_HISTORY_MAX_SIZE
    }

    /// Fresh pool with no stake, no funds and empty timelines.
    pub fn initialize() -> (r: RewardPool)
        ensures
            r.wf(),
            r@ == (PoolView {
                index_with_precision: 0,
                total_share: 0,
                distribution_ends_at: 0,
                tokens_available_for_distribution: 0,
                weighted_stake_diffs: Seq::<(u64, u64)>::empty(),
                cumulative_index: Seq::<(u64, u128)>::empty(),
            }),
    {
        let r = RewardPool {
            index_with_precision: 0,
            total_share: 0,
            distribution_ends_at: 0,
            tokens_available_for_distribution: 0,
            weighted_stake_diffs: OrderedTimeline::new(POOL_MODIFIERS_TREE_CAPACITY),
            cumulative_index: OrderedTimeline::new(INDEX_HISTORY_MAX_SIZE),
        };
        proof {
            assert(r.weighted_stake_diffs@ =~= Seq::<(u64, u64)>::empty());
            assert(r.cumulative_index@ =~= Seq::<(u64, u128)>::empty());
        }
        r
    }

    /// Stages the pool-side consumption of due decays without committing
    /// it: the reduced total share and the number of leading schedule
    /// entries that the consumption removes.
    #[verifier::loop_isolation(false)]
    fn pool_consume_calc(&self, beginning_of_the_day: u64, total_share: u64) -> (r: Result<
        (u64, usize),
        TrzRewardsError,
    >)
        ensures
            match spec_pool_consume(self@.weighted_stake_diffs, beginning_of_the_day,
                total_share) {
                Ok(t) => r is Ok && r->Ok_0.0 == t && r->Ok_0.1 as int == tl_prefix_le(
                    self@.weighted_stake_diffs,
                    beginning_of_the_day,
                ) && r->Ok_0.1 <= self@.weighted_stake_diffs.len(),
                Err(e) => r == Err::<(u64, usize), TrzRewardsError>(e),
            },
    {
        let ghost diffs0 = self.weighted_stake_diffs@;
        let mut total: u64 = total_share;
        let n = self.weighted_stake_diffs.len();
        let mut i: usize = 0;
        proof {
            assert(diffs0.skip(0) =~= diffs0);
        }
        while i < n && self.weighted_stake_diffs.key_at(i) <= beginning_of_the_day
            invariant
                0 <= i <= n,
                forall|m: int| 0 <= m < i ==> diffs0[m].0 <= beginning_of_the_day,
                spec_pool_consume(diffs0, beginning_of_the_day, total_share) == spec_pool_consume(
                    diffs0.skip(i as int),
                    beginning_of_the_day,
                    total,
                ),
            decreases n - i,
        {
            let v = self.weighted_stake_diffs.value_at(i);
            proof {
                assert(diffs0.skip(i as int)[0] == diffs0[i as int]);
                assert(diffs0.skip(i as int).drop_first() =~= diffs0.skip(i as int + 1));
            }
            total = match total.checked_sub(v) {
                Some(t) => t,
                None => {
                    return Err(TrzRewardsError::MathOverflow);
                },
            };
            i = i + 1;
        }
        proof {
            crate::state::mining::lemma_prefix_le_at(diffs0, beginning_of_the_day, i as int);
            if i < n {
                assert(diffs0.skip(i as int)[0] == diffs0[i as int]);
            } else {
                assert(diffs0.skip(i as int) =~= Seq::<(u64, u64)>::empty());
            }
        }
        Ok((total, i))
    }

    /// Consumes every scheduled decay with a day at most
    /// `beginning_of_the_day`, subtracting each from the given total share;
    /// on an error nothing is changed.
    pub fn consume_old_modifiers(
        &mut self,
        beginning_of_the_day: u64,
        total_share: u64,
    ) -> (r: Result<u64, TrzRewardsError>)
        requires
            old(self).wf(),
        ensures
            final(self).wf(),
            match spec_pool_consume(old(self)@.weighted_stake_diffs, beginning_of_the_day,
                total_share) {
                Ok(t) => r == Ok::<u64, TrzRewardsError>(t) && final(self)@ == (PoolView {
                    weighted_stake_diffs: old(self)@.weighted_stake_diffs.skip(
                        tl_prefix_le(old(self)@.weighted_stake_diffs, beginning_of_the_day),
                    ),
                    ..old(self)@
                }),
                Err(e) => r == Err::<u64, TrzRewardsError>(e) && final(self)@ == old(self)@,
            },
    {
        let (total, consumed) = match self.pool_consume_calc(beginning_of_the_day, total_share) {
            Ok(t) => t,
            Err(e) => {
                return Err(e);
            },
        };
        let ghost diffs0 = self.weighted_stake_diffs@;
        self.weighted_stake_diffs.remove_prefix(consumed);
        proof {
            lemma_skip_sorted(diffs0, consumed as int);
        }
        Ok(total)
    }

    /// Recalculates the cumulative index for the given rewards and total
    /// share and records it in the history under `date_to_process`.
    pub fn update_index(
        cumulative_index: &mut OrderedTimeline<u128>,
        index_with_precision: &mut u128,
        rewards: u64,
        total_share: u64,
        date_to_process: u64,
    ) -> (r: Result<(), TrzRewardsError>)
        requires
            tl_sorted(old(cumulative_index)@),
        ensures
            tl_sorted(final(cumulative_index)@),
            final(cumulative_index).capacity == old(cumulative_index).capacity,
            match spec_pool_update_index(old(cumulative_index)@, *old(index_with_precision),
                rewards, total_share, date_to_process, old(cumulative_index).capacity as int) {
                Ok((h2, ix2)) => r is Ok && final(cumulative_index)@ == h2
                    && *final(index_with_precision) == ix2,
                Err(e) => r == Err::<(), TrzRewardsError>(e)
                    && final(cumulative_index)@ == old(cumulative_index)@
                    && *final(index_with_precision) == *old(index_with_precision),
            },
    {
        let scaled = match PRECISION.checked_mul(rewards as u128) {
            Some(s) => s,
            None => {
                return Err(TrzRewardsError::MathOverflow);
            },
        };
        let index = match scaled.checked_div(total_share as u128) {
            Some(v) => v,
            None => {
                return Err(TrzRewardsError::MathOverflow);
            },
        };
        let latest_index = match (*index_with_precision).checked_add(index) {
            Some(v) => v,
            None => {
                return Err(TrzRewardsError::MathOverflow);
            },
        };
        match cumulative_index.set(date_to_process, latest_index) {
            Ok(()) => {
                *index_with_precision = latest_index;
                Ok(())
            },
            Err(e) => Err(e),
        }
    }

    /// Amount that the next distribution should fold into the index: the
    /// remaining balance spread evenly over the remaining whole days of
    /// the window, recomputed from the current state on every call.
    pub fn rewards_to_distribute(&self, now: u64) -> (r: Result<u64, TrzRewardsError>)
        ensures
            r == Ok::<u64, TrzRewardsError>(spec_rewards_to_distribute(self@, now)),
    {
        let remaining: u64 = if self.distribution_ends_at >= now {
            self.distribution_ends_at - now
        } else {
            0
        };
        let distribution_days_left: u64 = remaining / SECONDS_PER_DAY;
        if distribution_days_left == 0 {
            return Ok(self.tokens_available_for_distribution);
        }
        let tokens = self.tokens_available_for_distribution as u128;
        assert(tokens * PRECISION <= u128::MAX) by (nonlinear_arith)
            requires
                tokens <= u64::MAX,
        ;
        let scaled = tokens * PRECISION;
        let per_day = scaled / (distribution_days_left as u128);
        let value = per_day / PRECISION;
        proof {
            lemma_div_nonincreasing(scaled as int, distribution_days_left as int);
            lemma_div_is_ordered(per_day as int, scaled as int, PRECISION as int);
            lemma_div_multiples_vanish(tokens as int, PRECISION as int);
            assert((tokens * PRECISION) as int / (PRECISION as int) == tokens) by {
                assert(tokens * PRECISION == PRECISION * tokens) by (nonlinear_arith);
            }
            assert(value <= tokens);
        }
        Ok(value as u64)
    }

    /// Adds freshly funded rewards to the distribution balance and extends
    /// the window to the day floor of `distribution_ends_at`.
    pub fn fill_vault(
        &mut self,
        rewards: u64,
        distribution_ends_at: u64,
        now: u64,
    ) -> (r: Result<(), TrzRewardsError>)
        requires
            old(self).wf(),
        ensures
            final(self).wf(),
            match spec_fill_vault(old(self)@, rewards, distribution_ends_at, now) {
                Ok(p2) => r is Ok && final(self)@ == p2,
                Err(e) => r == Err::<(), TrzRewardsError>(e) && final(self)@ == old(self)@,
            },
    {
        if rewards == 0 {
            return Err(TrzRewardsError::RewardsMustBeGreaterThanZero);
        }
        let distribution_ends_at_day_start = day_floor(distribution_ends_at);
        let beginning_of_the_curr_day = day_floor(now);
        if distribution_ends_at_day_start < beginning_of_the_curr_day {
            return Err(TrzRewardsError::DistributionInThePast);
        }
        let days_diff = match distribution_ends_at_day_start.checked_sub(
            self.distribution_ends_at,
        ) {
            Some(d) => d,
            None => {
                return Err(TrzRewardsError::MathOverflow);
            },
        };
        let new_tokens = match self.tokens_available_for_distribution.checked_add(rewards) {
            Some(t) => t,
            None => {
                return Err(TrzRewardsError::MathOverflow);
            },
        };
        self.distribution_ends_at = self.distribution_ends_at + days_diff;
        self.tokens_available_for_distribution = new_tokens;
        Ok(())
    }

    /// Folds newly funded rewards into the cumulative index for the day of
    /// `now`.  All due decays are consumed first; if the day already has
    /// an index entry the call is a no-op rather than an error.  The
    /// cumulative index never decreases, whatever the outcome.
    pub fn distribute(&mut self, rewards: u64, now: u64) -> (r: Result<(), TrzRewardsError>)
        requires
            old(self).wf(),
        ensures
            final(self).wf(),
            final(self).index_with_precision >= old(self).index_with_precision,
            final(self).distribution_ends_at == old(self).distribution_ends_at,
            match spec_distribute(old(self)@, rewards, now) {
                Ok(p2) => r is Ok && final(self)@ == p2,
                Err(e) => r == Err::<(), TrzRewardsError>(e) && final(self)@ == old(self)@,
            },
    {
        if self.total_share == 0 {
            return Err(TrzRewardsError::RewardsNoDeposits);
        }
        let beginning_of_the_day = day_floor(now);
        let total = self.total_share;
        let (consumed_total, consumed) = match self.pool_consume_calc(beginning_of_the_day, total) {
            Ok(t) => t,
            Err(e) => {
                return Err(e);
            },
        };
        let ghost diffs0 = self.weighted_stake_diffs@;
        if self.cumulative_index.contains_key(beginning_of_the_day) {
            self.weighted_stake_diffs.remove_prefix(consumed);
            self.total_share = consumed_total;
            proof {
                lemma_skip_sorted(diffs0, consumed as int);
            }
            return Ok(());
        }
        let scaled = match PRECISION.checked_mul(rewards as u128) {
            Some(v) => v,
            None => {
                return Err(TrzRewardsError::MathOverflow);
            },
        };
        let index = match scaled.checked_div(consumed_total as u128) {
            Some(v) => v,
            None => {
                return Err(TrzRewardsError::MathOverflow);
            },
        };
        let latest_index = match self.index_with_precision.checked_add(index) {
            Some(v) => v,
            None => {
                return Err(TrzRewardsError::MathOverflow);
            },
        };
        if self.cumulative_index.len() >= INDEX_HISTORY_MAX_SIZE {
            return Err(TrzRewardsError::CapacityExceeded);
        }
        let new_tokens = match self.tokens_available_for_distribution.checked_sub(rewards) {
            Some(t) => t,
            None => {
                return Err(TrzRewardsError::MathOverflow);
            },
        };
        self.weighted_stake_diffs.remove_prefix(consumed);
        self.total_share = consumed_total;
        match self.cumulative_index.set(beginning_of_the_day, latest_index) {
            Ok(()) => {},
            Err(e) => {
                proof {
                    assert(false);
                }
                return Err(e);
            },
        }
        self.index_with_precision = latest_index;
        self.tokens_available_for_distribution = new_tokens;
        proof {
            lemma_skip_sorted(diffs0, consumed as int);
        }
        Ok(())
    }

    /// Deposits `amount` under `lockup_period` for the given position.
    pub fn deposit(
        &mut self,
        mining: &mut Mining,
        amount: u64,
        lockup_period: LockupPeriod,
        now: u64,
    ) -> (r: Result<(), TrzRewardsError>)
        requires
            old(self).wf(),
            old(mining).wf(),
        ensures
            final(self).wf(),
            final(mining).wf(),
            match spec_deposit(old(self)@, old(mining)@, amount, lockup_period, now) {
                Ok(pm) => r is Ok && final(self)@ == pm.0 && final(mining)@ == pm.1,
                Err(e) => r == Err::<(), TrzRewardsError>(e) && final(self)@ == old(self)@
                    && final(mining)@ == old(mining)@,
            },
    {
        let ghost m0 = mining@;
        let ghost day = spec_day_floor(now);
        let (settled_share, settled_unclaimed, settled_index, consumed) = match settle_calc(
            &mining.weighted_stake_diffs,
            &self.cumulative_index,
            now,
            mining.share,
            mining.stake_from_others,
            mining.unclaimed_rewards,
            mining.index_with_precision,
        ) {
            Ok(t) => t,
            Err(e) => {
                return Err(e);
            },
        };
        let weighted_stake = match amount.checked_mul(lockup_period.multiplier()) {
            Some(w) => w,
            None => {
                return Err(TrzRewardsError::MathOverflow);
            },
        };
        let flex_equivalent = match amount.checked_mul(LockupPeriod::Flex.multiplier()) {
            Some(f) => f,
            None => {
                return Err(TrzRewardsError::MathOverflow);
            },
        };
        let weighted_stake_diff = match weighted_stake.checked_sub(flex_equivalent) {
            Some(d) => d,
            None => {
                return Err(TrzRewardsError::MathOverflow);
            },
        };
        let new_total = match self.total_share.checked_add(weighted_stake) {
            Some(t) => t,
            None => {
                return Err(TrzRewardsError::MathOverflow);
            },
        };
        let new_share = match settled_share.checked_add(weighted_stake) {
            Some(v) => v,
            None => {
                return Err(TrzRewardsError::MathOverflow);
            },
        };
        let stake_expiration_date = match lockup_period.end_timestamp(now) {
            Ok(t) => t,
            Err(e) => {
                return Err(e);
            },
        };
        let pool_lookup = self.weighted_stake_diffs.get(stake_expiration_date);
        let pool_existing: u64 = match pool_lookup {
            Some(v) => v,
            None => 0,
        };
        let pool_merged = match pool_existing.checked_add(weighted_stake_diff) {
            Some(v) => v,
            None => {
                return Err(TrzRewardsError::MathOverflow);
            },
        };
        if pool_lookup.is_none() && self.weighted_stake_diffs.len()
            >= POOL_MODIFIERS_TREE_CAPACITY {
            return Err(TrzRewardsError::CapacityExceeded);
        }
        proof {
            lemma_prefix_le_props(m0.weighted_stake_diffs, day);
            assert(!(lockup_period is Unset));
            assert(lockup_period.spec_days() >= 5);
            assert(stake_expiration_date > day);
            lemma_get_skip_high(m0.weighted_stake_diffs, consumed as int, stake_expiration_date);
        }
        let mining_lookup = mining.weighted_stake_diffs.get(stake_expiration_date);
        let mining_existing: u64 = match mining_lookup {
            Some(v) => v,
            None => 0,
        };
        let mining_merged = match mining_existing.checked_add(weighted_stake_diff) {
            Some(v) => v,
            None => {
                return Err(TrzRewardsError::MathOverflow);
            },
        };
        if mining_lookup.is_none() && mining.weighted_stake_diffs.len() - consumed
            >= MINING_MODIFIERS_TREE_CAPACITY {
            return Err(TrzRewardsError::CapacityExceeded);
        }
        self.total_share = new_total;
        match self.weighted_stake_diffs.set(stake_expiration_date, pool_merged) {
            Ok(()) => {},
            Err(e) => {
                proof {
                    assert(false);
                }
                return Err(e);
            },
        }
        let ghost mdiffs0 = mining.weighted_stake_diffs@;
        mining.weighted_stake_diffs.remove_prefix(consumed);
        proof {
            lemma_skip_sorted(mdiffs0, consumed as int);
        }
        mining.share = new_share;
        mining.unclaimed_rewards = settled_unclaimed;
        mining.index_with_precision = settled_index;
        match mining.weighted_stake_diffs.set(stake_expiration_date, mining_merged) {
            Ok(()) => {},
            Err(e) => {
                proof {
                    assert(false);
                }
                return Err(e);
            },
        }
        Ok(())
    }

    /// Deposits with the earning power of the raw amount hosted by a
    /// distinct delegate position.
    pub fn deposit_delegated(
        &mut self,
        mining: &mut Mining,
        delegate_mining: &mut Mining,
        amount: u64,
        lockup_period: LockupPeriod,
        now: u64,
    ) -> (r: Result<(), TrzRewardsError>)
        requires
            old(self).wf(),
            old(mining).wf(),
            old(delegate_mining).wf(),
        ensures
            final(self).wf(),
            final(mining).wf(),
            final(delegate_mining).wf(),
            match spec_deposit_delegated(old(self)@, old(mining)@, old(delegate_mining)@, amount,
                lockup_period, now) {
                Ok(pmd) => r is Ok && final(self)@ == pmd.0 && final(mining)@ == pmd.1 && final(delegate_mining)@ == pmd.2,
                Err(e) => r == Err::<(), TrzRewardsError>(e) && final(self)@ == old(self)@
                    && final(mining)@ == old(mining)@ && final(delegate_mining)@ == old(
                    delegate_mining,
                )@,
            },
    {
        let ghost m0 = mining@;
        let ghost day = spec_day_floor(now);
        let (settled_share, settled_unclaimed, settled_index, consumed) = match settle_calc(
            &mining.weighted_stake_diffs,
            &self.cumulative_index,
            now,
            mining.share,
            mining.stake_from_others,
            mining.unclaimed_rewards,
            mining.index_with_precision,
        ) {
            Ok(t) => t,
            Err(e) => {
                return Err(e);
            },
        };
        let weighted_stake = match amount.checked_mul(lockup_period.multiplier()) {
            Some(w) => w,
            None => {
                return Err(TrzRewardsError::MathOverflow);
            },
        };
        let flex_equivalent = match amount.checked_mul(LockupPeriod::Flex.multiplier()) {
            Some(f) => f,
            None => {
                return Err(TrzRewardsError::MathOverflow);
            },
        };
        let weighted_stake_diff = match weighted_stake.checked_sub(flex_equivalent) {
            Some(d) => d,
            None => {
                return Err(TrzRewardsError::MathOverflow);
            },
        };
        let new_total = match self.total_share.checked_add(weighted_stake) {
            Some(t) => t,
            None => {
                return Err(TrzRewardsError::MathOverflow);
            },
        };
        let new_share = match settled_share.checked_add(weighted_stake) {
            Some(v) => v,
            None => {
                return Err(TrzRewardsError::MathOverflow);
            },
        };
        let stake_expiration_date = match lockup_period.end_timestamp(now) {
            Ok(t) => t,
            Err(e) => {
                return Err(e);
            },
        };
        let pool_lookup = self.weighted_stake_diffs.get(stake_expiration_date);
        let pool_existing: u64 = match pool_lookup {
            Some(v) => v,
            None => 0,
        };
        let pool_merged = match pool_existing.checked_add(weighted_stake_diff) {
            Some(v) => v,
            None => {
                return Err(TrzRewardsError::MathOverflow);
            },
        };
        if pool_lookup.is_none() && self.weighted_stake_diffs.len()
            >= POOL_MODIFIERS_TREE_CAPACITY {
            return Err(TrzRewardsError::CapacityExceeded);
        }
        proof {
            lemma_prefix_le_props(m0.weighted_stake_diffs, day);
            assert(!(lockup_period is Unset));
            assert(lockup_period.spec_days() >= 5);
            assert(stake_expiration_date > day);
            lemma_get_skip_high(m0.weighted_stake_diffs, consumed as int, stake_expiration_date);
        }
        let mining_lookup = mining.weighted_stake_diffs.get(stake_expiration_date);
        let mining_existing: u64 = match mining_lookup {
            Some(v) => v,
            None => 0,
        };
        let mining_merged = match mining_existing.checked_add(weighted_stake_diff) {
            Some(v) => v,
            None => {
                return Err(TrzRewardsError::MathOverflow);
            },
        };
        if mining_lookup.is_none() && mining.weighted_stake_diffs.len() - consumed
            >= MINING_MODIFIERS_TREE_CAPACITY {
            return Err(TrzRewardsError::CapacityExceeded);
        }
        let delegate_hosted = match delegate_mining.stake_from_others.checked_add(amount) {
            Some(v) => v,
            None => {
                return Err(TrzRewardsError::MathOverflow);
            },
        };
        let final_total = match new_total.checked_add(amount) {
            Some(v) => v,
            None => {
                return Err(TrzRewardsError::MathOverflow);
            },
        };
        let (delegate_share, delegate_unclaimed, delegate_index, consumed_d) = match settle_calc(
            &delegate_mining.weighted_stake_diffs,
            &self.cumulative_index,
            now,
            delegate_mining.share,
            delegate_hosted,
            delegate_mining.unclaimed_rewards,
            delegate_mining.index_with_precision,
        ) {
            Ok(t) => t,
            Err(e) => {
                return Err(e);
            },
        };
        self.total_share = final_total;
        match self.weighted_stake_diffs.set(stake_expiration_date, pool_merged) {
            Ok(()) => {},
            Err(e) => {
                proof {
                    assert(false);
                }
                return Err(e);
            },
        }
        let ghost mdiffs0 = mining.weighted_stake_diffs@;
        mining.weighted_stake_diffs.remove_prefix(consumed);
        proof {
            lemma_skip_sorted(mdiffs0, consumed as int);
        }
        mining.share = new_share;
        mining.unclaimed_rewards = settled_unclaimed;
        mining.index_with_precision = settled_index;
        match mining.weighted_stake_diffs.set(stake_expiration_date, mining_merged) {
            Ok(()) => {},
            Err(e) => {
                proof {
                    assert(false);
                }
                return Err(e);
            },
        }
        let ghost ddiffs0 = delegate_mining.weighted_stake_diffs@;
        delegate_mining.weighted_stake_diffs.remove_prefix(consumed_d);
        delegate_mining.share = delegate_share;
        delegate_mining.stake_from_others = delegate_hosted;
        delegate_mining.unclaimed_rewards = delegate_unclaimed;
        delegate_mining.index_with_precision = delegate_index;
        proof {
            lemma_skip_sorted(ddiffs0, consumed_d as int);
        }
        Ok(())
    }

    /// Withdraws `amount` from the given position.
    pub fn withdraw(
        &mut self,
        mining: &mut Mining,
        amount: u64,
        now: u64,
    ) -> (r: Result<(), TrzRewardsError>)
        requires
            old(self).wf(),
            old(mining).wf(),
        ensures
            final(self).wf(),
            final(mining).wf(),
            match spec_withdraw(old(self)@, old(mining)@, amount, now) {
                Ok(pm) => r is Ok && final(self)@ == pm.0 && final(mining)@ == pm.1,
                Err(e) => r == Err::<(), TrzRewardsError>(e) && final(self)@ == old(self)@
                    && final(mining)@ == old(mining)@,
            },
    {
        let (settled_share, settled_unclaimed, settled_index, consumed_m) = match settle_calc(
            &mining.weighted_stake_diffs,
            &self.cumulative_index,
            now,
            mining.share,
            mining.stake_from_others,
            mining.unclaimed_rewards,
            mining.index_with_precision,
        ) {
            Ok(t) => t,
            Err(e) => {
                return Err(e);
            },
        };
        let reduced_total = match self.total_share.checked_sub(amount) {
            Some(t) => t,
            None => {
                return Err(TrzRewardsError::MathOverflow);
            },
        };
        let new_share = match settled_share.checked_sub(amount) {
            Some(v) => v,
            None => {
                return Err(TrzRewardsError::MathOverflow);
            },
        };
        let beginning_of_the_day = day_floor(now);
        let (pool_total, consumed_p) = match self.pool_consume_calc(
            beginning_of_the_day,
            reduced_total,
        ) {
            Ok(t) => t,
            Err(e) => {
                return Err(e);
            },
        };
        let ghost mdiffs0 = mining.weighted_stake_diffs@;
        let ghost pdiffs0 = self.weighted_stake_diffs@;
        mining.weighted_stake_diffs.remove_prefix(consumed_m);
        mining.share = new_share;
        mining.unclaimed_rewards = settled_unclaimed;
        mining.index_with_precision = settled_index;
        self.weighted_stake_diffs.remove_prefix(consumed_p);
        self.total_share = pool_total;
        proof {
            lemma_skip_sorted(mdiffs0, consumed_m as int);
            lemma_skip_sorted(pdiffs0, consumed_p as int);
        }
        Ok(())
    }

    /// Withdraws with the earning power of the raw amount leaving a
    /// distinct delegate position.
    pub fn withdraw_delegated(
        &mut self,
        mining: &mut Mining,
        delegate_mining: &mut Mining,
        amount: u64,
        now: u64,
    ) -> (r: Result<(), TrzRewardsError>)
        requires
            old(self).wf(),
            old(mining).wf(),
            old(delegate_mining).wf(),
        ensures
            final(self).wf(),
            final(mining).wf(),
            final(delegate_mining).wf(),
            match spec_withdraw_delegated(old(self)@, old(mining)@, old(delegate_mining)@, amount,
                now) {
                Ok(pmd) => r is Ok && final(self)@ == pmd.0 && final(mining)@ == pmd.1 && final(delegate_mining)@ == pmd.2,
                Err(e) => r == Err::<(), TrzRewardsError>(e) && final(self)@ == old(self)@
                    && final(mining)@ == old(mining)@ && final(delegate_mining)@ == old(
                    delegate_mining,
                )@,
            },
    {
        let (settled_share, settled_unclaimed, settled_index, consumed_m) = match settle_calc(
            &mining.weighted_stake_diffs,
            &self.cumulative_index,
            now,
            mining.share,
            mining.stake_from_others,
            mining.unclaimed_rewards,
            mining.index_with_precision,
        ) {
            Ok(t) => t,
            Err(e) => {
                return Err(e);
            },
        };
        let reduced_total = match self.total_share.checked_sub(amount) {
            Some(t) => t,
            None => {
                return Err(TrzRewardsError::MathOverflow);
            },
        };
        let new_share = match settled_share.checked_sub(amount) {
            Some(v) => v,
            None => {
                return Err(TrzRewardsError::MathOverflow);
            },
        };
        let beginning_of_the_day = day_floor(now);
        let (pool_total, consumed_p) = match self.pool_consume_calc(
            beginning_of_the_day,
            reduced_total,
        ) {
            Ok(t) => t,
            Err(e) => {
                return Err(e);
            },
        };
        let delegate_hosted = match delegate_mining.stake_from_others.checked_sub(amount) {
            Some(v) => v,
            None => {
                return Err(TrzRewardsError::MathOverflow);
            },
        };
        let final_total = match pool_total.checked_sub(amount) {
            Some(v) => v,
            None => {
                return Err(TrzRewardsError::MathOverflow);
            },
        };
        let (delegate_share, delegate_unclaimed, delegate_index, consumed_d) = match settle_calc(
            &delegate_mining.weighted_stake_diffs,
            &self.cumulative_index,
            now,
            delegate_mining.share,
            delegate_hosted,
            delegate_mining.unclaimed_rewards,
            delegate_mining.index_with_precision,
        ) {
            Ok(t) => t,
            Err(e) => {
                return Err(e);
            },
        };
        let ghost mdiffs0 = mining.weighted_stake_diffs@;
        let ghost pdiffs0 = self.weighted_stake_diffs@;
        let ghost ddiffs0 = delegate_mining.weighted_stake_diffs@;
        mining.weighted_stake_diffs.remove_prefix(consumed_m);
        mining.share = new_share;
        mining.unclaimed_rewards = settled_unclaimed;
        mining.index_with_precision = settled_index;
        self.weighted_stake_diffs.remove_prefix(consumed_p);
        self.total_share = final_total;
        delegate_mining.weighted_stake_diffs.remove_prefix(consumed_d);
        delegate_mining.share = delegate_share;
        delegate_mining.stake_from_others = delegate_hosted;
        delegate_mining.unclaimed_rewards = delegate_unclaimed;
        delegate_mining.index_with_precision = delegate_index;
        proof {
            lemma_skip_sorted(mdiffs0, consumed_m as int);
            lemma_skip_sorted(pdiffs0, consumed_p as int);
            lemma_skip_sorted(ddiffs0, consumed_d as int);
        }
        Ok(())
    }

    /// Slashes a position: withdraws the weighted amount and, when the
    /// slashed lockup is still scheduled, reduces the decay recorded at
    /// its expiry day in both the position's and the pool's schedule.
    pub fn slash(
        &mut self,
        mining: &mut Mining,
        slash_amount_in_native: u64,
        slash_amount_multiplied_by_period: u64,
        stake_expiration_date: Option<u64>,
        now: u64,
    ) -> (r: Result<(), TrzRewardsError>)
        requires
            old(self).wf(),
            old(mining).wf(),
        ensures
            final(self).wf(),
            final(mining).wf(),
            match spec_slash(old(self)@, old(mining)@, slash_amount_in_native,
                slash_amount_multiplied_by_period, stake_expiration_date, now) {
                Ok(pm) => r is Ok && final(self)@ == pm.0 && final(mining)@ == pm.1,
                Err(e) => r == Err::<(), TrzRewardsError>(e) && final(self)@ == old(self)@
                    && final(mining)@ == old(mining)@,
            },
    {
        let (settled_share, settled_unclaimed, settled_index, consumed_m) = match settle_calc(
            &mining.weighted_stake_diffs,
            &self.cumulative_index,
            now,
            mining.share,
            mining.stake_from_others,
            mining.unclaimed_rewards,
            mining.index_with_precision,
        ) {
            Ok(t) => t,
            Err(e) => {
                return Err(e);
            },
        };
        let reduced_total = match self.total_share.checked_sub(slash_amount_multiplied_by_period) {
            Some(t) => t,
            None => {
                return Err(TrzRewardsError::MathOverflow);
            },
        };
        let new_share = match settled_share.checked_sub(slash_amount_multiplied_by_period) {
            Some(v) => v,
            None => {
                return Err(TrzRewardsError::MathOverflow);
            },
        };
        let beginning_of_the_day = day_floor(now);
        let (pool_total, consumed_p) = match self.pool_consume_calc(
            beginning_of_the_day,
            reduced_total,
        ) {
            Ok(t) => t,
            Err(e) => {
                return Err(e);
            },
        };
        let ghost mdiffs0 = mining.weighted_stake_diffs@;
        let ghost pdiffs0 = self.weighted_stake_diffs@;
        if let Some(expiry) = stake_expiration_date {
            let beginning_of_the_stake_expiration_date = day_floor(expiry);
            let diff_by_expiration_date = match slash_amount_multiplied_by_period.checked_sub(
                slash_amount_in_native,
            ) {
                Some(d) => d,
                None => {
                    return Err(TrzRewardsError::MathOverflow);
                },
            };
            let held_by_position = match mining.weighted_stake_diffs.get_from(
                consumed_m,
                beginning_of_the_stake_expiration_date,
            ) {
                Some(v) => v,
                None => {
                    return Err(TrzRewardsError::NoWeightedStakeModifiersAtADate);
                },
            };
            let position_value = match held_by_position.checked_sub(diff_by_expiration_date) {
                Some(v) => v,
                None => {
                    return Err(TrzRewardsError::MathOverflow);
                },
            };
            let held_by_pool = match self.weighted_stake_diffs.get_from(
                consumed_p,
                beginning_of_the_stake_expiration_date,
            ) {
                Some(v) => v,
                None => {
                    return Err(TrzRewardsError::NoWeightedStakeModifiersAtADate);
                },
            };
            let pool_value = match held_by_pool.checked_sub(diff_by_expiration_date) {
                Some(v) => v,
                None => {
                    return Err(TrzRewardsError::MathOverflow);
                },
            };
            mining.weighted_stake_diffs.remove_prefix(consumed_m);
            proof {
                lemma_skip_sorted(mdiffs0, consumed_m as int);
            }
            mining.share = new_share;
            mining.unclaimed_rewards = settled_unclaimed;
            mining.index_with_precision = settled_index;
            match mining.weighted_stake_diffs.set(
                beginning_of_the_stake_expiration_date,
                position_value,
            ) {
                Ok(()) => {},
                Err(e) => {
                    proof {
                        assert(false);
                    }
                    return Err(e);
                },
            }
            self.weighted_stake_diffs.remove_prefix(consumed_p);
            proof {
                lemma_skip_sorted(pdiffs0, consumed_p as int);
            }
            self.total_share = pool_total;
            match self.weighted_stake_diffs.set(
                beginning_of_the_stake_expiration_date,
                pool_value,
            ) {
                Ok(()) => {},
                Err(e) => {
                    proof {
                        assert(false);
                    }
                    return Err(e);
                },
            }
        } else {
            mining.weighted_stake_diffs.remove_prefix(consumed_m);
            mining.share = new_share;
            mining.unclaimed_rewards = settled_unclaimed;
            mining.index_with_precision = settled_index;
            self.weighted_stake_diffs.remove_prefix(consumed_p);
            self.total_share = pool_total;
            proof {
                lemma_skip_sorted(mdiffs0, consumed_m as int);
                lemma_skip_sorted(pdiffs0, consumed_p as int);
            }
        }
        Ok(())
    }

    /// Moves hosted stake from one distinct delegate to another.
    pub fn change_delegate(
        &mut self,
        mining: &mut Mining,
        old_delegate_mining: &mut Mining,
        new_delegate_mining: &mut Mining,
        staked_amount: u64,
        now: u64,
    ) -> (r: Result<(), TrzRewardsError>)
        requires
            old(self).wf(),
            old(mining).wf(),
            old(old_delegate_mining).wf(),
            old(new_delegate_mining).wf(),
        ensures
            final(self).wf(),
            final(mining).wf(),
            final(old_delegate_mining).wf(),
            final(new_delegate_mining).wf(),
            match spec_change_delegate(old(self)@, old(mining)@, old(old_delegate_mining)@,
                old(new_delegate_mining)@, staked_amount, now) {
                Ok(t) => r is Ok && final(self)@ == t.0 && final(mining)@ == t.1 && final(old_delegate_mining)@ == t.2 && final(new_delegate_mining)@ == t.3,
                Err(e) => r == Err::<(), TrzRewardsError>(e) && final(self)@ == old(self)@
                    && final(mining)@ == old(mining)@ && final(old_delegate_mining)@ == old(
                    old_delegate_mining,
                )@ && final(new_delegate_mining)@ == old(new_delegate_mining)@,
            },
    {
        let (position_share, position_unclaimed, position_index, consumed_m) = match settle_calc(
            &mining.weighted_stake_diffs,
            &self.cumulative_index,
            now,
            mining.share,
            mining.stake_from_others,
            mining.unclaimed_rewards,
            mining.index_with_precision,
        ) {
            Ok(t) => t,
            Err(e) => {
                return Err(e);
            },
        };
        let old_hosted = match old_delegate_mining.stake_from_others.checked_sub(staked_amount) {
            Some(v) => v,
            None => {
                return Err(TrzRewardsError::MathOverflow);
            },
        };
        let reduced_total = match self.total_share.checked_sub(staked_amount) {
            Some(t) => t,
            None => {
                return Err(TrzRewardsError::MathOverflow);
            },
        };
        let (old_share, old_unclaimed, old_index, consumed_od) = match settle_calc(
            &old_delegate_mining.weighted_stake_diffs,
            &self.cumulative_index,
            now,
            old_delegate_mining.share,
            old_hosted,
            old_delegate_mining.unclaimed_rewards,
            old_delegate_mining.index_with_precision,
        ) {
            Ok(t) => t,
            Err(e) => {
                return Err(e);
            },
        };
        let new_hosted = match new_delegate_mining.stake_from_others.checked_add(staked_amount) {
            Some(v) => v,
            None => {
                return Err(TrzRewardsError::MathOverflow);
            },
        };
        let restored_total = match reduced_total.checked_add(staked_amount) {
            Some(t) => t,
            None => {
                return Err(TrzRewardsError::MathOverflow);
            },
        };
        let (new_delegate_share, new_delegate_unclaimed, new_delegate_index, consumed_nd) =
            match settle_calc(
            &new_delegate_mining.weighted_stake_diffs,
            &self.cumulative_index,
            now,
            new_delegate_mining.share,
            new_hosted,
            new_delegate_mining.unclaimed_rewards,
            new_delegate_mining.index_with_precision,
        ) {
            Ok(t) => t,
            Err(e) => {
                return Err(e);
            },
        };
        let ghost mdiffs0 = mining.weighted_stake_diffs@;
        mining.weighted_stake_diffs.remove_prefix(consumed_m);
        mining.share = position_share;
        mining.unclaimed_rewards = position_unclaimed;
        mining.index_with_precision = position_index;
        proof {
            lemma_skip_sorted(mdiffs0, consumed_m as int);
        }
        let ghost oddiffs0 = old_delegate_mining.weighted_stake_diffs@;
        old_delegate_mining.weighted_stake_diffs.remove_prefix(consumed_od);
        old_delegate_mining.share = old_share;
        old_delegate_mining.stake_from_others = old_hosted;
        old_delegate_mining.unclaimed_rewards = old_unclaimed;
        old_delegate_mining.index_with_precision = old_index;
        let ghost nddiffs0 = new_delegate_mining.weighted_stake_diffs@;
        new_delegate_mining.weighted_stake_diffs.remove_prefix(consumed_nd);
        new_delegate_mining.share = new_delegate_share;
        new_delegate_mining.stake_from_others = new_hosted;
        new_delegate_mining.unclaimed_rewards = new_delegate_unclaimed;
        new_delegate_mining.index_with_precision = new_delegate_index;
        self.total_share = restored_total;
        proof {
            lemma_skip_sorted(oddiffs0, consumed_od as int);
            lemma_skip_sorted(nddiffs0, consumed_nd as int);
        }
        Ok(())
    }

    /// Delegates previously self-hosted stake to a distinct delegate.
    pub fn change_delegate_from_self(
        &mut self,
        mining: &mut Mining,
        new_delegate_mining: &mut Mining,
        staked_amount: u64,
        now: u64,
    ) -> (r: Result<(), TrzRewardsError>)
        requires
            old(self).wf(),
            old(mining).wf(),
            old(new_delegate_mining).wf(),
        ensures
            final(self).wf(),
            final(mining).wf(),
            final(new_delegate_mining).wf(),
            match spec_change_delegate_from_self(old(self)@, old(mining)@,
                old(new_delegate_mining)@, staked_amount, now) {
                Ok(t) => r is Ok && final(self)@ == t.0 && final(mining)@ == t.1 && final(new_delegate_mining)@ == t.2,
                Err(e) => r == Err::<(), TrzRewardsError>(e) && final(self)@ == old(self)@
                    && final(mining)@ == old(mining)@ && final(new_delegate_mining)@ == old(
                    new_delegate_mining,
                )@,
            },
    {
        let (position_share, position_unclaimed, position_index, consumed_m) = match settle_calc(
            &mining.weighted_stake_diffs,
            &self.cumulative_index,
            now,
            mining.share,
            mining.stake_from_others,
            mining.unclaimed_rewards,
            mining.index_with_precision,
        ) {
            Ok(t) => t,
            Err(e) => {
                return Err(e);
            },
        };
        let new_hosted = match new_delegate_mining.stake_from_others.checked_add(staked_amount) {
            Some(v) => v,
            None => {
                return Err(TrzRewardsError::MathOverflow);
            },
        };
        let raised_total = match self.total_share.checked_add(staked_amount) {
            Some(t) => t,
            None => {
                return Err(TrzRewardsError::MathOverflow);
            },
        };
        let (new_delegate_share, new_delegate_unclaimed, new_delegate_index, consumed_nd) =
            match settle_calc(
            &new_delegate_mining.weighted_stake_diffs,
            &self.cumulative_index,
            now,
            new_delegate_mining.share,
            new_hosted,
            new_delegate_mining.unclaimed_rewards,
            new_delegate_mining.index_with_precision,
        ) {
            Ok(t) => t,
            Err(e) => {
                return Err(e);
            },
        };
        let ghost mdiffs0 = mining.weighted_stake_diffs@;
        mining.weighted_stake_diffs.remove_prefix(consumed_m);
        mining.share = position_share;
        mining.unclaimed_rewards = position_unclaimed;
        mining.index_with_precision = position_index;
        proof {
            lemma_skip_sorted(mdiffs0, consumed_m as int);
        }
        let ghost nddiffs0 = new_delegate_mining.weighted_stake_diffs@;
        new_delegate_mining.weighted_stake_diffs.remove_prefix(consumed_nd);
        new_delegate_mining.share = new_delegate_share;
        new_delegate_mining.stake_from_others = new_hosted;
        new_delegate_mining.unclaimed_rewards = new_delegate_unclaimed;
        new_delegate_mining.index_with_precision = new_delegate_index;
        self.total_share = raised_total;
        proof {
            lemma_skip_sorted(nddiffs0, consumed_nd as int);
        }
        Ok(())
    }

    /// Takes hosted stake back from a distinct delegate to the position
    /// itself.
    pub fn change_delegate_to_self(
        &mut self,
        mining: &mut Mining,
        old_delegate_mining: &mut Mining,
        staked_amount: u64,
        now: u64,
    ) -> (r: Result<(), TrzRewardsError>)
        requires
            old(self).wf(),
            old(mining).wf(),
            old(old_delegate_mining).wf(),
        ensures
            final(self).wf(),
            final(mining).wf(),
            final(old_delegate_mining).wf(),
            match spec_change_delegate_to_self(old(self)@, old(mining)@,
                old(old_delegate_mining)@, staked_amount, now) {
                Ok(t) => r is Ok && final(self)@ == t.0 && final(mining)@ == t.1 && final(old_delegate_mining)@ == t.2,
                Err(e) => r == Err::<(), TrzRewardsError>(e) && final(self)@ == old(self)@
                    && final(mining)@ == old(mining)@ && final(old_delegate_mining)@ == old(
                    old_delegate_mining,
                )@,
            },
    {
        let (position_share, position_unclaimed, position_index, consumed_m) = match settle_calc(
            &mining.weighted_stake_diffs,
            &self.cumulative_index,
            now,
            mining.share,
            mining.stake_from_others,
            mining.unclaimed_rewards,
            mining.index_with_precision,
        ) {
            Ok(t) => t,
            Err(e) => {
                return Err(e);
            },
        };
        let old_hosted = match old_delegate_mining.stake_from_others.checked_sub(staked_amount) {
            Some(v) => v,
            None => {
                return Err(TrzRewardsError::MathOverflow);
            },
        };
        let reduced_total = match self.total_share.checked_sub(staked_amount) {
            Some(t) => t,
            None => {
                return Err(TrzRewardsError::MathOverflow);
            },
        };
        let (old_share, old_unclaimed, old_index, consumed_od) = match settle_calc(
            &old_delegate_mining.weighted_stake_diffs,
            &self.cumulative_index,
            now,
            old_delegate_mining.share,
            old_hosted,
            old_delegate_mining.unclaimed_rewards,
            old_delegate_mining.index_with_precision,
        ) {
            Ok(t) => t,
            Err(e) => {
                return Err(e);
            },
        };
        let ghost mdiffs0 = mining.weighted_stake_diffs@;
        mining.weighted_stake_diffs.remove_prefix(consumed_m);
        mining.share = position_share;
        mining.unclaimed_rewards = position_unclaimed;
        mining.index_with_precision = position_index;
        proof {
            lemma_skip_sorted(mdiffs0, consumed_m as int);
        }
        let ghost oddiffs0 = old_delegate_mining.weighted_stake_diffs@;
        old_delegate_mining.weighted_stake_diffs.remove_prefix(consumed_od);
        old_delegate_mining.share = old_share;
        old_delegate_mining.stake_from_others = old_hosted;
        old_delegate_mining.unclaimed_rewards = old_unclaimed;
        old_delegate_mining.index_with_precision = old_index;
        self.total_share = reduced_total;
        proof {
            lemma_skip_sorted(oddiffs0, consumed_od as int);
        }
        Ok(())
    }

    /// Extends a stake: unwinds the old lockup's outstanding part and
    /// deposits the base plus additional amount afresh under the new
    /// lockup, restarting from the current day.  On an error nothing is
    /// changed.
    #[verifier::rlimit(100)]
    #[verifier::spinoff_prover]
    pub fn extend(
        &mut self,
        mining: &mut Mining,
        old_lockup_period: LockupPeriod,
        new_lockup_period: LockupPeriod,
        deposit_start_ts: u64,
        base_amount: u64,
        additional_amount: u64,
        now: u64,
    ) -> (r: Result<(), TrzRewardsError>)
        requires
            old(self).wf(),
            old(mining).wf(),
        ensures
            final(self).wf(),
            final(mining).wf(),
            match spec_extend(old(self)@, old(mining)@, old_lockup_period, new_lockup_period,
                deposit_start_ts, base_amount, additional_amount, now) {
                Ok(pm) => r is Ok && final(self)@ == pm.0 && final(mining)@ == pm.1,
                Err(e) => r == Err::<(), TrzRewardsError>(e) && final(self)@ == old(self)@
                    && final(mining)@ == old(mining)@,
            },
    {
        let ghost m0 = mining@;
        let ghost hist = self.cumulative_index@;
        let ghost day = spec_day_floor(now);
        let (settled_share, settled_unclaimed, settled_index, consumed) = match settle_calc(
            &mining.weighted_stake_diffs,
            &self.cumulative_index,
            now,
            mining.share,
            mining.stake_from_others,
            mining.unclaimed_rewards,
            mining.index_with_precision,
        ) {
            Ok(t) => t,
            Err(e) => {
                return Err(e);
            },
        };
        let deposit_old_expiration_ts: u64 = match old_lockup_period {
            LockupPeriod::Flex => 0,
            _ => match old_lockup_period.end_timestamp(deposit_start_ts) {
                Ok(t) => t,
                Err(e) => {
                    return Err(e);
                },
            },
        };
        let curr_part_of_weighted_stake_for_flex = match base_amount.checked_mul(
            LockupPeriod::Flex.multiplier(),
        ) {
            Some(f) => f,
            None => {
                return Err(TrzRewardsError::MathOverflow);
            },
        };
        proof {
            assert(curr_part_of_weighted_stake_for_flex == base_amount);
            assert(!(old_lockup_period is Flex) ==> Ok::<u64, TrzRewardsError>(
                deposit_old_expiration_ts,
            ) == old_lockup_period.spec_end_timestamp(deposit_start_ts));
            assert(old_lockup_period is Flex ==> deposit_old_expiration_ts == 0);
        }
        let is_active = now < deposit_old_expiration_ts;
        let (unwound_share, unwound_total, old_entry_value): (u64, u64, u64) = if is_active {
            let curr_part_of_weighted_stake = match base_amount.checked_mul(
                old_lockup_period.multiplier(),
            ) {
                Some(w) => w,
                None => {
                    return Err(TrzRewardsError::MathOverflow);
                },
            };
            let weighted_stake_diff = match curr_part_of_weighted_stake.checked_sub(
                curr_part_of_weighted_stake_for_flex,
            ) {
                Some(d) => d,
                None => {
                    return Err(TrzRewardsError::MathOverflow);
                },
            };
            let held = match mining.weighted_stake_diffs.get_from(
                consumed,
                deposit_old_expiration_ts,
            ) {
                Some(v) => v,
                None => {
                    return Err(TrzRewardsError::NoWeightedStakeModifiersAtADate);
                },
            };
            let held_reduced = match held.checked_sub(weighted_stake_diff) {
                Some(v) => v,
                None => {
                    return Err(TrzRewardsError::MathOverflow);
                },
            };
            let us = match settled_share.checked_sub(curr_part_of_weighted_stake) {
                Some(v) => v,
                None => {
                    return Err(TrzRewardsError::MathOverflow);
                },
            };
            let ut = match self.total_share.checked_sub(curr_part_of_weighted_stake) {
                Some(v) => v,
                None => {
                    return Err(TrzRewardsError::MathOverflow);
                },
            };
            (us, ut, held_reduced)
        } else {
            let us = match settled_share.checked_sub(curr_part_of_weighted_stake_for_flex) {
                Some(v) => v,
                None => {
                    return Err(TrzRewardsError::MathOverflow);
                },
            };
            let ut = match self.total_share.checked_sub(curr_part_of_weighted_stake_for_flex) {
                Some(v) => v,
                None => {
                    return Err(TrzRewardsError::MathOverflow);
                },
            };
            (us, ut, 0)
        };
        let amount_to_restake = match base_amount.checked_add(additional_amount) {
            Some(a) => a,
            None => {
                return Err(TrzRewardsError::MathOverflow);
            },
        };
        let ghost m1 = spec_refresh(m0, hist, now)->Ok_0;
        let ghost m2diffs = if is_active {
            crate::state::timeline::tl_upsert(
                m0.weighted_stake_diffs.skip(consumed as int),
                deposit_old_expiration_ts,
                old_entry_value,
            )
        } else {
            m0.weighted_stake_diffs.skip(consumed as int)
        };
        let ghost m2 = MiningView {
            index_with_precision: settled_index,
            share: unwound_share,
            unclaimed_rewards: settled_unclaimed,
            stake_from_others: mining.stake_from_others,
            weighted_stake_diffs: m2diffs,
        };
        proof {
            assert(m1.share == settled_share && m1.unclaimed_rewards == settled_unclaimed
                && m1.index_with_precision == settled_index);
            assert(m1.weighted_stake_diffs == m0.weighted_stake_diffs.skip(consumed as int));
            assert(m1.share + m1.stake_from_others <= u64::MAX);
            assert(m1.index_with_precision == (match tl_floor_strict(hist, now) {
                Some(v) => v,
                None => 0u128,
            }));
            lemma_prefix_le_props(m0.weighted_stake_diffs, day);
            lemma_skip_sorted(m0.weighted_stake_diffs, consumed as int);
            assert forall|i: int|
                0 <= i < m1.weighted_stake_diffs.len() implies (
                #[trigger] m1.weighted_stake_diffs[i]).0 > day by {
                assert(m1.weighted_stake_diffs[i] == m0.weighted_stake_diffs[consumed + i]);
                if consumed < m0.weighted_stake_diffs.len() && consumed + i
                    > consumed as int {
                    assert(m0.weighted_stake_diffs[consumed as int].0
                        < m0.weighted_stake_diffs[consumed + i].0);
                }
            }
            if is_active {
                assert(day <= now);
                crate::state::timeline::lemma_upsert_bounds(
                    m0.weighted_stake_diffs.skip(consumed as int),
                    deposit_old_expiration_ts,
                    old_entry_value,
                );
                assert forall|i: int|
                    0 <= i < m2diffs.len() implies (#[trigger] m2diffs[i]).0 > day by {
                    if m2diffs[i].0 != deposit_old_expiration_ts {
                        let w = choose|w: int|
                            0 <= w < m1.weighted_stake_diffs.len() && m1.weighted_stake_diffs[w]
                                == m2diffs[i];
                    }
                }
                crate::state::timeline::lemma_upsert_sorted(
                    m0.weighted_stake_diffs.skip(consumed as int),
                    deposit_old_expiration_ts,
                    old_entry_value,
                );
                lemma_upsert_len_existing(
                    m0.weighted_stake_diffs.skip(consumed as int),
                    deposit_old_expiration_ts,
                    old_entry_value,
                );
            }
            assert(m2.share + m2.stake_from_others <= u64::MAX);
            lemma_refresh_of_settled_identity(m2, hist, now);
        }
        let weighted_stake = match amount_to_restake.checked_mul(new_lockup_period.multiplier()) {
            Some(w) => w,
            None => {
                return Err(TrzRewardsError::MathOverflow);
            },
        };
        let restake_flex_equivalent = match amount_to_restake.checked_mul(
            LockupPeriod::Flex.multiplier(),
        ) {
            Some(f) => f,
            None => {
                return Err(TrzRewardsError::MathOverflow);
            },
        };
        let restake_stake_diff = match weighted_stake.checked_sub(restake_flex_equivalent) {
            Some(d) => d,
            None => {
                return Err(TrzRewardsError::MathOverflow);
            },
        };
        let new_total = match unwound_total.checked_add(weighted_stake) {
            Some(t) => t,
            None => {
                return Err(TrzRewardsError::MathOverflow);
            },
        };
        let new_share = match unwound_share.checked_add(weighted_stake) {
            Some(v) => v,
            None => {
                return Err(TrzRewardsError::MathOverflow);
            },
        };
        let stake_expiration_date = match new_lockup_period.end_timestamp(now) {
            Ok(t) => t,
            Err(e) => {
                return Err(e);
            },
        };
        let pool_lookup = self.weighted_stake_diffs.get(stake_expiration_date);
        let pool_existing: u64 = match pool_lookup {
            Some(v) => v,
            None => 0,
        };
        let pool_merged = match pool_existing.checked_add(restake_stake_diff) {
            Some(v) => v,
            None => {
                return Err(TrzRewardsError::MathOverflow);
            },
        };
        if pool_lookup.is_none() && self.weighted_stake_diffs.len()
            >= POOL_MODIFIERS_TREE_CAPACITY {
            return Err(TrzRewardsError::CapacityExceeded);
        }
        let mining_lookup: Option<u64> = if is_active && stake_expiration_date
            == deposit_old_expiration_ts {
            proof {
                lemma_upsert_get_key(
                    m0.weighted_stake_diffs.skip(consumed as int),
                    deposit_old_expiration_ts,
                    old_entry_value,
                );
            }
            Some(old_entry_value)
        } else {
            proof {
                if is_active {
                    lemma_upsert_get_other(
                        m0.weighted_stake_diffs.skip(consumed as int),
                        deposit_old_expiration_ts,
                        old_entry_value,
                        stake_expiration_date,
                    );
                }
            }
            mining.weighted_stake_diffs.get_from(consumed, stake_expiration_date)
        };
        let mining_existing: u64 = match mining_lookup {
            Some(v) => v,
            None => 0,
        };
        let mining_merged = match mining_existing.checked_add(restake_stake_diff) {
            Some(v) => v,
            None => {
                return Err(TrzRewardsError::MathOverflow);
            },
        };
        proof {
            assert(m2diffs.len() == m0.weighted_stake_diffs.skip(consumed as int).len());
        }
        if mining_lookup.is_none() && mining.weighted_stake_diffs.len() - consumed
            >= MINING_MODIFIERS_TREE_CAPACITY {
            return Err(TrzRewardsError::CapacityExceeded);
        }
        self.total_share = new_total;
        match self.weighted_stake_diffs.set(stake_expiration_date, pool_merged) {
            Ok(()) => {},
            Err(e) => {
                proof {
                    assert(false);
                }
                return Err(e);
            },
        }
        let ghost mdiffs0 = mining.weighted_stake_diffs@;
        mining.weighted_stake_diffs.remove_prefix(consumed);
        proof {
            lemma_skip_sorted(mdiffs0, consumed as int);
        }
        if is_active {
            match mining.weighted_stake_diffs.set(deposit_old_expiration_ts, old_entry_value) {
                Ok(()) => {},
                Err(e) => {
                    proof {
                        assert(false);
                    }
                    return Err(e);
                },
            }
        }
        mining.share = new_share;
        mining.unclaimed_rewards = settled_unclaimed;
        mining.index_with_precision = settled_index;
        match mining.weighted_stake_diffs.set(stake_expiration_date, mining_merged) {
            Ok(()) => {},
            Err(e) => {
                proof {
                    assert(false);
                }
                return Err(e);
            },
        }
        Ok(())
    }

    /// Extends a stake whose earning power a distinct delegate hosts.  On
    /// an error nothing is changed.
    #[verifier::rlimit(100)]
    #[verifier::spinoff_prover]
    pub fn extend_delegated(
        &mut self,
        mining: &mut Mining,
        delegate_mining: &mut Mining,
        old_lockup_period: LockupPeriod,
        new_lockup_period: LockupPeriod,
        deposit_start_ts: u64,
        base_amount: u64,
        additional_amount: u64,
        now: u64,
    ) -> (r: Result<(), TrzRewardsError>)
        requires
            old(self).wf(),
            old(mining).wf(),
            old(delegate_mining).wf(),
        ensures
            final(self).wf(),
            final(mining).wf(),
            final(delegate_mining).wf(),
            match spec_extend_delegated(old(self)@, old(mining)@, old(delegate_mining)@,
                old_lockup_period, new_lockup_period, deposit_start_ts, base_amount,
                additional_amount, now) {
                Ok(t) => r is Ok && final(self)@ == t.0 && final(mining)@ == t.1 && final(delegate_mining)@ == t.2,
                Err(e) => r == Err::<(), TrzRewardsError>(e) && final(self)@ == old(self)@
                    && final(mining)@ == old(mining)@ && final(delegate_mining)@ == old(
                    delegate_mining,
                )@,
            },
    {
        let ghost m0 = mining@;
        let ghost d0 = delegate_mining@;
        let ghost hist = self.cumulative_index@;
        let ghost day = spec_day_floor(now);
        let (settled_share, settled_unclaimed, settled_index, consumed) = match settle_calc(
            &mining.weighted_stake_diffs,
            &self.cumulative_index,
            now,
            mining.share,
            mining.stake_from_others,
            mining.unclaimed_rewards,
            mining.index_with_precision,
        ) {
            Ok(t) => t,
            Err(e) => {
                return Err(e);
            },
        };
        let deposit_old_expiration_ts: u64 = match old_lockup_period {
            LockupPeriod::Flex => 0,
            _ => match old_lockup_period.end_timestamp(deposit_start_ts) {
                Ok(t) => t,
                Err(e) => {
                    return Err(e);
                },
            },
        };
        let curr_part_of_weighted_stake_for_flex = match base_amount.checked_mul(
            LockupPeriod::Flex.multiplier(),
        ) {
            Some(f) => f,
            None => {
                return Err(TrzRewardsError::MathOverflow);
            },
        };
        proof {
            assert(curr_part_of_weighted_stake_for_flex == base_amount);
            assert(!(old_lockup_period is Flex) ==> Ok::<u64, TrzRewardsError>(
                deposit_old_expiration_ts,
            ) == old_lockup_period.spec_end_timestamp(deposit_start_ts));
            assert(old_lockup_period is Flex ==> deposit_old_expiration_ts == 0);
        }
        let is_active = now < deposit_old_expiration_ts;
        let (unwound_share, unwound_total, old_entry_value): (u64, u64, u64) = if is_active {
            let curr_part_of_weighted_stake = match base_amount.checked_mul(
                old_lockup_period.multiplier(),
            ) {
                Some(w) => w,
                None => {
                    return Err(TrzRewardsError::MathOverflow);
                },
            };
            let weighted_stake_diff = match curr_part_of_weighted_stake.checked_sub(
                curr_part_of_weighted_stake_for_flex,
            ) {
                Some(d) => d,
                None => {
                    return Err(TrzRewardsError::MathOverflow);
                },
            };
            let held = match mining.weighted_stake_diffs.get_from(
                consumed,
                deposit_old_expiration_ts,
            ) {
                Some(v) => v,
                None => {
                    return Err(TrzRewardsError::NoWeightedStakeModifiersAtADate);
                },
            };
            let held_reduced = match held.checked_sub(weighted_stake_diff) {
                Some(v) => v,
                None => {
                    return Err(TrzRewardsError::MathOverflow);
                },
            };
            let us = match settled_share.checked_sub(curr_part_of_weighted_stake) {
                Some(v) => v,
                None => {
                    return Err(TrzRewardsError::MathOverflow);
                },
            };
            let ut = match self.total_share.checked_sub(curr_part_of_weighted_stake) {
                Some(v) => v,
                None => {
                    return Err(TrzRewardsError::MathOverflow);
                },
            };
            (us, ut, held_reduced)
        } else {
            let us = match settled_share.checked_sub(curr_part_of_weighted_stake_for_flex) {
                Some(v) => v,
                None => {
                    return Err(TrzRewardsError::MathOverflow);
                },
            };
            let ut = match self.total_share.checked_sub(curr_part_of_weighted_stake_for_flex) {
                Some(v) => v,
                None => {
                    return Err(TrzRewardsError::MathOverflow);
                },
            };
            (us, ut, 0)
        };
        let amount_to_restake = match base_amount.checked_add(additional_amount) {
            Some(a) => a,
            None => {
                return Err(TrzRewardsError::MathOverflow);
            },
        };
        let delegate_reduced = match delegate_mining.stake_from_others.checked_sub(base_amount) {
            Some(v) => v,
            None => {
                return Err(TrzRewardsError::MathOverflow);
            },
        };
        let delegated_total = match unwound_total.checked_sub(base_amount) {
            Some(v) => v,
            None => {
                return Err(TrzRewardsError::MathOverflow);
            },
        };
        let (delegate_share, delegate_unclaimed, delegate_index, consumed_d) = match settle_calc(
            &delegate_mining.weighted_stake_diffs,
            &self.cumulative_index,
            now,
            delegate_mining.share,
            delegate_reduced,
            delegate_mining.unclaimed_rewards,
            delegate_mining.index_with_precision,
        ) {
            Ok(t) => t,
            Err(e) => {
                return Err(e);
            },
        };
        let ghost m1 = spec_refresh(m0, hist, now)->Ok_0;
        let ghost m2diffs = if is_active {
            crate::state::timeline::tl_upsert(
                m0.weighted_stake_diffs.skip(consumed as int),
                deposit_old_expiration_ts,
                old_entry_value,
            )
        } else {
            m0.weighted_stake_diffs.skip(consumed as int)
        };
        let ghost m2 = MiningView {
            index_with_precision: settled_index,
            share: unwound_share,
            unclaimed_rewards: settled_unclaimed,
            stake_from_others: mining.stake_from_others,
            weighted_stake_diffs: m2diffs,
        };
        proof {
            assert(m1.share == settled_share && m1.unclaimed_rewards == settled_unclaimed
                && m1.index_with_precision == settled_index);
            assert(m1.weighted_stake_diffs == m0.weighted_stake_diffs.skip(consumed as int));
            assert(m1.share + m1.stake_from_others <= u64::MAX);
            assert(m1.index_with_precision == (match tl_floor_strict(hist, now) {
                Some(v) => v,
                None => 0u128,
            }));
            lemma_prefix_le_props(m0.weighted_stake_diffs, day);
            lemma_skip_sorted(m0.weighted_stake_diffs, consumed as int);
            assert forall|i: int|
                0 <= i < m1.weighted_stake_diffs.len() implies (
                #[trigger] m1.weighted_stake_diffs[i]).0 > day by {
                assert(m1.weighted_stake_diffs[i] == m0.weighted_stake_diffs[consumed + i]);
                if consumed < m0.weighted_stake_diffs.len() && consumed + i
                    > consumed as int {
                    assert(m0.weighted_stake_diffs[consumed as int].0
                        < m0.weighted_stake_diffs[consumed + i].0);
                }
            }
            if is_active {
                assert(day <= now);
                crate::state::timeline::lemma_upsert_bounds(
                    m0.weighted_stake_diffs.skip(consumed as int),
                    deposit_old_expiration_ts,
                    old_entry_value,
                );
                assert forall|i: int|
                    0 <= i < m2diffs.len() implies (#[trigger] m2diffs[i]).0 > day by {
                    if m2diffs[i].0 != deposit_old_expiration_ts {
                        let w = choose|w: int|
                            0 <= w < m1.weighted_stake_diffs.len() && m1.weighted_stake_diffs[w]
                                == m2diffs[i];
                    }
                }
                crate::state::timeline::lemma_upsert_sorted(
                    m0.weighted_stake_diffs.skip(consumed as int),
                    deposit_old_expiration_ts,
                    old_entry_value,
                );
                lemma_upsert_len_existing(
                    m0.weighted_stake_diffs.skip(consumed as int),
                    deposit_old_expiration_ts,
                    old_entry_value,
                );
            }
            assert(m2.share + m2.stake_from_others <= u64::MAX);
            lemma_refresh_of_settled_identity(m2, hist, now);
        }
        let weighted_stake = match amount_to_restake.checked_mul(new_lockup_period.multiplier()) {
            Some(w) => w,
            None => {
                return Err(TrzRewardsError::MathOverflow);
            },
        };
        let restake_flex_equivalent = match amount_to_restake.checked_mul(
            LockupPeriod::Flex.multiplier(),
        ) {
            Some(f) => f,
            None => {
                return Err(TrzRewardsError::MathOverflow);
            },
        };
        let restake_stake_diff = match weighted_stake.checked_sub(restake_flex_equivalent) {
            Some(d) => d,
            None => {
                return Err(TrzRewardsError::MathOverflow);
            },
        };
        let new_total = match delegated_total.checked_add(weighted_stake) {
            Some(t) => t,
            None => {
                return Err(TrzRewardsError::MathOverflow);
            },
        };
        let new_share = match unwound_share.checked_add(weighted_stake) {
            Some(v) => v,
            None => {
                return Err(TrzRewardsError::MathOverflow);
            },
        };
        let stake_expiration_date = match new_lockup_period.end_timestamp(now) {
            Ok(t) => t,
            Err(e) => {
                return Err(e);
            },
        };
        let pool_lookup = self.weighted_stake_diffs.get(stake_expiration_date);
        let pool_existing: u64 = match pool_lookup {
            Some(v) => v,
            None => 0,
        };
        let pool_merged = match pool_existing.checked_add(restake_stake_diff) {
            Some(v) => v,
            None => {
                return Err(TrzRewardsError::MathOverflow);
            },
        };
        if pool_lookup.is_none() && self.weighted_stake_diffs.len()
            >= POOL_MODIFIERS_TREE_CAPACITY {
            return Err(TrzRewardsError::CapacityExceeded);
        }
        let mining_lookup: Option<u64> = if is_active && stake_expiration_date
            == deposit_old_expiration_ts {
            proof {
                lemma_upsert_get_key(
                    m0.weighted_stake_diffs.skip(consumed as int),
                    deposit_old_expiration_ts,
                    old_entry_value,
                );
            }
            Some(old_entry_value)
        } else {
            proof {
                if is_active {
                    lemma_upsert_get_other(
                        m0.weighted_stake_diffs.skip(consumed as int),
                        deposit_old_expiration_ts,
                        old_entry_value,
                        stake_expiration_date,
                    );
                }
            }
            mining.weighted_stake_diffs.get_from(consumed, stake_expiration_date)
        };
        let mining_existing: u64 = match mining_lookup {
            Some(v) => v,
            None => 0,
        };
        let mining_merged = match mining_existing.checked_add(restake_stake_diff) {
            Some(v) => v,
            None => {
                return Err(TrzRewardsError::MathOverflow);
            },
        };
        proof {
            assert(m2diffs.len() == m0.weighted_stake_diffs.skip(consumed as int).len());
        }
        if mining_lookup.is_none() && mining.weighted_stake_diffs.len() - consumed
            >= MINING_MODIFIERS_TREE_CAPACITY {
            return Err(TrzRewardsError::CapacityExceeded);
        }
        let delegate_hosted = match delegate_reduced.checked_add(amount_to_restake) {
            Some(v) => v,
            None => {
                return Err(TrzRewardsError::MathOverflow);
            },
        };
        let final_total = match new_total.checked_add(amount_to_restake) {
            Some(v) => v,
            None => {
                return Err(TrzRewardsError::MathOverflow);
            },
        };
        match delegate_share.checked_add(delegate_hosted) {
            Some(_) => {},
            None => {
                return Err(TrzRewardsError::MathOverflow);
            },
        }
        let ghost d2 = spec_refresh(
            MiningView {
                index_with_precision: d0.index_with_precision,
                share: d0.share,
                unclaimed_rewards: d0.unclaimed_rewards,
                stake_from_others: delegate_reduced,
                weighted_stake_diffs: d0.weighted_stake_diffs,
            },
            hist,
            now,
        )->Ok_0;
        let ghost d3 = MiningView {
            index_with_precision: delegate_index,
            share: delegate_share,
            unclaimed_rewards: delegate_unclaimed,
            stake_from_others: delegate_hosted,
            weighted_stake_diffs: d0.weighted_stake_diffs.skip(consumed_d as int),
        };
        proof {
            assert(d2.share == delegate_share && d2.unclaimed_rewards == delegate_unclaimed
                && d2.index_with_precision == delegate_index);
            assert(d2.weighted_stake_diffs == d0.weighted_stake_diffs.skip(consumed_d as int));
            assert(d2.index_with_precision == (match tl_floor_strict(hist, now) {
                Some(v) => v,
                None => 0u128,
            }));
            lemma_prefix_le_props(d0.weighted_stake_diffs, day);
            lemma_skip_sorted(d0.weighted_stake_diffs, consumed_d as int);
            assert forall|i: int|
                0 <= i < d3.weighted_stake_diffs.len() implies (
                #[trigger] d3.weighted_stake_diffs[i]).0 > day by {
                assert(d3.weighted_stake_diffs[i] == d0.weighted_stake_diffs[consumed_d + i]);
                if consumed_d < d0.weighted_stake_diffs.len() && consumed_d + i
                    > consumed_d as int {
                    assert(d0.weighted_stake_diffs[consumed_d as int].0
                        < d0.weighted_stake_diffs[consumed_d + i].0);
                }
            }
            lemma_refresh_of_settled_identity(d3, hist, now);
        }
        self.total_share = final_total;
        match self.weighted_stake_diffs.set(stake_expiration_date, pool_merged) {
            Ok(()) => {},
            Err(e) => {
                proof {
                    assert(false);
                }
                return Err(e);
            },
        }
        let ghost mdiffs0 = mining.weighted_stake_diffs@;
        mining.weighted_stake_diffs.remove_prefix(consumed);
        proof {
            lemma_skip_sorted(mdiffs0, consumed as int);
        }
        if is_active {
            match mining.weighted_stake_diffs.set(deposit_old_expiration_ts, old_entry_value) {
                Ok(()) => {},
                Err(e) => {
                    proof {
                        assert(false);
                    }
                    return Err(e);
                },
            }
        }
        mining.share = new_share;
        mining.unclaimed_rewards = settled_unclaimed;
        mining.index_with_precision = settled_index;
        match mining.weighted_stake_diffs.set(stake_expiration_date, mining_merged) {
            Ok(()) => {},
            Err(e) => {
                proof {
                    assert(false);
                }
                return Err(e);
            },
        }
        let ghost ddiffs0 = delegate_mining.weighted_stake_diffs@;
        delegate_mining.weighted_stake_diffs.remove_prefix(consumed_d);
        delegate_mining.share = delegate_share;
        delegate_mining.stake_from_others = delegate_hosted;
        delegate_mining.unclaimed_rewards = delegate_unclaimed;
        delegate_mining.index_with_precision = delegate_index;
        proof {
            lemma_skip_sorted(ddiffs0, consumed_d as int);
        }
        Ok(())
    }
}

} // verus!
