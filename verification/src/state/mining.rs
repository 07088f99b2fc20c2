//! Per-participant stake position and its lazy settlement.

use crate::error::TrzRewardsError;
use crate::state::timeline::{
    lemma_skip_sorted, tl_floor_strict, tl_prefix_le, tl_sorted, OrderedTimeline,
};
use crate::state::{MINING_MODIFIERS_TREE_CAPACITY, PRECISION};
use crate::utils::{day_floor, spec_day_floor};
use vstd::prelude::*;

verus! {

/// Mathematical view of a stake position.
#[verifier::ext_equal]
pub ghost struct MiningView {
    /// Cumulative-index watermark up to which rewards were settled.
    pub index_with_precision: u128,
    /// Own active weighted stake.
    pub share: u64,
    /// Rewards accrued and not yet claimed.
    pub unclaimed_rewards: u64,
    /// Delegated-in earning power not owned by this position.
    pub stake_from_others: u64,
    /// Local decay schedule, sorted by day.
    pub weighted_stake_diffs: Seq<(u64, u64)>,
}

/// Per-participant accrual state: own weighted stake, unclaimed rewards,
/// hosted delegated stake, the settlement watermark, and the local decay
/// schedule that mirrors this position's share of the pool's schedule.
#[derive(Debug)]
pub struct Mining {
    /// Cumulative-index watermark up to which rewards were settled.
    pub index_with_precision: u128,
    /// Own active weighted stake on the last settled day.
    pub share: u64,
    /// Rewards accrued and not yet claimed.
    pub unclaimed_rewards: u64,
    /// Sum of stake delegated in by others.
    pub stake_from_others: u64,
    /// Weighted-stake reductions scheduled at lockup expiry days.
    pub weighted_stake_diffs: OrderedTimeline<u64>,
}

impl View for Mining {
    type V = MiningView;

    open spec fn view(&self) -> MiningView {
        MiningView {
            index_with_precision: self.index_with_precision,
            share: self.share,
            unclaimed_rewards: self.unclaimed_rewards,
            stake_from_others: self.stake_from_others,
            weighted_stake_diffs: self.weighted_stake_diffs@,
        }
    }
}

/// Outcome of settling a weight against the cumulative index recorded
/// strictly before `date`: the new unclaimed balance and the advanced
/// watermark, or the error of the checked step that failed.
pub open spec fn spec_update_index(
    hist: Seq<(u64, u128)>,
    date: u64,
    weight: u64,
    unclaimed_rewards: u64,
    index_with_precision: u128,
) -> Result<(u64, u128), TrzRewardsError> {
    let vault_index = match tl_floor_strict(hist, date) {
        Some(v) => v,
        None => 0u128,
    };
    let scaled = (vault_index - index_with_precision) * weight;
    let rewards = scaled / (PRECISION as int);
    if vault_index < index_with_precision {
        Err(TrzRewardsError::MathOverflow)
    } else if scaled > u128::MAX {
        Err(TrzRewardsError::MathOverflow)
    } else if rewards > u64::MAX {
        Err(TrzRewardsError::InvalidPrimitiveTypesConversion)
    } else if unclaimed_rewards + rewards > u64::MAX {
        Err(TrzRewardsError::MathOverflow)
    } else {
        Ok(((unclaimed_rewards + rewards) as u64, vault_index))
    }
}

/// Folds the position's due decays (key at most `day`) in ascending order:
/// each decay day is settled at the weight held before it, then the weight
/// drops by the decayed amount.
pub open spec fn spec_consume_position(
    diffs: Seq<(u64, u64)>,
    hist: Seq<(u64, u128)>,
    day: u64,
    weight: u64,
    unclaimed_rewards: u64,
    index_with_precision: u128,
) -> Result<(u64, u64, u128), TrzRewardsError>
    decreases diffs.len(),
{
    if diffs.len() == 0 || diffs[0].0 > day {
        Ok((weight, unclaimed_rewards, index_with_precision))
    } else {
        match spec_update_index(hist, diffs[0].0, weight, unclaimed_rewards, index_with_precision) {
            Err(e) => Err(e),
            Ok((u2, ix2)) => {
                if weight < diffs[0].1 {
                    Err(TrzRewardsError::MathOverflow)
                } else {
                    spec_consume_position(
                        diffs.drop_first(),
                        hist,
                        day,
                        (weight - diffs[0].1) as u64,
                        u2,
                        ix2,
                    )
                }
            },
        }
    }
}

/// Full settlement of a position at time `now`: all due decays are applied
/// in order, the remaining weight is settled once more at `now` itself, and
/// the consumed schedule entries are dropped.
pub open spec fn spec_refresh(m: MiningView, hist: Seq<(u64, u128)>, now: u64) -> Result<
    MiningView,
    TrzRewardsError,
> {
    let day = spec_day_floor(now);
    if m.share + m.stake_from_others > u64::MAX {
        Err(TrzRewardsError::MathOverflow)
    } else {
        match spec_consume_position(
            m.weighted_stake_diffs,
            hist,
            day,
            (m.share + m.stake_from_others) as u64,
            m.unclaimed_rewards,
            m.index_with_precision,
        ) {
            Err(e) => Err(e),
            Ok((w, u, ix)) => match spec_update_index(hist, now, w, u, ix) {
                Err(e) => Err(e),
                Ok((u2, ix2)) => {
                    if w < m.stake_from_others {
                        Err(TrzRewardsError::MathOverflow)
                    } else {
                        Ok(
                            (MiningView {
                                share: (w - m.stake_from_others) as u64,
                                unclaimed_rewards: u2,
                                index_with_precision: ix2,
                                stake_from_others: m.stake_from_others,
                                weighted_stake_diffs: m.weighted_stake_diffs.skip(
                                    tl_prefix_le(m.weighted_stake_diffs, day),
                                ),
                            }),
                        )
                    }
                },
            },
        }
    }
}

/// Absorbs a share penalty into the decay schedule, walking from the
/// farthest-future entry backward and clamping each entry at zero until the
/// penalty is exhausted.
pub open spec fn spec_absorb(diffs: Seq<(u64, u64)>, remaining: u64) -> Seq<(u64, u64)>
    decreases diffs.len(),
{
    if diffs.len() == 0 {
        diffs
    } else if diffs.last().1 >= remaining {
        diffs.update(diffs.len() - 1, (diffs.last().0, (diffs.last().1 - remaining) as u64))
    } else {
        spec_absorb(diffs.drop_last(), (remaining - diffs.last().1) as u64).push(
            (diffs.last().0, 0u64),
        )
    }
}

/// A local-only penalty on earning power: reduces the position's share and
/// absorbs the same amount into its decay schedule, leaving the pool's
/// total share untouched.
pub open spec fn spec_decrease(m: MiningView, decrease: u64) -> Result<
    MiningView,
    TrzRewardsError,
> {
    if decrease == 0 {
        Ok(m)
    } else if decrease > m.share {
        Err(TrzRewardsError::DecreaseRewardsTooBig)
    } else {
        Ok(
            (MiningView {
                share: (m.share - decrease) as u64,
                weighted_stake_diffs: spec_absorb(m.weighted_stake_diffs, decrease),
                ..m
            }),
        )
    }
}

/// Validation for closing a position after settlement: no hosted
/// delegated stake, no unclaimed rewards and no weighted stake of its own
/// may remain.
pub open spec fn spec_close(m: MiningView, hist: Seq<(u64, u128)>, now: u64) -> Result<
    MiningView,
    TrzRewardsError,
> {
    match spec_refresh(m, hist, now) {
        Err(e) => Err(e),
        Ok(m1) => {
            if m1.stake_from_others > 0 {
                Err(TrzRewardsError::StakeFromOthersMustBeZero)
            } else if m1.unclaimed_rewards != 0 {
                Err(TrzRewardsError::RewardsMustBeClaimed)
            } else if m1.share != 0 {
                Err(TrzRewardsError::StakeMustBeWithdrawn)
            } else {
                Ok(m1)
            }
        },
    }
}

/// A settled position refreshes to itself: when no decay is due at the
/// day of `now` and the watermark already equals the index recorded
/// strictly before `now`, a further refresh at `now` changes nothing.
pub proof fn lemma_refresh_of_settled_identity(m: MiningView, hist: Seq<(u64, u128)>, now: u64)
    requires
        forall|i: int|
            0 <= i < m.weighted_stake_diffs.len() ==> (#[trigger] m.weighted_stake_diffs[i]).0
                > spec_day_floor(now),
        m.share + m.stake_from_others <= u64::MAX,
        m.index_with_precision == (match tl_floor_strict(hist, now) {
            Some(v) => v,
            None => 0u128,
        }),
    ensures
        spec_refresh(m, hist, now) == Ok::<MiningView, TrzRewardsError>(m),
{
    let day = spec_day_floor(now);
    let weight = (m.share + m.stake_from_others) as u64;
    assert(spec_consume_position(
        m.weighted_stake_diffs,
        hist,
        day,
        weight,
        m.unclaimed_rewards,
        m.index_with_precision,
    ) == Ok::<(u64, u64, u128), TrzRewardsError>(
        (weight, m.unclaimed_rewards, m.index_with_precision),
    ));
    let vault = match tl_floor_strict(hist, now) {
        Some(v) => v,
        None => 0u128,
    };
    assert((vault - m.index_with_precision) * weight == 0) by (nonlinear_arith)
        requires
            vault == m.index_with_precision,
    ;
    assert(spec_update_index(hist, now, weight, m.unclaimed_rewards, m.index_with_precision)
        == Ok::<(u64, u128), TrzRewardsError>((m.unclaimed_rewards, m.index_with_precision)));
    assert(tl_prefix_le(m.weighted_stake_diffs, day) == 0);
    assert(m.weighted_stake_diffs.skip(0) =~= m.weighted_stake_diffs);
    assert(spec_refresh(m, hist, now)->Ok_0 =~= m);
}

/// The leading entries with key at most `day` end exactly at the first
/// position whose key exceeds `day`.
pub proof fn lemma_prefix_le_at<V>(s: Seq<(u64, V)>, day: u64, j: int)
    requires
        0 <= j <= s.len(),
        forall|i: int| 0 <= i < j ==> s[i].0 <= day,
        j < s.len() ==> s[j].0 > day,
    ensures
        tl_prefix_le(s, day) == j,
    decreases s.len(),
{
    if s.len() == 0 || j == 0 {
    } else {
        assert(forall|i: int| 0 <= i < j - 1 ==> s.drop_first()[i].0 <= day);
        if j < s.len() {
            assert(s.drop_first()[j - 1] == s[j]);
        }
        lemma_prefix_le_at(s.drop_first(), day, j - 1);
    }
}

/// Settlement step shared by the due-decay loop and the trailing update:
/// computes the new unclaimed balance and watermark for one date.
pub(crate) fn update_index_calc(
    cumulative_index: &OrderedTimeline<u128>,
    date: u64,
    weight: u64,
    unclaimed_rewards: u64,
    index_with_precision: u128,
) -> (r: Result<(u64, u128), TrzRewardsError>)
    ensures
        r == spec_update_index(
            cumulative_index@,
            date,
            weight,
            unclaimed_rewards,
            index_with_precision,
        ),
{
    let vault_index: u128 = match cumulative_index.floor_strict(date) {
        Some(v) => v,
        None => 0,
    };
    let delta = match vault_index.checked_sub(index_with_precision) {
        Some(d) => d,
        None => {
            return Err(TrzRewardsError::MathOverflow);
        },
    };
    let scaled = match delta.checked_mul(weight as u128) {
        Some(s) => s,
        None => {
            return Err(TrzRewardsError::MathOverflow);
        },
    };
    let rewards_wide = scaled / PRECISION;
    if rewards_wide > u64::MAX as u128 {
        return Err(TrzRewardsError::InvalidPrimitiveTypesConversion);
    }
    let rewards = rewards_wide as u64;
    if rewards > 0 {
        match unclaimed_rewards.checked_add(rewards) {
            Some(u) => Ok((u, vault_index)),
            None => Err(TrzRewardsError::MathOverflow),
        }
    } else {
        Ok((unclaimed_rewards, vault_index))
    }
}

impl Mining {
    /// Well-formed position: the decay schedule is sorted and carries the
    /// fixed per-position capacity.
    pub open spec fn wf(&self) -> bool {
        &&& tl_sorted(self.weighted_stake_diffs@)
        &&& self.weighted_stake_diffs.capacity == MINING_MODIFIERS_TREE_CAPACITY
    }

    /// Fresh position with no stake, no rewards and an empty schedule.
    pub fn initialize() -> (r: Mining)
        ensures
            r.wf(),
            r@ == (MiningView {
                index_with_precision: 0,
                share: 0,
                unclaimed_rewards: 0,
                stake_from_others: 0,
                weighted_stake_diffs: Seq::<(u64, u64)>::empty(),
            }),
    {
        let r = Mining {
            index_with_precision: 0,
            share: 0,
            unclaimed_rewards: 0,
            stake_from_others: 0,
            weighted_stake_diffs: OrderedTimeline::new(MINING_MODIFIERS_TREE_CAPACITY),
        };
        proof {
            assert(r.weighted_stake_diffs@ =~= Seq::<(u64, u64)>::empty());
        }
        r
    }

    /// Settles the position at `now` against the pool's index history:
    /// applies every due decay in ascending day order, settles the
    /// remaining weight at `now`, and drops the consumed schedule entries.
    /// On an error nothing is changed.
    pub fn refresh_rewards(
        &mut self,
        cumulative_index: &OrderedTimeline<u128>,
        now: u64,
    ) -> (r: Result<(), TrzRewardsError>)
        requires
            old(self).wf(),
        ensures
            final(self).wf(),
            match spec_refresh(old(self)@, cumulative_index@, now) {
                Ok(v) => r is Ok && final(self)@ == v,
                Err(e) => r == Err::<(), TrzRewardsError>(e) && final(self)@ == old(self)@,
            },
    {
        let (new_share, new_unclaimed, new_index, consumed) = match settle_calc(
            &self.weighted_stake_diffs,
            cumulative_index,
            now,
            self.share,
            self.stake_from_others,
            self.unclaimed_rewards,
            self.index_with_precision,
        ) {
            Ok(t) => t,
            Err(e) => {
                return Err(e);
            },
        };
        let ghost diffs0 = self.weighted_stake_diffs@;
        self.weighted_stake_diffs.remove_prefix(consumed);
        self.share = new_share;
        self.unclaimed_rewards = new_unclaimed;
        self.index_with_precision = new_index;
        proof {
            lemma_skip_sorted(diffs0, consumed as int);
        }
        Ok(())
    }

    /// Settles the position at `now` and validates that it can be closed:
    /// it must hold no weighted stake of its own, host no delegated stake
    /// and hold no unclaimed rewards.  On an error nothing is changed.
    pub fn close(
        &mut self,
        cumulative_index: &OrderedTimeline<u128>,
        now: u64,
    ) -> (r: Result<(), TrzRewardsError>)
        requires
            old(self).wf(),
        ensures
            final(self).wf(),
            match spec_close(old(self)@, cumulative_index@, now) {
                Ok(m1) => r is Ok && final(self)@ == m1,
                Err(e) => r == Err::<(), TrzRewardsError>(e) && final(self)@ == old(self)@,
            },
    {
        let (new_share, new_unclaimed, new_index, consumed) = match settle_calc(
            &self.weighted_stake_diffs,
            cumulative_index,
            now,
            self.share,
            self.stake_from_others,
            self.unclaimed_rewards,
            self.index_with_precision,
        ) {
            Ok(t) => t,
            Err(e) => {
                return Err(e);
            },
        };
        if self.stake_from_others > 0 {
            return Err(TrzRewardsError::StakeFromOthersMustBeZero);
        }
        if new_unclaimed != 0 {
            return Err(TrzRewardsError::RewardsMustBeClaimed);
        }
        if new_share != 0 {
            return Err(TrzRewardsError::StakeMustBeWithdrawn);
        }
        let ghost diffs0 = self.weighted_stake_diffs@;
        self.weighted_stake_diffs.remove_prefix(consumed);
        self.share = new_share;
        self.unclaimed_rewards = new_unclaimed;
        self.index_with_precision = new_index;
        proof {
            lemma_skip_sorted(diffs0, consumed as int);
        }
        Ok(())
    }
}

/// Computes a position's full settlement at `now` without committing it:
/// the new share, unclaimed balance and watermark, and the number of
/// leading schedule entries the settlement consumes.  The mutating
/// operations stage their work with this, so that nothing is written
/// until every checked step of the operation has succeeded.
#[verifier::loop_isolation(false)]
#[verifier::rlimit(60)]
pub(crate) fn settle_calc(
    weighted_stake_diffs: &OrderedTimeline<u64>,
    cumulative_index: &OrderedTimeline<u128>,
    now: u64,
    share: u64,
    stake_from_others: u64,
    unclaimed_rewards: u64,
    index_with_precision: u128,
) -> (r: Result<(u64, u64, u128, usize), TrzRewardsError>)
    ensures
        match spec_refresh(
            (MiningView {
                index_with_precision,
                share,
                unclaimed_rewards,
                stake_from_others,
                weighted_stake_diffs: weighted_stake_diffs@,
            }),
            cumulative_index@,
            now,
        ) {
            Ok(v) => r is Ok && r->Ok_0.0 == v.share && r->Ok_0.1 == v.unclaimed_rewards
                && r->Ok_0.2 == v.index_with_precision && r->Ok_0.3 as int == tl_prefix_le(
                weighted_stake_diffs@,
                spec_day_floor(now),
            ) && r->Ok_0.3 <= weighted_stake_diffs@.len(),
            Err(e) => r == Err::<(u64, u64, u128, usize), TrzRewardsError>(e),
        },
{
    let ghost m0 = MiningView {
        index_with_precision,
        share,
        unclaimed_rewards,
        stake_from_others,
        weighted_stake_diffs: weighted_stake_diffs@,
    };
    let ghost hist = cumulative_index@;
    let day = day_floor(now);
    let mut weight = match share.checked_add(stake_from_others) {
        Some(w) => w,
        None => {
            return Err(TrzRewardsError::MathOverflow);
        },
    };
    let mut unclaimed = unclaimed_rewards;
    let mut idx = index_with_precision;
    let ghost diffs0 = weighted_stake_diffs@;
    let n = weighted_stake_diffs.len();
        let mut i: usize = 0;
        proof {
            assert(diffs0.skip(0) =~= diffs0);
        }
    while i < n && weighted_stake_diffs.key_at(i) <= day
            invariant
                0 <= i <= n,
                forall|m: int| 0 <= m < i ==> diffs0[m].0 <= day,
                spec_consume_position(
                    diffs0,
                    hist,
                    day,
                    (m0.share + m0.stake_from_others) as u64,
                    m0.unclaimed_rewards,
                    m0.index_with_precision,
                ) == spec_consume_position(
                    diffs0.skip(i as int),
                    hist,
                    day,
                    weight,
                    unclaimed,
                    idx,
                ),
            decreases n - i,
        {
        let d = weighted_stake_diffs.key_at(i);
        let v = weighted_stake_diffs.value_at(i);
            proof {
                assert(diffs0.skip(i as int)[0] == diffs0[i as int]);
                assert(diffs0.skip(i as int).drop_first() =~= diffs0.skip(i as int + 1));
            }
            match update_index_calc(cumulative_index, d, weight, unclaimed, idx) {
                Ok((u2, ix2)) => {
                    unclaimed = u2;
                    idx = ix2;
                },
                Err(e) => {
                    return Err(e);
                },
            }
            weight = match weight.checked_sub(v) {
                Some(w) => w,
                None => {
                    return Err(TrzRewardsError::MathOverflow);
                },
            };
            i = i + 1;
        }
        proof {
            lemma_prefix_le_at(diffs0, day, i as int);
            if i < n {
                assert(diffs0.skip(i as int)[0] == diffs0[i as int]);
            } else {
                assert(diffs0.skip(i as int) =~= Seq::<(u64, u64)>::empty());
            }
        }
        match update_index_calc(cumulative_index, now, weight, unclaimed, idx) {
            Ok((u2, ix2)) => {
                unclaimed = u2;
                idx = ix2;
            },
            Err(e) => {
                return Err(e);
            },
        }
    let new_share = match weight.checked_sub(stake_from_others) {
        Some(s) => s,
        None => {
            return Err(TrzRewardsError::MathOverflow);
        },
    };
    Ok((new_share, unclaimed, idx, i))
}

impl Mining {
    /// Zeroes the unclaimed balance and hands the amount out for the caller
    /// to transfer.
    pub fn claim(&mut self) -> (r: u64)
        ensures
            r == old(self).unclaimed_rewards,
            final(self)@ == (MiningView { unclaimed_rewards: 0, ..old(self)@ }),
            final(self).weighted_stake_diffs.capacity == old(self).weighted_stake_diffs.capacity,
    {
        let amount = self.unclaimed_rewards;
        self.unclaimed_rewards = 0;
        amount
    }

    /// Whether the position may be closed: no stake of its own, no hosted
    /// delegated stake, and no unclaimed rewards.
    pub fn is_closable(&self) -> (r: bool)
        ensures
            r == (self.share == 0 && self.stake_from_others == 0 && self.unclaimed_rewards == 0),
    {
        self.share == 0 && self.stake_from_others == 0 && self.unclaimed_rewards == 0
    }

    /// Applies a penalty to the position's earning power: the share drops
    /// by the given amount and the same amount is absorbed by the decay
    /// schedule from the farthest-future entry backward, so that near-term
    /// decays keep their accuracy.  The pool's total share is not touched.
    #[verifier::loop_isolation(false)]
    pub fn decrease_rewards(
        &mut self,
        decreased_weighted_stake_number: u64,
    ) -> (r: Result<(), TrzRewardsError>)
        requires
            old(self).wf(),
        ensures
            final(self).wf(),
            match spec_decrease(old(self)@, decreased_weighted_stake_number) {
                Ok(v) => r is Ok && final(self)@ == v,
                Err(e) => r == Err::<(), TrzRewardsError>(e) && final(self)@ == old(self)@,
            },
    {
        let ghost m0 = self@;
        let ghost diffs0 = self.weighted_stake_diffs@;
        if decreased_weighted_stake_number == 0 {
            return Ok(());
        }
        if decreased_weighted_stake_number > self.share {
            return Err(TrzRewardsError::DecreaseRewardsTooBig);
        }
        self.share = self.share - decreased_weighted_stake_number;
        let mut remaining: u64 = decreased_weighted_stake_number;
        let mut i: usize = self.weighted_stake_diffs.len();
        proof {
            assert(diffs0.take(i as int) =~= diffs0);
            assert(spec_absorb(diffs0, remaining) =~= spec_absorb(
                self.weighted_stake_diffs@.take(i as int),
                remaining,
            ) + self.weighted_stake_diffs@.skip(i as int));
        }
        while i > 0 && self.weighted_stake_diffs.value_at(i - 1) < remaining
            invariant
                0 <= i <= diffs0.len(),
                self.weighted_stake_diffs@.len() == diffs0.len(),
                self.share == m0.share - decreased_weighted_stake_number,
                self.index_with_precision == m0.index_with_precision,
                self.unclaimed_rewards == m0.unclaimed_rewards,
                self.stake_from_others == m0.stake_from_others,
                remaining > 0,
                self.weighted_stake_diffs@.take(i as int) == diffs0.take(i as int),
                forall|k: int|
                    0 <= k < diffs0.len() ==> (#[trigger] self.weighted_stake_diffs@[k]).0
                        == diffs0[k].0,
                spec_absorb(diffs0, decreased_weighted_stake_number) == spec_absorb(
                    self.weighted_stake_diffs@.take(i as int),
                    remaining,
                ) + self.weighted_stake_diffs@.skip(i as int),
                self.weighted_stake_diffs.capacity == old(self).weighted_stake_diffs.capacity,
            decreases i,
        {
            let ghost cur = self.weighted_stake_diffs@;
            let v = self.weighted_stake_diffs.value_at(i - 1);
            let ghost key = cur[i as int - 1].0;
            self.weighted_stake_diffs.set_value_at(i - 1, 0);
            proof {
                let next = self.weighted_stake_diffs@;
                assert(cur.take(i as int).last() == cur[i as int - 1]);
                assert(cur.take(i as int).drop_last() =~= cur.take(i as int - 1));
                assert(next.take(i as int - 1) =~= cur.take(i as int - 1));
                assert(next.take(i as int - 1) =~= diffs0.take(i as int - 1));
                assert(spec_absorb(cur.take(i as int), remaining) == spec_absorb(
                    cur.take(i as int - 1),
                    (remaining - v) as u64,
                ).push((key, 0u64)));
                assert(next.skip(i as int - 1) =~= seq![(key, 0u64)] + cur.skip(i as int));
                assert(spec_absorb(cur.take(i as int - 1), (remaining - v) as u64).push(
                    (key, 0u64),
                ) + cur.skip(i as int) =~= spec_absorb(
                    next.take(i as int - 1),
                    (remaining - v) as u64,
                ) + next.skip(i as int - 1));
            }
            remaining = remaining - v;
            i = i - 1;
        }
        if i > 0 {
            let ghost cur = self.weighted_stake_diffs@;
            let v = self.weighted_stake_diffs.value_at(i - 1);
            let ghost key = cur[i as int - 1].0;
            self.weighted_stake_diffs.set_value_at(i - 1, v - remaining);
            proof {
                let next = self.weighted_stake_diffs@;
                assert(cur.take(i as int).last() == cur[i as int - 1]);
                assert(spec_absorb(cur.take(i as int), remaining) == cur.take(i as int).update(
                    i as int - 1,
                    (key, (v - remaining) as u64),
                ));
                assert(next =~= cur.take(i as int).update(i as int - 1, (key, (v - remaining) as u64))
                    + cur.skip(i as int));
                assert(spec_absorb(diffs0, decreased_weighted_stake_number) =~= next);
            }
        } else {
            proof {
                assert(self.weighted_stake_diffs@.take(0) =~= Seq::<(u64, u64)>::empty());
                assert(self.weighted_stake_diffs@.skip(0) =~= self.weighted_stake_diffs@);
                assert(spec_absorb(diffs0, decreased_weighted_stake_number)
                    =~= self.weighted_stake_diffs@);
            }
        }
        proof {
            assert(tl_sorted(self.weighted_stake_diffs@)) by {
                assert forall|a: int, b: int|
                    0 <= a < b < self.weighted_stake_diffs@.len()
                        implies self.weighted_stake_diffs@[a].0
                        < self.weighted_stake_diffs@[b].0 by {
                    assert(self.weighted_stake_diffs@[a].0 == diffs0[a].0);
                    assert(self.weighted_stake_diffs@[b].0 == diffs0[b].0);
                }
            }
        }
        Ok(())
    }
}

} // verus!
