//! Laws of the accrual engine, stated and proved over the mathematical
//! views of the pool and the positions.

use crate::error::TrzRewardsError;
use crate::state::mining::{spec_consume_position, spec_refresh, MiningView};
use crate::state::reward_pool::{
    spec_change_delegate, spec_deposit, spec_deposit_delegated, spec_distribute, spec_extend,
    spec_extend_unwind, spec_pool_consume, spec_slash, spec_withdraw, spec_withdraw_delegated,
    PoolView,
};
use crate::state::timeline::{lemma_prefix_le_props, tl_get, tl_prefix_le, tl_sorted, tl_upsert};
use crate::utils::{spec_day_floor, LockupPeriod};
use vstd::prelude::*;

verus! {

/// Sum of the scheduled decay values on the leading entries with day at
/// most `day`: the earning power that settlement at `day` retires.
pub open spec fn tl_sum_le(s: Seq<(u64, u64)>, day: u64) -> int
    decreases s.len(),
{
    if s.len() == 0 || s[0].0 > day {
        0
    } else {
        s[0].1 + tl_sum_le(s.drop_first(), day)
    }
}

/// Sum of every position's active earning power: its own share plus the
/// stake others delegated to it.
pub open spec fn total_stake_of(ms: Seq<MiningView>) -> int
    decreases ms.len(),
{
    if ms.len() == 0 {
        0
    } else {
        ms[0].share + ms[0].stake_from_others + total_stake_of(ms.drop_first())
    }
}

/// A successful due-decay fold lowers the weight by exactly the sum of the
/// due decays, and by nothing else.
pub proof fn lemma_consume_weight(
    diffs: Seq<(u64, u64)>,
    hist: Seq<(u64, u128)>,
    day: u64,
    weight: u64,
    unclaimed: u64,
    idx: u128,
    t: (u64, u64, u128),
)
    requires
        spec_consume_position(diffs, hist, day, weight, unclaimed, idx) == Ok::<
            (u64, u64, u128),
            TrzRewardsError,
        >(t),
    ensures
        t.0 + tl_sum_le(diffs, day) == weight,
    decreases diffs.len(),
{
    if diffs.len() == 0 || diffs[0].0 > day {
    } else {
        let step = crate::state::mining::spec_update_index(hist, diffs[0].0, weight, unclaimed,
            idx);
        lemma_consume_weight(
            diffs.drop_first(),
            hist,
            day,
            (weight - diffs[0].1) as u64,
            step->Ok_0.0,
            step->Ok_0.1,
            t,
        );
    }
}

/// A successful pool-side fold lowers the total share by exactly the sum
/// of the due decays.
pub proof fn lemma_pool_consume_total(
    diffs: Seq<(u64, u64)>,
    day: u64,
    total_share: u64,
    t: u64,
)
    requires
        spec_pool_consume(diffs, day, total_share) == Ok::<u64, TrzRewardsError>(t),
    ensures
        t + tl_sum_le(diffs, day) == total_share,
    decreases diffs.len(),
{
    if diffs.len() == 0 || diffs[0].0 > day {
    } else {
        lemma_pool_consume_total(diffs.drop_first(), day, (total_share - diffs[0].1) as u64, t);
    }
}

/// Settlement accounting: a successful refresh at `now` keeps the hosted
/// stake, lowers the share by exactly the decays due at the day of `now`,
/// and drops exactly the due entries from the schedule.
pub proof fn lemma_refresh_settles_due_decays(
    m: MiningView,
    hist: Seq<(u64, u128)>,
    now: u64,
    m1: MiningView,
)
    requires
        spec_refresh(m, hist, now) == Ok::<MiningView, TrzRewardsError>(m1),
    ensures
        m1.stake_from_others == m.stake_from_others,
        m1.share + tl_sum_le(m.weighted_stake_diffs, spec_day_floor(now)) == m.share,
        m1.weighted_stake_diffs == m.weighted_stake_diffs.skip(
            tl_prefix_le(m.weighted_stake_diffs, spec_day_floor(now)),
        ),
{
    let day = spec_day_floor(now);
    let c = spec_consume_position(
        m.weighted_stake_diffs,
        hist,
        day,
        (m.share + m.stake_from_others) as u64,
        m.unclaimed_rewards,
        m.index_with_precision,
    );
    lemma_consume_weight(
        m.weighted_stake_diffs,
        hist,
        day,
        (m.share + m.stake_from_others) as u64,
        m.unclaimed_rewards,
        m.index_with_precision,
        c->Ok_0,
    );
}

/// Boundary, before the decay day: a refresh whose time lies strictly
/// before a scheduled day leaves that entry in place, value untouched.
pub proof fn lemma_decay_invisible_before(
    m: MiningView,
    hist: Seq<(u64, u128)>,
    now: u64,
    m1: MiningView,
    i: int,
)
    requires
        spec_refresh(m, hist, now) == Ok::<MiningView, TrzRewardsError>(m1),
        0 <= i < m.weighted_stake_diffs.len(),
        now < m.weighted_stake_diffs[i].0,
    ensures
        exists|j: int|
            0 <= j < m1.weighted_stake_diffs.len() && m1.weighted_stake_diffs[j]
                == m.weighted_stake_diffs[i],
{
    let day = spec_day_floor(now);
    let s = m.weighted_stake_diffs;
    let n = tl_prefix_le(s, day);
    lemma_refresh_settles_due_decays(m, hist, now, m1);
    lemma_prefix_le_props(s, day);
    assert(day <= now);
    assert(n <= i);
    assert(m1.weighted_stake_diffs[i - n] == s.skip(n)[i - n]);
    assert(s.skip(n)[i - n] == s[i]);
}

/// Boundary, on or after the decay day: the first refresh at or past a
/// scheduled day retires that entry for good (so no later refresh can
/// apply it again), and the share drops by the full sum of the decays
/// due, this entry's value among them.
pub proof fn lemma_decay_applied_once(
    m: MiningView,
    hist: Seq<(u64, u128)>,
    now: u64,
    m1: MiningView,
    i: int,
)
    requires
        spec_refresh(m, hist, now) == Ok::<MiningView, TrzRewardsError>(m1),
        tl_sorted(m.weighted_stake_diffs),
        0 <= i < m.weighted_stake_diffs.len(),
        m.weighted_stake_diffs[i].0 <= spec_day_floor(now),
    ensures
        m1.share + tl_sum_le(m.weighted_stake_diffs, spec_day_floor(now)) == m.share,
        forall|j: int|
            0 <= j < m1.weighted_stake_diffs.len() ==> (#[trigger] m1.weighted_stake_diffs[j]).0
                != m.weighted_stake_diffs[i].0,
{
    let day = spec_day_floor(now);
    let s = m.weighted_stake_diffs;
    let n = tl_prefix_le(s, day);
    lemma_refresh_settles_due_decays(m, hist, now, m1);
    lemma_prefix_le_props(s, day);
    assert(i < n) by {
        if n <= i {
            assert(n < s.len());
            assert(s[n].0 > day);
            if n < i {
                assert(s[n].0 < s[i].0);
            }
        }
    }
    assert forall|j: int|
        0 <= j < m1.weighted_stake_diffs.len() implies (#[trigger] m1.weighted_stake_diffs[j]).0
        != s[i].0 by {
        assert(m1.weighted_stake_diffs[j] == s[n + j]);
        assert(s[i].0 < s[n + j].0);
    }
}

/// Totals over a family of positions: replacing one position changes the
/// family's combined stake by exactly that position's change.
pub proof fn lemma_total_stake_update(ms: Seq<MiningView>, i: int, m2: MiningView)
    requires
        0 <= i < ms.len(),
    ensures
        total_stake_of(ms.update(i, m2)) == total_stake_of(ms) + (m2.share
            + m2.stake_from_others) - (ms[i].share + ms[i].stake_from_others),
    decreases ms.len(),
{
    if ms.len() == 0 {
    } else if i == 0 {
        assert(ms.update(0, m2).drop_first() =~= ms.drop_first());
    } else {
        lemma_total_stake_update(ms.drop_first(), i - 1, m2);
        assert(ms.update(i, m2).drop_first() =~= ms.drop_first().update(i - 1, m2));
        assert(ms.update(i, m2)[0] == ms[0]);
    }
}

/// Books balance, one position updated: when the pool's total share covers
/// a family of positions exactly, and an operation moves the total by the
/// same amount as the touched position's stake, the cover is preserved.
pub proof fn lemma_pool_balances_positions(
    p: PoolView,
    p2: PoolView,
    ms: Seq<MiningView>,
    i: int,
    m2: MiningView,
)
    requires
        0 <= i < ms.len(),
        p.total_share == total_stake_of(ms),
        p2.total_share - p.total_share == (m2.share + m2.stake_from_others) - (ms[i].share
            + ms[i].stake_from_others),
    ensures
        p2.total_share == total_stake_of(ms.update(i, m2)),
{
    lemma_total_stake_update(ms, i, m2);
}

/// Balance under deposit: with no decay of the position due at the day of
/// `now`, a successful deposit moves the pool's total share by exactly
/// the position's gain of earning power.
pub proof fn lemma_deposit_preserves_balance(
    p: PoolView,
    m: MiningView,
    amount: u64,
    lockup_period: LockupPeriod,
    now: u64,
    p2: PoolView,
    m2: MiningView,
)
    requires
        spec_deposit(p, m, amount, lockup_period, now) == Ok::<
            (PoolView, MiningView),
            TrzRewardsError,
        >((p2, m2)),
        forall|i: int|
            0 <= i < m.weighted_stake_diffs.len() ==> (#[trigger] m.weighted_stake_diffs[i]).0
                > spec_day_floor(now),
    ensures
        p2.total_share - p.total_share == (m2.share + m2.stake_from_others) - (m.share
            + m.stake_from_others),
{
    let m1 = spec_refresh(m, p.cumulative_index, now)->Ok_0;
    lemma_refresh_settles_due_decays(m, p.cumulative_index, now, m1);
    assert(tl_sum_le(m.weighted_stake_diffs, spec_day_floor(now)) == 0);
}

/// Balance under withdrawal: with no decay due at the day of `now`, on
/// either side, a successful withdrawal moves the pool's total share by
/// exactly the position's loss of earning power.
pub proof fn lemma_withdraw_preserves_balance(
    p: PoolView,
    m: MiningView,
    amount: u64,
    now: u64,
    p2: PoolView,
    m2: MiningView,
)
    requires
        spec_withdraw(p, m, amount, now) == Ok::<(PoolView, MiningView), TrzRewardsError>(
            (p2, m2),
        ),
        forall|i: int|
            0 <= i < m.weighted_stake_diffs.len() ==> (#[trigger] m.weighted_stake_diffs[i]).0
                > spec_day_floor(now),
        forall|i: int|
            0 <= i < p.weighted_stake_diffs.len() ==> (#[trigger] p.weighted_stake_diffs[i]).0
                > spec_day_floor(now),
    ensures
        p2.total_share - p.total_share == (m2.share + m2.stake_from_others) - (m.share
            + m.stake_from_others),
{
    let day = spec_day_floor(now);
    let m1 = spec_refresh(m, p.cumulative_index, now)->Ok_0;
    lemma_refresh_settles_due_decays(m, p.cumulative_index, now, m1);
    assert(tl_sum_le(m.weighted_stake_diffs, day) == 0);
    let t2 = spec_pool_consume(p.weighted_stake_diffs, day, (p.total_share - amount) as u64);
    lemma_pool_consume_total(
        p.weighted_stake_diffs,
        day,
        (p.total_share - amount) as u64,
        t2->Ok_0,
    );
    assert(tl_sum_le(p.weighted_stake_diffs, day) == 0);
}

/// Balance under a slash: the schedule adjustments move no stake, so a
/// successful slash balances exactly like the withdrawal it contains.
pub proof fn lemma_slash_preserves_balance(
    p: PoolView,
    m: MiningView,
    slash_amount_in_native: u64,
    slash_amount_multiplied_by_period: u64,
    stake_expiration_date: Option<u64>,
    now: u64,
    p2: PoolView,
    m2: MiningView,
)
    requires
        spec_slash(p, m, slash_amount_in_native, slash_amount_multiplied_by_period,
            stake_expiration_date, now) == Ok::<(PoolView, MiningView), TrzRewardsError>(
            (p2, m2),
        ),
        forall|i: int|
            0 <= i < m.weighted_stake_diffs.len() ==> (#[trigger] m.weighted_stake_diffs[i]).0
                > spec_day_floor(now),
        forall|i: int|
            0 <= i < p.weighted_stake_diffs.len() ==> (#[trigger] p.weighted_stake_diffs[i]).0
                > spec_day_floor(now),
    ensures
        p2.total_share - p.total_share == (m2.share + m2.stake_from_others) - (m.share
            + m.stake_from_others),
{
    let w = spec_withdraw(p, m, slash_amount_multiplied_by_period, now)->Ok_0;
    lemma_withdraw_preserves_balance(
        p,
        m,
        slash_amount_multiplied_by_period,
        now,
        w.0,
        w.1,
    );
}

/// Balance under a delegated deposit: the pool's total share grows by
/// exactly the combined gain of the position and its delegate, with no
/// decay due on either.
pub proof fn lemma_deposit_delegated_preserves_balance(
    p: PoolView,
    m: MiningView,
    d: MiningView,
    amount: u64,
    lockup_period: LockupPeriod,
    now: u64,
    p2: PoolView,
    m2: MiningView,
    d2: MiningView,
)
    requires
        spec_deposit_delegated(p, m, d, amount, lockup_period, now) == Ok::<
            (PoolView, MiningView, MiningView),
            TrzRewardsError,
        >((p2, m2, d2)),
        forall|i: int|
            0 <= i < m.weighted_stake_diffs.len() ==> (#[trigger] m.weighted_stake_diffs[i]).0
                > spec_day_floor(now),
        forall|i: int|
            0 <= i < d.weighted_stake_diffs.len() ==> (#[trigger] d.weighted_stake_diffs[i]).0
                > spec_day_floor(now),
    ensures
        p2.total_share - p.total_share == ((m2.share + m2.stake_from_others) - (m.share
            + m.stake_from_others)) + ((d2.share + d2.stake_from_others) - (d.share
            + d.stake_from_others)),
{
    let pm = spec_deposit(p, m, amount, lockup_period, now)->Ok_0;
    lemma_deposit_preserves_balance(p, m, amount, lockup_period, now, pm.0, pm.1);
    let d1 = MiningView { stake_from_others: (d.stake_from_others + amount) as u64, ..d };
    lemma_refresh_settles_due_decays(
        d1,
        pm.0.cumulative_index,
        now,
        spec_refresh(d1, pm.0.cumulative_index, now)->Ok_0,
    );
    assert(tl_sum_le(d.weighted_stake_diffs, spec_day_floor(now)) == 0);
}

/// Balance under a delegated withdrawal: the pool's total share shrinks by
/// exactly the combined loss of the position and its delegate, with no
/// decay due anywhere.
pub proof fn lemma_withdraw_delegated_preserves_balance(
    p: PoolView,
    m: MiningView,
    d: MiningView,
    amount: u64,
    now: u64,
    p2: PoolView,
    m2: MiningView,
    d2: MiningView,
)
    requires
        spec_withdraw_delegated(p, m, d, amount, now) == Ok::<
            (PoolView, MiningView, MiningView),
            TrzRewardsError,
        >((p2, m2, d2)),
        forall|i: int|
            0 <= i < m.weighted_stake_diffs.len() ==> (#[trigger] m.weighted_stake_diffs[i]).0
                > spec_day_floor(now),
        forall|i: int|
            0 <= i < d.weighted_stake_diffs.len() ==> (#[trigger] d.weighted_stake_diffs[i]).0
                > spec_day_floor(now),
        forall|i: int|
            0 <= i < p.weighted_stake_diffs.len() ==> (#[trigger] p.weighted_stake_diffs[i]).0
                > spec_day_floor(now),
    ensures
        p2.total_share - p.total_share == ((m2.share + m2.stake_from_others) - (m.share
            + m.stake_from_others)) + ((d2.share + d2.stake_from_others) - (d.share
            + d.stake_from_others)),
{
    let pm = spec_withdraw(p, m, amount, now)->Ok_0;
    lemma_withdraw_preserves_balance(p, m, amount, now, pm.0, pm.1);
    let d1 = MiningView { stake_from_others: (d.stake_from_others - amount) as u64, ..d };
    lemma_refresh_settles_due_decays(
        d1,
        pm.0.cumulative_index,
        now,
        spec_refresh(d1, pm.0.cumulative_index, now)->Ok_0,
    );
    assert(tl_sum_le(d.weighted_stake_diffs, spec_day_floor(now)) == 0);
}

/// Balance under a delegate change: moving hosted stake between two
/// distinct delegates leaves the pool's total share and the combined
/// earning power of the three touched positions unchanged, when none of
/// them has a decay due.
pub proof fn lemma_change_delegate_preserves_balance(
    p: PoolView,
    m: MiningView,
    old_d: MiningView,
    new_d: MiningView,
    staked_amount: u64,
    now: u64,
    p2: PoolView,
    m2: MiningView,
    od2: MiningView,
    nd2: MiningView,
)
    requires
        spec_change_delegate(p, m, old_d, new_d, staked_amount, now) == Ok::<
            (PoolView, MiningView, MiningView, MiningView),
            TrzRewardsError,
        >((p2, m2, od2, nd2)),
        forall|i: int|
            0 <= i < m.weighted_stake_diffs.len() ==> (#[trigger] m.weighted_stake_diffs[i]).0
                > spec_day_floor(now),
        forall|i: int|
            0 <= i < old_d.weighted_stake_diffs.len() ==> (
            #[trigger] old_d.weighted_stake_diffs[i]).0 > spec_day_floor(now),
        forall|i: int|
            0 <= i < new_d.weighted_stake_diffs.len() ==> (
            #[trigger] new_d.weighted_stake_diffs[i]).0 > spec_day_floor(now),
    ensures
        p2.total_share == p.total_share,
        (m2.share + m2.stake_from_others) + (od2.share + od2.stake_from_others) + (nd2.share
            + nd2.stake_from_others) == (m.share + m.stake_from_others) + (old_d.share
            + old_d.stake_from_others) + (new_d.share + new_d.stake_from_others),
{
    let day = spec_day_floor(now);
    let m1 = spec_refresh(m, p.cumulative_index, now)->Ok_0;
    lemma_refresh_settles_due_decays(m, p.cumulative_index, now, m1);
    assert(tl_sum_le(m.weighted_stake_diffs, day) == 0);
    let od1 = MiningView {
        stake_from_others: (old_d.stake_from_others - staked_amount) as u64,
        ..old_d
    };
    lemma_refresh_settles_due_decays(
        od1,
        p.cumulative_index,
        now,
        spec_refresh(od1, p.cumulative_index, now)->Ok_0,
    );
    assert(tl_sum_le(old_d.weighted_stake_diffs, day) == 0);
    let nd1 = MiningView {
        stake_from_others: (new_d.stake_from_others + staked_amount) as u64,
        ..new_d
    };
    lemma_refresh_settles_due_decays(
        nd1,
        p.cumulative_index,
        now,
        spec_refresh(nd1, p.cumulative_index, now)->Ok_0,
    );
    assert(tl_sum_le(new_d.weighted_stake_diffs, day) == 0);
}

/// Balance under a stake extension: unwinding the old lockup and making
/// the fresh deposit each move the pool's total share by exactly what
/// they move the position's share, so the whole extension does too, when
/// no decay of the position is due at the day of `now`.
pub proof fn lemma_extend_preserves_balance(
    p: PoolView,
    m: MiningView,
    old_lockup_period: LockupPeriod,
    new_lockup_period: LockupPeriod,
    deposit_start_ts: u64,
    base_amount: u64,
    additional_amount: u64,
    now: u64,
    p2: PoolView,
    m2: MiningView,
)
    requires
        spec_extend(p, m, old_lockup_period, new_lockup_period, deposit_start_ts, base_amount,
            additional_amount, now) == Ok::<(PoolView, MiningView), TrzRewardsError>((p2, m2)),
        forall|i: int|
            0 <= i < m.weighted_stake_diffs.len() ==> (#[trigger] m.weighted_stake_diffs[i]).0
                > spec_day_floor(now),
    ensures
        p2.total_share - p.total_share == (m2.share + m2.stake_from_others) - (m.share
            + m.stake_from_others),
{
    let day = spec_day_floor(now);
    let m1 = spec_refresh(m, p.cumulative_index, now)->Ok_0;
    lemma_refresh_settles_due_decays(m, p.cumulative_index, now, m1);
    assert(tl_sum_le(m.weighted_stake_diffs, day) == 0);
    assert(tl_prefix_le(m.weighted_stake_diffs, day) == 0);
    assert(m1.weighted_stake_diffs =~= m.weighted_stake_diffs);
    let u = spec_extend_unwind(p, m1, old_lockup_period, deposit_start_ts, base_amount, now)
        ->Ok_0;
    let p3 = u.0;
    let m3 = u.1;
    let old_expiry: u64 = if old_lockup_period is Flex {
        0u64
    } else {
        old_lockup_period.spec_end_timestamp(deposit_start_ts)->Ok_0
    };
    if now < old_expiry {
        let old_weighted = (base_amount * old_lockup_period.spec_multiplier()) as u64;
        let wdiff = (old_weighted - base_amount) as u64;
        let held = tl_get(m1.weighted_stake_diffs, old_expiry)->Some_0;
        assert(m3.weighted_stake_diffs == tl_upsert(
            m1.weighted_stake_diffs,
            old_expiry,
            (held - wdiff) as u64,
        ));
        crate::state::timeline::lemma_upsert_bounds(
            m1.weighted_stake_diffs,
            old_expiry,
            (held - wdiff) as u64,
        );
        assert(day <= now);
        assert forall|i: int|
            0 <= i < m3.weighted_stake_diffs.len() implies (
            #[trigger] m3.weighted_stake_diffs[i]).0 > day by {
            if m3.weighted_stake_diffs[i].0 != old_expiry {
                let w = choose|w: int|
                    0 <= w < m1.weighted_stake_diffs.len() && m1.weighted_stake_diffs[w]
                        == m3.weighted_stake_diffs[i];
                assert(m1.weighted_stake_diffs[w] == m.weighted_stake_diffs[w]);
                assert(m.weighted_stake_diffs[w].0 > day);
            }
        }
    } else {
        assert(m3.weighted_stake_diffs == m1.weighted_stake_diffs);
    }
    assert(p3.total_share - p.total_share == m3.share - m1.share);
    assert(m3.stake_from_others == m1.stake_from_others);
    lemma_deposit_preserves_balance(
        p3,
        m3,
        (base_amount + additional_amount) as u64,
        new_lockup_period,
        now,
        p2,
        m2,
    );
}

/// Idempotence of distribution within a day: once a distribution has
/// succeeded, a second distribution whose time falls in the same day
/// returns the state unchanged, as long as some share remains staked.
pub proof fn lemma_distribute_same_day_idempotent(
    p0: PoolView,
    rewards1: u64,
    now1: u64,
    p1: PoolView,
    rewards2: u64,
    now2: u64,
)
    requires
        spec_distribute(p0, rewards1, now1) == Ok::<PoolView, TrzRewardsError>(p1),
        spec_day_floor(now2) == spec_day_floor(now1),
        p1.total_share != 0,
    ensures
        spec_distribute(p1, rewards2, now2) == Ok::<PoolView, TrzRewardsError>(p1),
{
    let day = spec_day_floor(now1);
    let s = p0.weighted_stake_diffs;
    let n = tl_prefix_le(s, day);
    lemma_prefix_le_props(s, day);
    assert(p1.weighted_stake_diffs == s.skip(n));
    if n < s.len() {
        assert(p1.weighted_stake_diffs[0] == s[n]);
        assert(s[n].0 > day);
    }
    assert(spec_pool_consume(p1.weighted_stake_diffs, day, p1.total_share) == Ok::<
        u64,
        TrzRewardsError,
    >(p1.total_share));
    assert(tl_prefix_le(p1.weighted_stake_diffs, day) == 0);
    assert(p1.weighted_stake_diffs.skip(0) =~= p1.weighted_stake_diffs);
    if tl_get(p0.cumulative_index, day) is Some {
        assert(p1.cumulative_index == p0.cumulative_index);
    } else {
        crate::state::timeline::lemma_upsert_get_key(
            p0.cumulative_index,
            day,
            p1.index_with_precision,
        );
    }
    assert(tl_get(p1.cumulative_index, day) is Some);
    assert(spec_distribute(p1, rewards2, now2)->Ok_0 =~= p1);
}

/// Round trip of a baseline deposit: depositing under the unlimited
/// lockup and immediately withdrawing the same amount restores both the
/// pool's total share and the position's share exactly, when no decay is
/// due at the day of `now` on either side.
pub proof fn lemma_flex_round_trip(
    p0: PoolView,
    m0: MiningView,
    amount: u64,
    now: u64,
    p1: PoolView,
    m1: MiningView,
    p2: PoolView,
    m2: MiningView,
)
    requires
        spec_deposit(p0, m0, amount, LockupPeriod::Flex, now) == Ok::<
            (PoolView, MiningView),
            TrzRewardsError,
        >((p1, m1)),
        spec_withdraw(p1, m1, amount, now) == Ok::<(PoolView, MiningView), TrzRewardsError>(
            (p2, m2),
        ),
        forall|i: int|
            0 <= i < m0.weighted_stake_diffs.len() ==> (#[trigger] m0.weighted_stake_diffs[i]).0
                > spec_day_floor(now),
        forall|i: int|
            0 <= i < p0.weighted_stake_diffs.len() ==> (#[trigger] p0.weighted_stake_diffs[i]).0
                > spec_day_floor(now),
    ensures
        p2.total_share == p0.total_share,
        m2.share == m0.share,
{
    let day = spec_day_floor(now);
    lemma_deposit_preserves_balance(p0, m0, amount, LockupPeriod::Flex, now, p1, m1);
    let expiry = LockupPeriod::Flex.spec_end_timestamp(now)->Ok_0;
    assert(expiry == spec_day_floor(now) + 5 * 86400);
    let ma = spec_refresh(m0, p0.cumulative_index, now)->Ok_0;
    lemma_refresh_settles_due_decays(m0, p0.cumulative_index, now, ma);
    assert(tl_sum_le(m0.weighted_stake_diffs, day) == 0);
    assert(ma.share == m0.share);
    let flex_multiplier = LockupPeriod::Flex.spec_multiplier();
    assert(flex_multiplier == 1);
    assert(amount * flex_multiplier == amount) by (nonlinear_arith)
        requires
            flex_multiplier == 1,
    ;
    let weighted = (amount * flex_multiplier) as u64;
    assert(weighted == amount);
    assert(m1.share == ma.share + weighted);
    assert(m1.share == m0.share + amount);
    assert(p1.total_share == p0.total_share + amount);
    assert(ma.weighted_stake_diffs =~= m0.weighted_stake_diffs);
    // every key of the schedules after the deposit still lies past `day`
    let mexisting: u64 = if tl_get(ma.weighted_stake_diffs, expiry) is Some {
        tl_get(ma.weighted_stake_diffs, expiry)->Some_0
    } else {
        0u64
    };
    assert(m1.weighted_stake_diffs == tl_upsert(ma.weighted_stake_diffs, expiry, mexisting));
    crate::state::timeline::lemma_upsert_bounds(ma.weighted_stake_diffs, expiry, mexisting);
    assert forall|i: int|
        0 <= i < m1.weighted_stake_diffs.len() implies (#[trigger] m1.weighted_stake_diffs[i]).0
        > day by {
        if m1.weighted_stake_diffs[i].0 != expiry {
            let w = choose|w: int|
                0 <= w < ma.weighted_stake_diffs.len() && ma.weighted_stake_diffs[w]
                    == m1.weighted_stake_diffs[i];
            assert(ma.weighted_stake_diffs[w] == m0.weighted_stake_diffs[w]);
            assert(m0.weighted_stake_diffs[w].0 > day);
        }
    }
    let pexisting: u64 = if tl_get(p0.weighted_stake_diffs, expiry) is Some {
        tl_get(p0.weighted_stake_diffs, expiry)->Some_0
    } else {
        0u64
    };
    assert(p1.weighted_stake_diffs == tl_upsert(p0.weighted_stake_diffs, expiry, pexisting));
    crate::state::timeline::lemma_upsert_bounds(p0.weighted_stake_diffs, expiry, pexisting);
    assert forall|i: int|
        0 <= i < p1.weighted_stake_diffs.len() implies (#[trigger] p1.weighted_stake_diffs[i]).0
        > day by {
        if p1.weighted_stake_diffs[i].0 != expiry {
            let w = choose|w: int|
                0 <= w < p0.weighted_stake_diffs.len() && p0.weighted_stake_diffs[w]
                    == p1.weighted_stake_diffs[i];
            assert(p0.weighted_stake_diffs[w].0 > day);
        }
    }
    lemma_withdraw_preserves_balance(p1, m1, amount, now, p2, m2);
    let mb = spec_refresh(m1, p1.cumulative_index, now)->Ok_0;
    lemma_refresh_settles_due_decays(m1, p1.cumulative_index, now, mb);
    assert(tl_sum_le(m1.weighted_stake_diffs, day) == 0);
    assert(mb.share == m1.share);
    assert(m2.share == m0.share);
}

} // verus!
