use trz_rewards::error::TrzRewardsError;
use trz_rewards::state::mining::Mining;
use trz_rewards::state::reward_pool::RewardPool;
use trz_rewards::utils::{day_floor, LockupPeriod};

const DAY: u64 = 86400;
const BASE: u64 = 1_728_001_000;

fn run_distribution(pool: &mut RewardPool, now: u64) {
    let rewards = pool.rewards_to_distribute(now).unwrap();
    pool.distribute(rewards, now).unwrap();
}

fn claim_amount(pool: &RewardPool, mining: &mut Mining, now: u64) -> u64 {
    mining.refresh_rewards(&pool.cumulative_index, now).unwrap();
    mining.claim()
}

#[test]
fn one_stake_for_a_date() {
    let mut pool = RewardPool::initialize();
    let mut mining = Mining::initialize();

    let stake_expiration_date = day_floor(BASE + 30 * 6 * DAY);
    pool.deposit(&mut mining, 150, LockupPeriod::SixMonths, BASE).unwrap();

    assert_eq!(pool.total_share, 600);
    assert_eq!(pool.weighted_stake_diffs.get(stake_expiration_date), Some(450));
    assert_eq!(mining.share, 600);
    assert_eq!(mining.weighted_stake_diffs.get(stake_expiration_date), Some(450));

    pool.slash(&mut mining, 50, 200, Some(stake_expiration_date), BASE).unwrap();

    assert_eq!(pool.total_share, 400);
    assert_eq!(pool.weighted_stake_diffs.get(stake_expiration_date), Some(300));
    assert_eq!(mining.share, 400);
    assert_eq!(mining.weighted_stake_diffs.get(stake_expiration_date), Some(300));
}

#[test]
fn another_one_stake_for_a_date() {
    let mut pool = RewardPool::initialize();
    let mut mining = Mining::initialize();

    let stake_expiration_date = day_floor(BASE + 30 * 3 * DAY);
    pool.deposit(&mut mining, 10_000, LockupPeriod::ThreeMonths, BASE).unwrap();

    assert_eq!(pool.total_share, 20_000);
    assert_eq!(pool.weighted_stake_diffs.get(stake_expiration_date), Some(10_000));
    assert_eq!(mining.share, 20_000);
    assert_eq!(mining.weighted_stake_diffs.get(stake_expiration_date), Some(10_000));

    pool.slash(&mut mining, 5_000, 10_000, Some(stake_expiration_date), BASE).unwrap();

    assert_eq!(pool.total_share, 10_000);
    assert_eq!(pool.weighted_stake_diffs.get(stake_expiration_date), Some(5_000));
    assert_eq!(mining.share, 10_000);
    assert_eq!(mining.weighted_stake_diffs.get(stake_expiration_date), Some(5_000));
}

#[test]
fn multiple_stakes_for_a_date_but_one_slashed() {
    let mut pool = RewardPool::initialize();
    let mut mining = Mining::initialize();

    let stake_expiration_date = day_floor(BASE + 365 * DAY);
    pool.deposit(&mut mining, 200, LockupPeriod::OneYear, BASE).unwrap();

    let later = BASE + 185 * DAY;
    pool.deposit(&mut mining, 150, LockupPeriod::SixMonths, later).unwrap();
    pool.deposit(&mut mining, 100, LockupPeriod::Flex, later).unwrap();

    // weighted stake = 150*4 + 200*6 + 100*1 = 1900
    // diff = 1900 - 150 - 200 - 100 = 1450
    assert_eq!(pool.total_share, 1900);
    assert_eq!(pool.weighted_stake_diffs.get(stake_expiration_date), Some(1450));
    assert_eq!(mining.share, 1900);
    assert_eq!(mining.weighted_stake_diffs.get(stake_expiration_date), Some(1450));

    pool.slash(&mut mining, 50, 200, Some(stake_expiration_date), later).unwrap();

    assert_eq!(pool.total_share, 1700);
    assert_eq!(pool.weighted_stake_diffs.get(stake_expiration_date), Some(1300));
    assert_eq!(mining.share, 1700);
    assert_eq!(mining.weighted_stake_diffs.get(stake_expiration_date), Some(1300));
}

#[test]
fn slash_without_scheduled_entry_is_rejected() {
    let mut pool = RewardPool::initialize();
    let mut mining = Mining::initialize();
    pool.deposit(&mut mining, 150, LockupPeriod::SixMonths, BASE).unwrap();

    assert_eq!(
        pool.slash(&mut mining, 50, 200, Some(day_floor(BASE) + 7 * DAY), BASE),
        Err(TrzRewardsError::NoWeightedStakeModifiersAtADate)
    );
    // the failed slash leaves everything untouched, the inner withdrawal
    // included
    assert_eq!(pool.total_share, 600);
    assert_eq!(mining.share, 600);
    assert_eq!(mining.weighted_stake_diffs.get(day_floor(BASE) + 180 * DAY), Some(450));
}

// A distribution that fails changes nothing either.
#[test]
fn failed_distribution_leaves_the_pool_untouched() {
    let mut pool = RewardPool::initialize();
    pool.fill_vault(100, BASE + DAY, BASE).unwrap();
    assert_eq!(pool.distribute(100, BASE), Err(TrzRewardsError::RewardsNoDeposits));
    assert_eq!(pool.tokens_available_for_distribution, 100);
    assert_eq!(pool.total_share, 0);
    assert_eq!(pool.index_with_precision, 0);
    assert_eq!(pool.cumulative_index.len(), 0);
}

// Two positions each deposit 100 under a one-year and a three-month lockup:
// a 100-unit distribution splits 75 / 25 by weighted stake.
#[test]
fn asymmetric_lockups_split() {
    let mut pool = RewardPool::initialize();
    let mut user_a = Mining::initialize();
    pool.deposit(&mut user_a, 100, LockupPeriod::OneYear, BASE).unwrap();
    let mut user_b = Mining::initialize();
    pool.deposit(&mut user_b, 100, LockupPeriod::ThreeMonths, BASE).unwrap();
    assert_eq!(pool.total_share, 800);

    pool.fill_vault(100, BASE + DAY, BASE).unwrap();
    run_distribution(&mut pool, BASE);

    assert_eq!(claim_amount(&pool, &mut user_a, BASE), 75);
    assert_eq!(claim_amount(&pool, &mut user_b, BASE), 25);
}

// A second distribution within the same day changes nothing.
#[test]
fn distribute_twice_in_one_day_is_a_no_op() {
    let mut pool = RewardPool::initialize();
    let mut mining = Mining::initialize();
    pool.deposit(&mut mining, 100, LockupPeriod::ThreeMonths, BASE).unwrap();
    pool.fill_vault(1000, BASE + 10 * DAY, BASE).unwrap();

    run_distribution(&mut pool, BASE);
    let index = pool.index_with_precision;
    let total = pool.total_share;
    let tokens = pool.tokens_available_for_distribution;
    let history_len = pool.cumulative_index.len();

    // later the same day
    run_distribution(&mut pool, BASE + 3600);

    assert_eq!(pool.index_with_precision, index);
    assert_eq!(pool.total_share, total);
    assert_eq!(pool.tokens_available_for_distribution, tokens);
    assert_eq!(pool.cumulative_index.len(), history_len);
}

// The cumulative index never decreases across distributions.
#[test]
fn cumulative_index_is_non_decreasing() {
    let mut pool = RewardPool::initialize();
    let mut mining = Mining::initialize();
    pool.deposit(&mut mining, 100, LockupPeriod::Flex, BASE).unwrap();
    pool.fill_vault(1000, BASE + 5 * DAY, BASE).unwrap();

    let mut last = pool.index_with_precision;
    for i in 0..8 {
        run_distribution(&mut pool, BASE + i * DAY);
        assert!(pool.index_with_precision >= last);
        last = pool.index_with_precision;
    }
}

// Depositing under the unlimited lockup and withdrawing the same amount
// restores the pool's total share and the position's share exactly.
#[test]
fn flex_deposit_withdraw_round_trip() {
    let mut pool = RewardPool::initialize();
    let mut other = Mining::initialize();
    pool.deposit(&mut other, 500, LockupPeriod::SixMonths, BASE).unwrap();
    let mut mining = Mining::initialize();
    pool.deposit(&mut mining, 70, LockupPeriod::ThreeMonths, BASE).unwrap();

    let total_before = pool.total_share;
    let share_before = mining.share;

    pool.deposit(&mut mining, 123, LockupPeriod::Flex, BASE).unwrap();
    pool.withdraw(&mut mining, 123, BASE).unwrap();

    assert_eq!(pool.total_share, total_before);
    assert_eq!(mining.share, share_before);
}

// After every touched position is refreshed, the pool's total share is the
// sum of each position's share plus its hosted delegated stake.
#[test]
fn total_share_covers_all_positions() {
    let mut pool = RewardPool::initialize();
    let mut user_a = Mining::initialize();
    let mut user_b = Mining::initialize();
    let mut delegate = Mining::initialize();

    pool.deposit(&mut user_a, 100, LockupPeriod::OneYear, BASE).unwrap();
    pool.deposit_delegated(&mut user_b, &mut delegate, 40, LockupPeriod::ThreeMonths, BASE)
        .unwrap();
    pool.deposit(&mut delegate, 10, LockupPeriod::Flex, BASE).unwrap();
    pool.withdraw(&mut user_a, 30, BASE).unwrap();
    pool.slash(&mut user_b, 5, 10, None, BASE).unwrap();

    let stake_sum = user_a.share + user_a.stake_from_others + user_b.share
        + user_b.stake_from_others + delegate.share + delegate.stake_from_others;
    assert_eq!(pool.total_share, stake_sum);
}

#[test]
fn change_delegate_between_two_delegates() {
    let mut pool = RewardPool::initialize();
    let mut old_delegate = Mining::initialize();
    pool.deposit(&mut old_delegate, 1_000, LockupPeriod::OneYear, BASE).unwrap();
    let mut new_delegate = Mining::initialize();
    pool.deposit(&mut new_delegate, 1_000, LockupPeriod::OneYear, BASE).unwrap();

    let mut mining = Mining::initialize();
    pool.deposit_delegated(&mut mining, &mut old_delegate, 200, LockupPeriod::ThreeMonths, BASE)
        .unwrap();
    let total = pool.total_share;

    pool.change_delegate(&mut mining, &mut old_delegate, &mut new_delegate, 200, BASE).unwrap();

    assert_eq!(old_delegate.stake_from_others, 0);
    assert_eq!(new_delegate.stake_from_others, 200);
    assert_eq!(pool.total_share, total);

    pool.change_delegate_to_self(&mut mining, &mut new_delegate, 200, BASE).unwrap();
    assert_eq!(new_delegate.stake_from_others, 0);
    assert_eq!(pool.total_share, total - 200);
}
