use trz_rewards::error::TrzRewardsError;
use trz_rewards::state::mining::Mining;
use trz_rewards::state::reward_pool::RewardPool;
use trz_rewards::state::timeline::OrderedTimeline;
use trz_rewards::state::PRECISION;
use trz_rewards::utils::{day_floor, LockupPeriod};

const DAY: u64 = 86400;
const BASE: u64 = 1_728_001_000;

fn run_distribution(pool: &mut RewardPool, now: u64) {
    let rewards = pool.rewards_to_distribute(now).unwrap();
    pool.distribute(rewards, now).unwrap();
}

#[test]
fn initialize_pool_success() {
    let pool = RewardPool::initialize();
    assert_eq!(pool.total_share, 0);
    assert_eq!(pool.index_with_precision, 0);
    assert_eq!(pool.distribution_ends_at, 0);
    assert_eq!(pool.tokens_available_for_distribution, 0);
    assert_eq!(pool.weighted_stake_diffs.len(), 0);
    assert_eq!(pool.cumulative_index.len(), 0);
}

#[test]
fn fill_vault_success() {
    let mut pool = RewardPool::initialize();
    pool.fill_vault(100, BASE + 100 * DAY, BASE).unwrap();
    assert_eq!(pool.tokens_available_for_distribution, 100);
    assert_eq!(pool.distribution_ends_at, day_floor(BASE + 100 * DAY));
}

#[test]
fn zero_amount_of_rewards() {
    let mut pool = RewardPool::initialize();
    assert_eq!(
        pool.fill_vault(0, BASE + 100 * DAY, BASE),
        Err(TrzRewardsError::RewardsMustBeGreaterThanZero)
    );
}

#[test]
fn fill_vault_in_the_past_is_rejected() {
    let mut pool = RewardPool::initialize();
    assert_eq!(
        pool.fill_vault(100, BASE - 2 * DAY, BASE),
        Err(TrzRewardsError::DistributionInThePast)
    );
}

#[test]
fn rewards_top_up_extend() {
    let mut pool = RewardPool::initialize();
    let mut mining = Mining::initialize();
    pool.deposit(&mut mining, 50, LockupPeriod::ThreeMonths, BASE).unwrap();
    pool.fill_vault(100, BASE + 100 * DAY, BASE).unwrap();
    pool.fill_vault(50, BASE + 150 * DAY, BASE).unwrap();
    assert_eq!(pool.distribution_ends_at, day_floor(BASE + 150 * DAY));
    assert_eq!(pool.tokens_available_for_distribution, 150);
}

#[test]
fn rewards_top_up_second_time_with_earlier_distribution_ends_at() {
    let mut pool = RewardPool::initialize();
    let mut mining = Mining::initialize();
    pool.deposit(&mut mining, 50, LockupPeriod::ThreeMonths, BASE).unwrap();
    pool.fill_vault(100, BASE + 100 * DAY, BASE).unwrap();
    assert!(pool.fill_vault(50, BASE + 50 * DAY, BASE).is_err());
}

#[test]
fn rewards_to_distribute_spreads_over_remaining_days() {
    let mut pool = RewardPool::initialize();
    pool.fill_vault(1000, BASE + 10 * DAY, BASE).unwrap();
    // nine whole days remain between `BASE` and the day-aligned end
    assert_eq!(pool.rewards_to_distribute(BASE), Ok(111));
    assert_eq!(pool.rewards_to_distribute(BASE + 8 * DAY), Ok(1000));
    assert_eq!(pool.rewards_to_distribute(BASE + 20 * DAY), Ok(1000));
}

#[test]
fn update_index_records_the_day() {
    let mut cumulative_index: OrderedTimeline<u128> = OrderedTimeline::new(10);
    let mut index_with_precision: u128 = 0;
    RewardPool::update_index(&mut cumulative_index, &mut index_with_precision, 100, 200, 86400)
        .unwrap();
    assert_eq!(index_with_precision, 100 * PRECISION / 200);
    assert_eq!(cumulative_index.get(86400), Some(index_with_precision));

    assert_eq!(
        RewardPool::update_index(&mut cumulative_index, &mut index_with_precision, 1, 0, 86400),
        Err(TrzRewardsError::MathOverflow)
    );
    assert_eq!(index_with_precision, 100 * PRECISION / 200);
}

#[test]
fn distribute_without_deposits_fails() {
    let mut pool = RewardPool::initialize();
    pool.fill_vault(100, BASE + DAY, BASE).unwrap();
    assert_eq!(
        pool.distribute(100, BASE),
        Err(TrzRewardsError::RewardsNoDeposits)
    );
}

#[test]
fn deposit_mining_success() {
    let mut pool = RewardPool::initialize();
    let mut mining = Mining::initialize();
    pool.deposit(&mut mining, 100, LockupPeriod::ThreeMonths, BASE).unwrap();
    assert_eq!(pool.total_share, 200);
    assert_eq!(mining.share, 200);
}

#[test]
fn success_with_flex() {
    let mut pool = RewardPool::initialize();
    let mut mining = Mining::initialize();
    pool.deposit(&mut mining, 100, LockupPeriod::Flex, BASE).unwrap();
    assert_eq!(pool.total_share, 100);
    assert_eq!(mining.share, 100);
}

#[test]
fn deposit_with_unset_lockup_is_rejected() {
    let mut pool = RewardPool::initialize();
    let mut mining = Mining::initialize();
    assert_eq!(
        pool.deposit(&mut mining, 0, LockupPeriod::Unset, BASE),
        Err(TrzRewardsError::InvalidLockupPeriod)
    );
    assert_eq!(
        pool.deposit(&mut mining, 100, LockupPeriod::Unset, BASE),
        Err(TrzRewardsError::MathOverflow)
    );
}

#[test]
fn delegating_success() {
    let mut pool = RewardPool::initialize();
    let mut delegate_mining = Mining::initialize();
    pool.deposit(&mut delegate_mining, 3_000_000, LockupPeriod::OneYear, BASE).unwrap();
    assert_eq!(delegate_mining.share, 18_000_000);
    assert_eq!(delegate_mining.stake_from_others, 0);

    let mut mining = Mining::initialize();
    pool.deposit_delegated(&mut mining, &mut delegate_mining, 100, LockupPeriod::Flex, BASE)
        .unwrap();

    assert_eq!(delegate_mining.share, 18_000_000);
    assert_eq!(delegate_mining.stake_from_others, 100);
    assert_eq!(pool.total_share, 18_000_200);
    assert_eq!(mining.share, 100);
}

#[test]
fn withdraw_mining_success() {
    let mut pool = RewardPool::initialize();
    let mut mining = Mining::initialize();
    pool.deposit(&mut mining, 100, LockupPeriod::ThreeMonths, BASE).unwrap();
    pool.withdraw(&mut mining, 30, BASE).unwrap();
    assert_eq!(pool.total_share, 170);
    assert_eq!(mining.share, 170);
}

#[test]
fn success_with_5kkk_after_expiring() {
    let mut pool = RewardPool::initialize();
    let mut mining = Mining::initialize();
    pool.deposit(&mut mining, 5000000000, LockupPeriod::ThreeMonths, BASE).unwrap();

    let later = BASE + 100 * DAY;
    pool.withdraw(&mut mining, 5000000000, later).unwrap();
    assert_eq!(pool.total_share, 0);
    assert_eq!(mining.share, 0);
}

#[test]
fn happy_path() {
    let mut pool = RewardPool::initialize();
    let mut mining = Mining::initialize();
    pool.deposit(&mut mining, 100, LockupPeriod::ThreeMonths, BASE).unwrap();
    pool.fill_vault(100, BASE + 100 * DAY, BASE).unwrap();
    run_distribution(&mut pool, BASE);
    mining.refresh_rewards(&pool.cumulative_index, BASE).unwrap();
    assert_eq!(mining.claim(), 1);
}

#[test]
fn happy_path_with_flex() {
    let mut pool = RewardPool::initialize();
    let mut mining = Mining::initialize();
    pool.deposit(&mut mining, 100, LockupPeriod::Flex, BASE).unwrap();
    pool.fill_vault(100, BASE + 100 * DAY, BASE).unwrap();
    run_distribution(&mut pool, BASE);
    mining.refresh_rewards(&pool.cumulative_index, BASE).unwrap();
    assert_eq!(mining.claim(), 1);
}

#[test]
fn happy_path_with_flex_continious_distribution() {
    let mut pool = RewardPool::initialize();
    let mut mining = Mining::initialize();
    pool.deposit(&mut mining, 100, LockupPeriod::Flex, BASE).unwrap();
    pool.fill_vault(100, BASE + 100 * DAY, BASE).unwrap();
    for i in 0..100 {
        run_distribution(&mut pool, BASE + i * DAY);
    }
    mining.refresh_rewards(&pool.cumulative_index, BASE + 100 * DAY).unwrap();
    assert_eq!(mining.claim(), 100);
}

#[test]
fn happy_path_with_flex_continious_distribution_with_two_users() {
    let mut pool = RewardPool::initialize();
    let mut alice = Mining::initialize();
    pool.deposit(&mut alice, 100, LockupPeriod::Flex, BASE).unwrap();
    let mut bob = Mining::initialize();
    pool.deposit(&mut bob, 100, LockupPeriod::Flex, BASE).unwrap();
    pool.fill_vault(100, BASE + 100 * DAY, BASE).unwrap();
    for i in 0..100 {
        run_distribution(&mut pool, BASE + i * DAY);
    }
    let end = BASE + 100 * DAY;
    alice.refresh_rewards(&pool.cumulative_index, end).unwrap();
    assert_eq!(alice.claim(), 49);
    bob.refresh_rewards(&pool.cumulative_index, end).unwrap();
    assert_eq!(bob.claim(), 49);
}
