use trz_rewards::error::TrzRewardsError;
use trz_rewards::state::mining::Mining;
use trz_rewards::state::reward_pool::RewardPool;
use trz_rewards::utils::LockupPeriod;

const DAY: u64 = 86400;
// one second past the start of a day, so that the day's own index entry is
// visible to settlements later in the same day
const BASE: u64 = 1_728_001_000;

#[test]
fn slighly_decrease_rewards() {
    let mut mining = Mining::initialize();
    mining.share = 3600;
    // three stakes:
    // - 500 x4 (six months)
    // - 700 x2 (three months)
    // - 200 x1 (flex)
    mining.weighted_stake_diffs.insert_or_add(365, 1500).unwrap();
    mining.weighted_stake_diffs.insert_or_add(180, 700).unwrap();

    mining.decrease_rewards(300).unwrap();

    assert_eq!(mining.share, 3300);
    assert_eq!(mining.weighted_stake_diffs.get(365), Some(1200));
    assert_eq!(mining.weighted_stake_diffs.get(180), Some(700));
}

#[test]
fn moderate_decrease_rewards() {
    let mut mining = Mining::initialize();
    mining.share = 3600;
    // three stakes:
    // - 500 x4 (six months)
    // - 700 x2 (three months)
    // - 200 x1 (flex)
    mining.weighted_stake_diffs.insert_or_add(365, 1500).unwrap();
    mining.weighted_stake_diffs.insert_or_add(180, 700).unwrap();

    mining.decrease_rewards(2200).unwrap();

    assert_eq!(mining.share, 1400);
    assert_eq!(mining.weighted_stake_diffs.get(365), Some(0));
    assert_eq!(mining.weighted_stake_diffs.get(180), Some(0));
}

#[test]
fn severe_decrease_rewards() {
    let mut mining = Mining::initialize();
    mining.share = 3600;
    // three stakes:
    // - 500 x4 (six months)
    // - 700 x2 (three months)
    // - 200 x1 (flex)
    mining.weighted_stake_diffs.insert_or_add(365, 1500).unwrap();
    mining.weighted_stake_diffs.insert_or_add(180, 700).unwrap();

    mining.decrease_rewards(3500).unwrap();

    assert_eq!(mining.share, 100);
    assert_eq!(mining.weighted_stake_diffs.get(365), Some(0));
    assert_eq!(mining.weighted_stake_diffs.get(180), Some(0));
}

#[test]
fn decrease_rewards_larger_than_share_is_rejected() {
    let mut mining = Mining::initialize();
    mining.share = 100;
    assert_eq!(
        mining.decrease_rewards(101),
        Err(TrzRewardsError::DecreaseRewardsTooBig)
    );
    assert_eq!(mining.share, 100);
    mining.decrease_rewards(0).unwrap();
    assert_eq!(mining.share, 100);
}

#[test]
fn claim_zeroes_the_unclaimed_balance() {
    let mut mining = Mining::initialize();
    mining.unclaimed_rewards = 1234;
    assert_eq!(mining.claim(), 1234);
    assert_eq!(mining.unclaimed_rewards, 0);
    assert_eq!(mining.claim(), 0);
}

#[test]
fn is_closable_requires_empty_position() {
    let mut mining = Mining::initialize();
    assert!(mining.is_closable());
    mining.share = 1;
    assert!(!mining.is_closable());
    mining.share = 0;
    mining.stake_from_others = 1;
    assert!(!mining.is_closable());
    mining.stake_from_others = 0;
    mining.unclaimed_rewards = 1;
    assert!(!mining.is_closable());
}

#[test]
fn close_mining_success() {
    let mut pool = RewardPool::initialize();
    let mut mining = Mining::initialize();
    pool.deposit(&mut mining, 100, LockupPeriod::ThreeMonths, BASE).unwrap();
    pool.withdraw(&mut mining, 200, BASE).unwrap();

    assert!(mining.is_closable());
    mining.close(&pool.cumulative_index, BASE).unwrap();
}

#[test]
fn close_when_stake_remains() {
    let mut pool = RewardPool::initialize();
    let mut mining = Mining::initialize();
    pool.deposit(&mut mining, 100, LockupPeriod::ThreeMonths, BASE).unwrap();

    // a position still holding weighted stake of its own may not be closed
    assert_eq!(
        mining.close(&pool.cumulative_index, BASE),
        Err(TrzRewardsError::StakeMustBeWithdrawn)
    );
    assert_eq!(mining.share, 200);
}

#[test]
fn close_when_has_stake_from_others() {
    let mut pool = RewardPool::initialize();
    let mut delegate_mining = Mining::initialize();
    pool.deposit(&mut delegate_mining, 3_000_000, LockupPeriod::OneYear, BASE).unwrap();
    assert_eq!(delegate_mining.share, 18_000_000);
    assert_eq!(delegate_mining.stake_from_others, 0);

    let mut mining = Mining::initialize();
    pool.deposit_delegated(&mut mining, &mut delegate_mining, 100, LockupPeriod::ThreeMonths, BASE)
        .unwrap();

    assert_eq!(
        delegate_mining.close(&pool.cumulative_index, BASE),
        Err(TrzRewardsError::StakeFromOthersMustBeZero)
    );
}

#[test]
fn close_when_has_unclaimed_rewards() {
    let mut pool = RewardPool::initialize();
    let mut mining = Mining::initialize();
    pool.deposit(&mut mining, 100, LockupPeriod::ThreeMonths, BASE).unwrap();
    pool.fill_vault(100, BASE + 100 * DAY, BASE).unwrap();
    let rewards = pool.rewards_to_distribute(BASE).unwrap();
    pool.distribute(rewards, BASE).unwrap();

    let later = BASE + 100 * DAY;
    assert_eq!(
        mining.close(&pool.cumulative_index, later),
        Err(TrzRewardsError::RewardsMustBeClaimed)
    );
}

// A decay scheduled for a day is invisible to any earlier refresh and is
// applied exactly once by the first refresh at or past that day.
#[test]
fn decay_boundary_applies_exactly_once() {
    let mut pool = RewardPool::initialize();
    let mut mining = Mining::initialize();
    pool.deposit(&mut mining, 100, LockupPeriod::ThreeMonths, BASE).unwrap();
    let expiry = BASE - 1000 + 90 * DAY;
    assert_eq!(mining.weighted_stake_diffs.get(expiry), Some(100));

    mining.refresh_rewards(&pool.cumulative_index, BASE + 89 * DAY).unwrap();
    assert_eq!(mining.share, 200);
    assert_eq!(mining.weighted_stake_diffs.get(expiry), Some(100));

    mining.refresh_rewards(&pool.cumulative_index, BASE + 90 * DAY).unwrap();
    assert_eq!(mining.share, 100);
    assert_eq!(mining.weighted_stake_diffs.get(expiry), None);

    mining.refresh_rewards(&pool.cumulative_index, BASE + 400 * DAY).unwrap();
    assert_eq!(mining.share, 100);
}

#[test]
fn initialize_mining_success() {
    let mining = Mining::initialize();
    assert_eq!(mining.share, 0);
    assert_eq!(mining.unclaimed_rewards, 0);
    assert_eq!(mining.stake_from_others, 0);
    assert_eq!(mining.index_with_precision, 0);
    assert_eq!(mining.weighted_stake_diffs.len(), 0);
}
