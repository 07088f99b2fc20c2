use trz_rewards::state::mining::Mining;
use trz_rewards::state::reward_pool::RewardPool;
use trz_rewards::utils::LockupPeriod;

const DAY: u64 = 86400;
const BASE: u64 = 1_728_001_000;

fn run_distribution(pool: &mut RewardPool, now: u64) {
    let rewards = pool.rewards_to_distribute(now).unwrap();
    pool.distribute(rewards, now).unwrap();
}

fn claim_amount(pool: &RewardPool, mining: &mut Mining, now: u64) -> u64 {
    mining.refresh_rewards(&pool.cumulative_index, now).unwrap();
    mining.claim()
}

#[test]
fn with_two_users() {
    let mut pool = RewardPool::initialize();
    let mut user_a = Mining::initialize();
    pool.deposit(&mut user_a, 100, LockupPeriod::ThreeMonths, BASE).unwrap();
    let mut user_b = Mining::initialize();
    pool.deposit(&mut user_b, 100, LockupPeriod::ThreeMonths, BASE).unwrap();

    pool.fill_vault(100, BASE + DAY, BASE).unwrap();
    run_distribution(&mut pool, BASE);

    assert_eq!(claim_amount(&pool, &mut user_a, BASE), 50);
    assert_eq!(claim_amount(&pool, &mut user_b, BASE), 50);
}

#[test]
fn flex_vs_three_months() {
    let mut pool = RewardPool::initialize();
    let mut user_a = Mining::initialize();
    pool.deposit(&mut user_a, 100, LockupPeriod::ThreeMonths, BASE).unwrap();

    // three months later the first deposit has decayed to its baseline
    let later = BASE + 91 * DAY;
    let mut user_b = Mining::initialize();
    pool.deposit(&mut user_b, 100, LockupPeriod::ThreeMonths, later).unwrap();

    pool.fill_vault(1_000, later + DAY, later).unwrap();
    run_distribution(&mut pool, later);

    assert_eq!(claim_amount(&pool, &mut user_a, later), 333);
    assert_eq!(claim_amount(&pool, &mut user_b, later), 666);
}

// User 1: lockup for ThreeMonth, 5 distributions, 1 claim
// User 2: lockup for OneYear, 5 distributions, 5 claims
#[test]
fn multiple_consequantial_distributions_for_two_users() {
    let mut pool = RewardPool::initialize();
    let mut user_a = Mining::initialize();
    pool.deposit(&mut user_a, 100, LockupPeriod::ThreeMonths, BASE).unwrap();
    let mut user_b = Mining::initialize();
    pool.deposit(&mut user_b, 100, LockupPeriod::OneYear, BASE).unwrap();

    pool.fill_vault(500, BASE + 6 * DAY, BASE).unwrap();

    let mut claimed_b: u64 = 0;
    for i in 0..5 {
        let now = BASE + i * DAY;
        run_distribution(&mut pool, now);
        claimed_b += claim_amount(&pool, &mut user_b, now);
    }
    let end = BASE + 5 * DAY;
    claimed_b += claim_amount(&pool, &mut user_b, end);
    let claimed_a = claim_amount(&pool, &mut user_a, end);

    assert_eq!(claimed_a, 125);
    assert_eq!(claimed_b, 375);
}

#[test]
fn rewards_after_distribution_are_unclaimable() {
    let mut pool = RewardPool::initialize();
    let mut user_a = Mining::initialize();
    pool.deposit(&mut user_a, 100, LockupPeriod::ThreeMonths, BASE).unwrap();

    pool.fill_vault(1000, BASE + DAY, BASE).unwrap();
    run_distribution(&mut pool, BASE);
    assert_eq!(claim_amount(&pool, &mut user_a, BASE), 1_000);

    let later = BASE + 1000 * DAY;
    pool.fill_vault(100, later + DAY, later).unwrap();

    // a deposit made after the distribution earns nothing from it
    let mut user_b = Mining::initialize();
    pool.deposit(&mut user_b, 100, LockupPeriod::OneYear, later).unwrap();
    assert_eq!(claim_amount(&pool, &mut user_b, later), 0);
}

#[test]
fn switch_to_flex_is_correct() {
    let mut pool = RewardPool::initialize();
    let mut user_a = Mining::initialize();
    pool.deposit(&mut user_a, 100, LockupPeriod::ThreeMonths, BASE).unwrap();
    let mut user_b = Mining::initialize();
    pool.deposit(&mut user_b, 100, LockupPeriod::OneYear, BASE).unwrap();

    // day 91: the first deposit has expired down to its baseline
    let later = BASE + 91 * DAY;
    pool.fill_vault(100, later + DAY, later).unwrap();
    run_distribution(&mut pool, later);

    assert_eq!(claim_amount(&pool, &mut user_a, later), 14);
    assert_eq!(claim_amount(&pool, &mut user_b, later), 85);
}

#[test]
fn two_deposits_vs_one() {
    let mut pool = RewardPool::initialize();
    let mut user_a = Mining::initialize();
    pool.deposit(&mut user_a, 100, LockupPeriod::OneYear, BASE).unwrap();
    let mut user_b = Mining::initialize();
    pool.deposit(&mut user_b, 50, LockupPeriod::OneYear, BASE).unwrap();
    pool.deposit(&mut user_b, 50, LockupPeriod::OneYear, BASE).unwrap();

    pool.fill_vault(1000, BASE + DAY, BASE).unwrap();
    run_distribution(&mut pool, BASE);

    assert_eq!(claim_amount(&pool, &mut user_a, BASE), 499);
    assert_eq!(claim_amount(&pool, &mut user_b, BASE), 499);
}

#[test]
fn claim_tokens_after_deposit_expiration() {
    let mut pool = RewardPool::initialize();
    let mut user_a = Mining::initialize();
    pool.deposit(&mut user_a, 100, LockupPeriod::OneYear, BASE).unwrap();
    let mut user_b = Mining::initialize();
    pool.deposit(&mut user_b, 300, LockupPeriod::ThreeMonths, BASE).unwrap();

    pool.fill_vault(1000, BASE + DAY, BASE).unwrap();
    run_distribution(&mut pool, BASE);

    let later = BASE + 180 * DAY;
    assert_eq!(claim_amount(&pool, &mut user_a, later), 499);
    assert_eq!(claim_amount(&pool, &mut user_b, later), 499);
}

#[test]
fn claim_after_withdraw_is_correct() {
    let mut pool = RewardPool::initialize();
    let mut user_a = Mining::initialize();
    pool.deposit(&mut user_a, 100, LockupPeriod::OneYear, BASE).unwrap();
    let mut user_b = Mining::initialize();
    pool.deposit(&mut user_b, 50, LockupPeriod::OneYear, BASE).unwrap();
    pool.deposit(&mut user_b, 150, LockupPeriod::ThreeMonths, BASE).unwrap();

    pool.fill_vault(100, BASE + DAY, BASE).unwrap();
    run_distribution(&mut pool, BASE);

    let mut claimed_a = claim_amount(&pool, &mut user_a, BASE);
    let mut claimed_b = claim_amount(&pool, &mut user_b, BASE);
    assert_eq!(claimed_a, 49);
    assert_eq!(claimed_b, 49);

    // T = 1200, A = 600, B = 300 + 300

    // three months ahead the three-month deposit has expired
    let second = BASE + 91 * DAY;
    pool.fill_vault(100, second + DAY, second).unwrap();
    run_distribution(&mut pool, second);

    // T = 1050, A = 600, B = 300 + 150
    claimed_a += claim_amount(&pool, &mut user_a, second);
    claimed_b += claim_amount(&pool, &mut user_b, second);
    assert_eq!(claimed_a, 49 + 57);
    assert_eq!(claimed_b, 49 + 42);

    pool.withdraw(&mut user_b, 150, second).unwrap();

    let third = second + DAY;
    pool.fill_vault(100, third + DAY, third).unwrap();
    run_distribution(&mut pool, third);

    claimed_a += claim_amount(&pool, &mut user_a, third);
    claimed_b += claim_amount(&pool, &mut user_b, third);
    assert_eq!(claimed_a, 172);
    assert_eq!(claimed_b, 124);
}

#[test]
fn with_two_users_with_flex() {
    let mut pool = RewardPool::initialize();
    let mut user_a = Mining::initialize();
    pool.deposit(&mut user_a, 100, LockupPeriod::Flex, BASE).unwrap();
    let mut user_b = Mining::initialize();
    pool.deposit(&mut user_b, 100, LockupPeriod::Flex, BASE).unwrap();

    pool.fill_vault(100, BASE + DAY, BASE).unwrap();
    run_distribution(&mut pool, BASE);

    assert_eq!(claim_amount(&pool, &mut user_a, BASE), 50);
    assert_eq!(claim_amount(&pool, &mut user_b, BASE), 50);
}

#[test]
fn claim_with_delegate() {
    let mut pool = RewardPool::initialize();
    let mut delegate = Mining::initialize();
    pool.deposit(&mut delegate, 3_000_000, LockupPeriod::OneYear, BASE).unwrap();
    assert_eq!(delegate.share, 18_000_000);
    assert_eq!(delegate.stake_from_others, 0);

    let mut user_a = Mining::initialize();
    pool.deposit_delegated(&mut user_a, &mut delegate, 1_000_000, LockupPeriod::OneYear, BASE)
        .unwrap();
    assert_eq!(delegate.share, 18_000_000);
    assert_eq!(delegate.stake_from_others, 1_000_000);
    assert_eq!(pool.total_share, 25_000_000);
    assert_eq!(user_a.share, 6_000_000);

    pool.fill_vault(1_000_000, BASE, BASE).unwrap();
    run_distribution(&mut pool, BASE);

    assert_eq!(claim_amount(&pool, &mut user_a, BASE), 240_000);
    assert_eq!(claim_amount(&pool, &mut delegate, BASE), 760_000);
}

#[test]
fn change_delegate_then_claim() {
    let mut pool = RewardPool::initialize();
    let mut delegate = Mining::initialize();
    pool.deposit(&mut delegate, 3_000_000, LockupPeriod::OneYear, BASE).unwrap();
    assert_eq!(delegate.share, 18_000_000);
    assert_eq!(delegate.stake_from_others, 0);

    let mut user_a = Mining::initialize();
    pool.deposit(&mut user_a, 1_000_000, LockupPeriod::OneYear, BASE).unwrap();
    pool.change_delegate_from_self(&mut user_a, &mut delegate, 1_000_000, BASE).unwrap();

    assert_eq!(delegate.share, 18_000_000);
    assert_eq!(delegate.stake_from_others, 1_000_000);
    assert_eq!(pool.total_share, 25_000_000);
    assert_eq!(user_a.share, 6_000_000);

    pool.fill_vault(1_000_000, BASE, BASE).unwrap();
    run_distribution(&mut pool, BASE);

    assert_eq!(claim_amount(&pool, &mut user_a, BASE), 240_000);
    assert_eq!(claim_amount(&pool, &mut delegate, BASE), 760_000);
}

#[test]
fn precision_distribution() {
    let mut pool = RewardPool::initialize();
    let mut rich_user = Mining::initialize();
    pool.deposit(&mut rich_user, 333_333_316 * 1_000_000, LockupPeriod::Flex, BASE).unwrap();
    let mut user = Mining::initialize();
    pool.deposit(&mut user, 17 * 1_000_000, LockupPeriod::Flex, BASE).unwrap();

    pool.fill_vault(5000 * 1_000_000, BASE + 30 * DAY, BASE).unwrap();

    for i in 0..30 {
        run_distribution(&mut pool, BASE + i * DAY);
    }

    assert_eq!(claim_amount(&pool, &mut user, BASE + 30 * DAY), 254);
}
