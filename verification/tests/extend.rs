use trz_rewards::state::mining::Mining;
use trz_rewards::state::reward_pool::RewardPool;
use trz_rewards::utils::{day_floor, LockupPeriod};

const DAY: u64 = 86400;
const BASE: u64 = 1_728_001_000;

fn check_modifier_at_a_day(mining: &Mining, expected_modifier: u64, day_to_check: u64) {
    assert_eq!(mining.weighted_stake_diffs.get(day_to_check), Some(expected_modifier));
}

#[test]
fn restake_before_its_expired() {
    let mut pool = RewardPool::initialize();
    let mut mining = Mining::initialize();
    let deposit_start_ts = BASE;
    let base_amount = 100;
    let additional_amount = 100;
    let old_lockup_period = LockupPeriod::ThreeMonths;
    let new_lockup_period = LockupPeriod::ThreeMonths;

    pool.deposit(&mut mining, 100, old_lockup_period, deposit_start_ts).unwrap();

    // ten days later the old lockup is still active
    let curr_ts = BASE + 10 * DAY;
    pool.extend(
        &mut mining,
        old_lockup_period,
        new_lockup_period,
        deposit_start_ts,
        base_amount,
        additional_amount,
        curr_ts,
    )
        .unwrap();

    // the old expiration-day modifier is fully unwound
    let beginning_of_the_old_expiration_day =
        LockupPeriod::ThreeMonths.end_timestamp(deposit_start_ts).unwrap();
    check_modifier_at_a_day(&mining, 0, beginning_of_the_old_expiration_day);

    // the new expiration-day modifier is in place
    let beginning_of_the_expiration_day =
        LockupPeriod::ThreeMonths.end_timestamp(curr_ts).unwrap();
    check_modifier_at_a_day(&mining, 200, beginning_of_the_expiration_day);

    assert_eq!(mining.share, 400);
}

#[test]
fn restake_for_another_period_after_old_is_expired() {
    let mut pool = RewardPool::initialize();
    let mut mining = Mining::initialize();
    let deposit_start_ts = BASE;
    let base_amount = 100;
    let additional_amount = 100;

    pool.deposit(&mut mining, 100, LockupPeriod::ThreeMonths, deposit_start_ts).unwrap();

    let curr_ts = BASE + 91 * DAY;
    // the old period is handed in as the unlimited one because it expired
    pool.extend(
        &mut mining,
        LockupPeriod::Flex,
        LockupPeriod::OneYear,
        deposit_start_ts,
        base_amount,
        additional_amount,
        curr_ts,
    )
        .unwrap();

    let beginning_of_the_expiration_day = LockupPeriod::OneYear.end_timestamp(curr_ts).unwrap();
    check_modifier_at_a_day(&mining, 1000, beginning_of_the_expiration_day);

    assert_eq!(mining.share, 1200);
}

#[test]
fn just_prolong_without_adding_tokes() {
    let mut pool = RewardPool::initialize();
    let mut mining = Mining::initialize();
    let deposit_start_ts = BASE;
    let base_amount = 100;
    let additional_amount = 0;
    let old_lockup_period = LockupPeriod::ThreeMonths;
    let new_lockup_period = LockupPeriod::ThreeMonths;

    pool.deposit(&mut mining, 100, old_lockup_period, deposit_start_ts).unwrap();

    let curr_ts = BASE + 10 * DAY;
    pool.extend(
        &mut mining,
        old_lockup_period,
        new_lockup_period,
        deposit_start_ts,
        base_amount,
        additional_amount,
        curr_ts,
    )
        .unwrap();

    let beginning_of_the_old_expiration_day =
        LockupPeriod::ThreeMonths.end_timestamp(deposit_start_ts).unwrap();
    check_modifier_at_a_day(&mining, 0, beginning_of_the_old_expiration_day);

    let beginning_of_the_expiration_day =
        LockupPeriod::ThreeMonths.end_timestamp(curr_ts).unwrap();
    check_modifier_at_a_day(&mining, 100, beginning_of_the_expiration_day);

    assert_eq!(mining.share, 200);
}

#[test]
fn restake_after_its_expired_with_no_additional_tokens() {
    let mut pool = RewardPool::initialize();
    let mut mining = Mining::initialize();
    let deposit_start_ts = BASE;

    pool.deposit(&mut mining, 100, LockupPeriod::ThreeMonths, deposit_start_ts).unwrap();

    let curr_ts = BASE + 91 * DAY;
    pool.extend(
        &mut mining,
        LockupPeriod::Flex,
        LockupPeriod::ThreeMonths,
        deposit_start_ts,
        100,
        0,
        curr_ts,
    )
        .unwrap();

    let beginning_of_the_expiration_day =
        LockupPeriod::ThreeMonths.end_timestamp(curr_ts).unwrap();
    check_modifier_at_a_day(&mining, 100, beginning_of_the_expiration_day);

    assert_eq!(mining.share, 200);
}

#[test]
fn restake_in_expiration_day() {
    let mut pool = RewardPool::initialize();
    let mut mining = Mining::initialize();
    let deposit_start_ts = BASE;

    pool.deposit(&mut mining, 100, LockupPeriod::ThreeMonths, deposit_start_ts).unwrap();

    let curr_ts = BASE + 90 * DAY;
    pool.extend(
        &mut mining,
        LockupPeriod::Flex,
        LockupPeriod::ThreeMonths,
        deposit_start_ts,
        100,
        0,
        curr_ts,
    )
        .unwrap();

    let beginning_of_the_expiration_day =
        LockupPeriod::ThreeMonths.end_timestamp(curr_ts).unwrap();
    check_modifier_at_a_day(&mining, 100, beginning_of_the_expiration_day);

    assert_eq!(mining.share, 200);
}

#[test]
fn prolong_with_delegate() {
    let mut pool = RewardPool::initialize();
    let mut delegate_mining = Mining::initialize();
    pool.deposit(&mut delegate_mining, 3_000_000, LockupPeriod::OneYear, BASE).unwrap();
    assert_eq!(delegate_mining.share, 18_000_000);
    assert_eq!(delegate_mining.stake_from_others, 0);

    let deposit_start_ts = BASE;
    let base_amount = 100;
    let additional_amount = 0;
    let old_lockup_period = LockupPeriod::ThreeMonths;
    let new_lockup_period = LockupPeriod::ThreeMonths;

    let mut mining = Mining::initialize();
    pool.deposit_delegated(
        &mut mining,
        &mut delegate_mining,
        base_amount,
        old_lockup_period,
        deposit_start_ts,
    )
        .unwrap();
    assert_eq!(mining.share, 200);
    assert_eq!(mining.stake_from_others, 0);
    assert_eq!(delegate_mining.share, 18_000_000);
    assert_eq!(delegate_mining.stake_from_others, 100);
    assert_eq!(pool.total_share, 18_000_300);

    let curr_ts = BASE + 10 * DAY;
    pool.extend_delegated(
        &mut mining,
        &mut delegate_mining,
        old_lockup_period,
        new_lockup_period,
        deposit_start_ts,
        base_amount,
        additional_amount,
        curr_ts,
    )
        .unwrap();

    let beginning_of_the_old_expiration_day =
        LockupPeriod::ThreeMonths.end_timestamp(deposit_start_ts).unwrap();
    check_modifier_at_a_day(&mining, 0, beginning_of_the_old_expiration_day);

    let beginning_of_the_expiration_day =
        LockupPeriod::ThreeMonths.end_timestamp(curr_ts).unwrap();
    check_modifier_at_a_day(&mining, 100, beginning_of_the_expiration_day);

    assert_eq!(mining.share, 200);
    assert_eq!(delegate_mining.stake_from_others, 100);
    assert_eq!(pool.total_share, 18_000_300);
    assert_eq!(day_floor(beginning_of_the_expiration_day), beginning_of_the_expiration_day);
}
