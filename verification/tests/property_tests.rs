use yield_generator::contract::{delegate, instantiate};
use yield_generator::distribution::restake;
use yield_generator::fraction::Fraction;
use yield_generator::msg::{Coin, DelegateResponse, Env, InstantiateMsg, MessageInfo};
use yield_generator::query;
use yield_generator::state::{Stake, StakeDetails, State};

const TWENTY_EIGHT_DAYS: u64 = 3600 * 24 * 28;
const START_TIME: u64 = 1_571_797_419;

fn coin(amount: u128, denom: &str) -> Coin {
    Coin {
        denom: denom.to_string(),
        amount,
    }
}

fn setup() -> (State, Env) {
    let env = Env {
        height: 12345,
        time: START_TIME,
    };
    let state = instantiate(
        &env,
        InstantiateMsg {
            owner: "owner".to_string(),
            treasury: "treasury".to_string(),
            staking_addr: "validator1".to_string(),
            restake_commission: Fraction::zero(),
            transfer_commission: Fraction::zero(),
            denom: "ujuno".to_string(),
            unbonding_period: Some(TWENTY_EIGHT_DAYS),
            max_entries: Some(7),
        },
    );
    (state, env)
}

fn delegate_funds(state: &mut State, env: &Env, user: &str, amount: u128) {
    let info = MessageInfo {
        sender: user.to_string(),
        funds: vec![coin(amount, "ujuno")],
    };
    delegate(state, env, &info).unwrap();
}

fn delegated(state: &State, user: &str) -> DelegateResponse {
    query::delegated(state, &user.to_string()).delegated[0].clone()
}

#[test]
fn consolidate_twice_yields_same_split() {
    let mut details = StakeDetails {
        total: coin(100, "ujuno"),
        partials: vec![
            Stake {
                amount: coin(50, "ujuno"),
                join_height: 10,
            },
            Stake {
                amount: coin(70, "ujuno"),
                join_height: 30,
            },
        ],
        earnings: 0,
        start_height: 5,
    };

    details.consolidate_partials(20).unwrap();
    let once = details.clone();
    assert_eq!(once.total.amount, 150);
    assert_eq!(
        once.partials,
        vec![Stake {
            amount: coin(70, "ujuno"),
            join_height: 30,
        }]
    );

    details.consolidate_partials(20).unwrap();
    assert_eq!(details, once);
}

#[test]
fn equal_stakes_get_equal_shares() {
    let (mut state, mut env) = setup();

    delegate_funds(&mut state, &env, "user1", 1000);
    delegate_funds(&mut state, &env, "user2", 1000);

    env.height += 100;
    env.time += 500;
    // an odd reward: each of the two equal depositors gets the same share,
    // and only the single odd unit is lost to rounding
    restake(&mut state, &env, coin(101, "ujuno"));

    let user1 = delegated(&state, "user1");
    let user2 = delegated(&state, "user2");
    assert_eq!(user1.total_earnings, user2.total_earnings);
    assert_eq!(user1.total_earnings, 50);
    assert_eq!(user1.total_staked, 1050);
    assert_eq!(user2.total_staked, 1050);
    assert_eq!(query::total(&state).amount.amount, 2100);
}

#[test]
fn restake_with_zero_reward_is_a_noop() {
    let (mut state, mut env) = setup();

    delegate_funds(&mut state, &env, "user1", 1000);
    let before_total = query::total(&state).amount.amount;

    env.height += 100;
    env.time += 500;
    let msgs = restake(&mut state, &env, coin(0, "ujuno"));

    assert!(msgs.reward_msgs.is_empty());
    assert!(msgs.commission_msgs.is_empty());
    assert!(msgs.delegate_msgs.is_empty());
    assert_eq!(query::total(&state).amount.amount, before_total);
    assert_eq!(query::last_payment_block(&state).last_payment_block, 12345);
    assert_eq!(
        delegated(&state, "user1"),
        DelegateResponse {
            start_height: 12345,
            total_staked: 1000,
            total_earnings: 0,
        }
    );
}

#[test]
fn unwrap_stake_details_fills_in_an_empty_position() {
    let stored = StakeDetails {
        total: coin(42, "ujuno"),
        partials: Vec::new(),
        earnings: 7,
        start_height: 100,
    };
    let kept = yield_generator::contract::unwrap_stake_details(
        Some(stored.clone()),
        "ujuno".to_string(),
        500,
    );
    assert_eq!(kept, stored);

    let fresh =
        yield_generator::contract::unwrap_stake_details(None, "ujuno".to_string(), 500);
    assert_eq!(
        fresh,
        StakeDetails {
            total: coin(0, "ujuno"),
            partials: Vec::new(),
            earnings: 0,
            start_height: 500,
        }
    );
}

#[test]
fn restake_emits_withdraw_commission_and_delegate_commands() {
    let env = Env {
        height: 12345,
        time: START_TIME,
    };
    let ten_percent = Fraction::percent(10).unwrap();
    let mut state = instantiate(
        &env,
        InstantiateMsg {
            owner: "owner".to_string(),
            treasury: "treasury".to_string(),
            staking_addr: "validator1".to_string(),
            restake_commission: ten_percent,
            transfer_commission: ten_percent,
            denom: "ujuno".to_string(),
            unbonding_period: Some(TWENTY_EIGHT_DAYS),
            max_entries: Some(7),
        },
    );
    delegate_funds(&mut state, &env, "user1", 50_000_000);

    let later = Env {
        height: 12845,
        time: START_TIME + 2500,
    };
    let msgs = restake(&mut state, &later, coin(3_012, "ujuno"));

    assert_eq!(
        msgs.reward_msgs,
        vec![yield_generator::msg::DistributionMsg::WithdrawDelegatorReward {
            validator: "validator1".to_string(),
        }]
    );
    assert_eq!(
        msgs.commission_msgs,
        vec![yield_generator::msg::BankMsg::Send {
            to_address: "treasury".to_string(),
            amount: vec![coin(301, "ujuno")],
        }]
    );
    assert_eq!(
        msgs.delegate_msgs,
        vec![yield_generator::msg::StakingMsg::Delegate {
            validator: "validator1".to_string(),
            amount: coin(2_711, "ujuno"),
        }]
    );
}

#[test]
fn restake_with_no_weighted_depositor_is_a_noop() {
    let (mut state, mut env) = setup();

    delegate_funds(&mut state, &env, "user1", 1000);
    // the whole vested stake is queued away, leaving a zero-weight position
    yield_generator::unbonding::queue_undelegate(
        &mut state,
        &MessageInfo {
            sender: "user1".to_string(),
            funds: Vec::new(),
        },
        coin(1000, "ujuno"),
    )
    .unwrap();

    env.height += 100;
    env.time += 500;
    let msgs = restake(&mut state, &env, coin(50, "ujuno"));

    assert!(msgs.reward_msgs.is_empty());
    assert!(msgs.commission_msgs.is_empty());
    assert!(msgs.delegate_msgs.is_empty());
    assert_eq!(query::last_payment_block(&state).last_payment_block, 12345);
    assert_eq!(query::total(&state).amount.amount, 1000);
    assert_eq!(query::pending_claim(&state, &"user1".to_string()).amount, 1000);
}
