use yield_generator::contract::{delegate, instantiate};
use yield_generator::distribution::restake;
use yield_generator::unbonding::{batch_unbond, claim, queue_undelegate, undelegate_all};
use yield_generator::error::ContractError;
use yield_generator::fraction::Fraction;
use yield_generator::msg::{BankMsg, Coin, DelegateResponse, Env, InstantiateMsg, MessageInfo};
use yield_generator::query;
use yield_generator::state::{ClaimDetails, State};

const TWENTY_EIGHT_DAYS: u64 = 3600 * 24 * 28;
const START_TIME: u64 = 1_571_797_419;

fn coin(amount: u128, denom: &str) -> Coin {
    Coin {
        denom: denom.to_string(),
        amount,
    }
}

fn info(sender: &str) -> MessageInfo {
    MessageInfo {
        sender: sender.to_string(),
        funds: Vec::new(),
    }
}

fn setup() -> (State, Env) {
    let env = Env {
        height: 12345,
        time: START_TIME,
    };
    let state = instantiate(
        &env,
        InstantiateMsg {
            owner: "owner".to_string(),
            treasury: "treasury".to_string(),
            staking_addr: "validator1".to_string(),
            restake_commission: Fraction::zero(),
            transfer_commission: Fraction::zero(),
            denom: "ujuno".to_string(),
            unbonding_period: Some(TWENTY_EIGHT_DAYS),
            max_entries: Some(7),
        },
    );
    (state, env)
}

fn delegate_funds(state: &mut State, env: &Env, user: &str, amount: u128) {
    let info = MessageInfo {
        sender: user.to_string(),
        funds: vec![coin(amount, "ujuno")],
    };
    delegate(state, env, &info).unwrap();
}

fn delegated(state: &State, user: &str) -> DelegateResponse {
    query::delegated(state, &user.to_string()).delegated[0].clone()
}

fn claims(state: &State, user: &str) -> Vec<ClaimDetails> {
    query::claims(state, &user.to_string()).claims
}

#[test]
fn cant_undelegate_partially_delegated_tokens() {
    let user = "user";
    let (mut state, mut env) = setup();

    delegate_funds(&mut state, &env, user, 500);

    // with no restake since, the next deposit stays partial
    env.height += 500;
    env.time += 500 * 5;
    delegate_funds(&mut state, &env, user, 600);
    assert_eq!(
        delegated(&state, user),
        DelegateResponse {
            start_height: 12345,
            total_staked: 1100,
            total_earnings: 0,
        }
    );

    let err = queue_undelegate(&mut state, &info(user), coin(700, "ujuno")).unwrap_err();
    assert_eq!(
        ContractError::NotEnoughToUndelegate {
            wanted: 700,
            have: 500
        },
        err
    );

    queue_undelegate(&mut state, &info(user), coin(500, "ujuno")).unwrap();
    batch_unbond(&mut state, &env).unwrap();
    let current_time = env.time;
    assert_eq!(
        claims(&state, user),
        vec![ClaimDetails {
            amount: coin(500, "ujuno"),
            release_timestamp: current_time + TWENTY_EIGHT_DAYS,
        }]
    );
    assert_eq!(
        delegated(&state, user),
        DelegateResponse {
            start_height: 12345,
            total_staked: 600,
            total_earnings: 0,
        }
    );
}

#[test]
fn unexpired_claims_arent_removed() {
    let user = "user";
    let (mut state, mut env) = setup();

    delegate_funds(&mut state, &env, user, 500);
    queue_undelegate(&mut state, &info(user), coin(500, "ujuno")).unwrap();
    batch_unbond(&mut state, &env).unwrap();

    let t0 = env.time;
    assert_eq!(
        claims(&state, user),
        vec![ClaimDetails {
            amount: coin(500, "ujuno"),
            release_timestamp: t0 + TWENTY_EIGHT_DAYS,
        }]
    );

    // advance half the unbonding period to create a claim with another timestamp
    env.time += TWENTY_EIGHT_DAYS / 2;
    env.height += TWENTY_EIGHT_DAYS / 2 / 5;
    delegate_funds(&mut state, &env, user, 700);
    restake(&mut state, &env, coin(14, "ujuno"));
    queue_undelegate(&mut state, &info(user), coin(700, "ujuno")).unwrap();
    batch_unbond(&mut state, &env).unwrap();

    // nothing has matured yet
    let current_time = env.time;
    claim(&mut state, &env, &info(user)).unwrap();
    assert_eq!(
        claims(&state, user),
        vec![
            ClaimDetails {
                amount: coin(500, "ujuno"),
                release_timestamp: current_time + TWENTY_EIGHT_DAYS / 2,
            },
            ClaimDetails {
                amount: coin(700, "ujuno"),
                release_timestamp: current_time + TWENTY_EIGHT_DAYS,
            },
        ]
    );

    // let the first claim mature
    env.time += TWENTY_EIGHT_DAYS / 2;
    env.height += TWENTY_EIGHT_DAYS / 2 / 5;
    let current_time = env.time;
    claim(&mut state, &env, &info(user)).unwrap();
    assert_eq!(
        claims(&state, user),
        vec![ClaimDetails {
            amount: coin(700, "ujuno"),
            release_timestamp: current_time + TWENTY_EIGHT_DAYS / 2,
        }]
    );
}

#[test]
fn undelegate_without_delegation() {
    let (mut state, _env) = setup();

    let err = queue_undelegate(&mut state, &info("random_user"), coin(1, "ujuno")).unwrap_err();
    assert_eq!(ContractError::DelegationNotFound {}, err);
}

#[test]
fn deposit_then_undelegate_before_restake_fails() {
    let user = "user";
    let (mut state, mut env) = setup();

    // the deposit arrives after the last payment height, so it stays partial
    env.height += 1;
    env.time += 5;
    delegate_funds(&mut state, &env, user, 100);

    let err = queue_undelegate(&mut state, &info(user), coin(100, "ujuno")).unwrap_err();
    assert_eq!(
        ContractError::NotEnoughToUndelegate {
            wanted: 100,
            have: 0
        },
        err
    );
}

#[test]
fn claim_lifecycle() {
    let user = "user";
    let (mut state, mut env) = setup();

    delegate_funds(&mut state, &env, user, 100);
    queue_undelegate(&mut state, &info(user), coin(100, "ujuno")).unwrap();
    batch_unbond(&mut state, &env).unwrap();

    let t0 = env.time;
    assert_eq!(
        claims(&state, user),
        vec![ClaimDetails {
            amount: coin(100, "ujuno"),
            release_timestamp: t0 + TWENTY_EIGHT_DAYS,
        }]
    );

    // before the unbonding period has elapsed nothing is paid out and the
    // claim list is unchanged
    let msgs = claim(&mut state, &env, &info(user)).unwrap();
    assert_eq!(msgs, Vec::<BankMsg>::new());
    assert_eq!(
        claims(&state, user),
        vec![ClaimDetails {
            amount: coin(100, "ujuno"),
            release_timestamp: t0 + TWENTY_EIGHT_DAYS,
        }]
    );

    // after the unbonding period the claim is removed and paid out
    env.time += TWENTY_EIGHT_DAYS;
    env.height += TWENTY_EIGHT_DAYS / 5;
    let msgs = claim(&mut state, &env, &info(user)).unwrap();
    assert_eq!(
        msgs,
        vec![BankMsg::Send {
            to_address: user.to_string(),
            amount: vec![coin(100, "ujuno")],
        }]
    );
    assert_eq!(claims(&state, user), Vec::<ClaimDetails>::new());
}

#[test]
fn batched_release_two_depositors() {
    let (mut state, env) = setup();

    delegate_funds(&mut state, &env, "user1", 100);
    delegate_funds(&mut state, &env, "user2", 100);
    queue_undelegate(&mut state, &info("user1"), coin(100, "ujuno")).unwrap();
    queue_undelegate(&mut state, &info("user2"), coin(100, "ujuno")).unwrap();

    assert_eq!(query::pending_claim(&state, &"user1".to_string()).amount, 100);
    assert_eq!(query::pending_claim(&state, &"user2".to_string()).amount, 100);

    batch_unbond(&mut state, &env).unwrap();

    let release = env.time + TWENTY_EIGHT_DAYS;
    assert_eq!(
        claims(&state, "user1"),
        vec![ClaimDetails {
            amount: coin(100, "ujuno"),
            release_timestamp: release,
        }]
    );
    assert_eq!(
        claims(&state, "user2"),
        vec![ClaimDetails {
            amount: coin(100, "ujuno"),
            release_timestamp: release,
        }]
    );
    assert_eq!(query::pending_claim(&state, &"user1".to_string()).amount, 0);
    assert_eq!(query::pending_claim(&state, &"user2".to_string()).amount, 0);

    // a second release in the same cooldown window is refused
    let err = batch_unbond(&mut state, &env).unwrap_err();
    assert_eq!(
        err,
        ContractError::UnbondingCooldownNotExpired {
            latest_unbonding: env.time,
            min_cooldown: TWENTY_EIGHT_DAYS / 7,
        }
    );
}

#[test]
fn undelegate_all_owner_only() {
    let (mut state, env) = setup();

    delegate_funds(&mut state, &env, "user1", 700);

    let err = undelegate_all(&mut state, &env, &info("user1")).unwrap_err();
    assert_eq!(ContractError::Unauthorized {}, err);

    undelegate_all(&mut state, &env, &info("owner")).unwrap();
    assert_eq!(
        claims(&state, "user1"),
        vec![ClaimDetails {
            amount: coin(700, "ujuno"),
            release_timestamp: env.time + TWENTY_EIGHT_DAYS,
        }]
    );
    assert_eq!(query::total(&state).amount.amount, 0);
    // the fully zeroed position is deleted
    assert_eq!(
        query::delegated(&state, &"user1".to_string()).delegated,
        Vec::<DelegateResponse>::new()
    );
}

#[test]
fn delegate_without_funds_is_refused() {
    let (mut state, env) = setup();

    let err = delegate(&mut state, &env, &info("user")).unwrap_err();
    assert_eq!(ContractError::NoFunds {}, err);
}

#[test]
fn delegate_overflowing_the_pool_is_refused() {
    let (mut state, env) = setup();

    delegate_funds(&mut state, &env, "user1", u128::MAX);
    let funded = MessageInfo {
        sender: "user2".to_string(),
        funds: vec![coin(1, "ujuno")],
    };
    let err = delegate(&mut state, &env, &funded).unwrap_err();
    assert_eq!(ContractError::Overflow {}, err);
}
