use yield_generator::contract::{
    delegate, instantiate, remove_allowed_address, transfer, update_allowed_address,
};
use yield_generator::distribution::restake;
use yield_generator::error::ContractError;
use yield_generator::fraction::Fraction;
use yield_generator::msg::{Coin, DelegateResponse, Env, InstantiateMsg, MessageInfo};
use yield_generator::query;
use yield_generator::state::State;

const TWENTY_EIGHT_DAYS: u64 = 3600 * 24 * 28;
const START_TIME: u64 = 1_571_797_419;

fn coin(amount: u128, denom: &str) -> Coin {
    Coin {
        denom: denom.to_string(),
        amount,
    }
}

fn info(sender: &str) -> MessageInfo {
    MessageInfo {
        sender: sender.to_string(),
        funds: Vec::new(),
    }
}

fn setup_with_commission(percent: u64) -> (State, Env) {
    let env = Env {
        height: 12345,
        time: START_TIME,
    };
    let commission = Fraction::percent(percent).unwrap();
    let state = instantiate(
        &env,
        InstantiateMsg {
            owner: "owner".to_string(),
            treasury: "treasury".to_string(),
            staking_addr: "validator1".to_string(),
            restake_commission: commission,
            transfer_commission: commission,
            denom: "ujuno".to_string(),
            unbonding_period: Some(TWENTY_EIGHT_DAYS),
            max_entries: Some(7),
        },
    );
    (state, env)
}

fn delegate_funds(state: &mut State, env: &Env, user: &str, amount: u128) {
    let info = MessageInfo {
        sender: user.to_string(),
        funds: vec![coin(amount, "ujuno")],
    };
    delegate(state, env, &info).unwrap();
}

fn delegated(state: &State, user: &str) -> DelegateResponse {
    query::delegated(state, &user.to_string()).delegated[0].clone()
}

#[test]
fn transfer_with_commission() {
    let user1 = ("user1", 50_000_000u128);
    let user2 = "user2";
    let (mut state, mut env) = setup_with_commission(10);

    assert_eq!(
        query::config(&state).config.restake_commission,
        Fraction::percent(10).unwrap()
    );

    delegate_funds(&mut state, &env, user1.0, user1.1);

    assert_eq!(
        delegated(&state, user1.0),
        DelegateResponse {
            start_height: 12345,
            total_staked: user1.1,
            total_earnings: 0,
        }
    );
    assert_eq!(query::total(&state).amount, coin(user1.1, "ujuno"));

    env.height += 500;
    env.time += 500 * 5;
    // gross reward 3_012: a 10% commission of 301 leaves 2_711 to credit
    restake(&mut state, &env, coin(3_012, "ujuno"));

    transfer(&mut state, &env, &user1.0.to_string(), &user2.to_string(), 30_000_000, &None)
        .unwrap();
    assert_eq!(
        delegated(&state, user1.0),
        DelegateResponse {
            start_height: 12345,
            total_staked: 20_002_711,
            total_earnings: 2_711,
        }
    );
    assert_eq!(
        delegated(&state, user2),
        DelegateResponse {
            start_height: 12345 + 500,
            total_staked: 30_000_000 - 3_000_000,
            total_earnings: 0,
        }
    );
    assert_eq!(
        delegated(&state, "treasury"),
        DelegateResponse {
            start_height: 12345 + 500,
            total_staked: 3_000_000,
            total_earnings: 0,
        }
    );
    assert_eq!(query::total(&state).amount, coin(50_002_711, "ujuno"));
}

#[test]
fn transfer_with_allowed_address() {
    let user1 = ("user1", 50_000_000u128);
    let user2 = "user2";
    let allowed1 = "allowed_address1";
    let allowed2 = "allowed_address2";
    let (mut state, mut env) = setup_with_commission(10);

    assert_eq!(
        query::config(&state).config.restake_commission,
        Fraction::percent(10).unwrap()
    );

    delegate_funds(&mut state, &env, user1.0, user1.1);
    env.height += 500;
    env.time += 500 * 5;
    restake(&mut state, &env, coin(3_012, "ujuno"));

    let err = transfer(
        &mut state,
        &env,
        &user1.0.to_string(),
        &allowed1.to_string(),
        30_000_000,
        &Some(allowed1.to_string()),
    )
    .unwrap_err();
    assert_eq!(
        err,
        ContractError::CommissionAddressNotFound {
            address: allowed1.to_string()
        }
    );

    update_allowed_address(
        &mut state,
        &env,
        &info("owner"),
        allowed1.to_string(),
        env.time + TWENTY_EIGHT_DAYS,
    )
    .unwrap();

    let expiration = query::allowed_addr(&state, &allowed1.to_string()).unwrap();
    assert_eq!(expiration.expires, env.time + TWENTY_EIGHT_DAYS);

    update_allowed_address(
        &mut state,
        &env,
        &info("owner"),
        allowed2.to_string(),
        env.time + TWENTY_EIGHT_DAYS - 1,
    )
    .unwrap_err();

    update_allowed_address(
        &mut state,
        &env,
        &info("owner"),
        allowed2.to_string(),
        env.time + TWENTY_EIGHT_DAYS,
    )
    .unwrap();

    transfer(
        &mut state,
        &env,
        &user1.0.to_string(),
        &user2.to_string(),
        30_000_000,
        &Some(allowed1.to_string()),
    )
    .unwrap();

    assert_eq!(delegated(&state, user1.0).total_staked, 20_002_711);
    assert_eq!(delegated(&state, user2).total_staked, 27_000_000);
    assert_eq!(delegated(&state, "treasury").total_staked, 1_500_000);
    assert_eq!(delegated(&state, allowed1).total_staked, 1_500_000);

    remove_allowed_address(&mut state, &info("owner"), &allowed2.to_string()).unwrap();

    let err = transfer(
        &mut state,
        &env,
        &user2.to_string(),
        &user1.0.to_string(),
        20_000_000,
        &Some(allowed2.to_string()),
    )
    .unwrap_err();
    assert_eq!(
        err,
        ContractError::CommissionAddressNotFound {
            address: allowed2.to_string()
        }
    );
}

#[test]
fn transfer_commission_address_expired() {
    let user1 = ("user1", 50_000_000u128);
    let allowed1 = "allowed_address1";
    let (mut state, mut env) = setup_with_commission(10);

    delegate_funds(&mut state, &env, user1.0, user1.1);
    // vest the deposit so there is something to transfer
    env.height += 1;
    env.time += 5;
    restake(&mut state, &env, coin(1, "ujuno"));
    update_allowed_address(
        &mut state,
        &env,
        &info("owner"),
        allowed1.to_string(),
        env.time + TWENTY_EIGHT_DAYS,
    )
    .unwrap();

    env.time += TWENTY_EIGHT_DAYS;
    env.height += TWENTY_EIGHT_DAYS / 5;

    let err = transfer(
        &mut state,
        &env,
        &user1.0.to_string(),
        &"user2".to_string(),
        10_000_000,
        &Some(allowed1.to_string()),
    )
    .unwrap_err();
    assert_eq!(
        err,
        ContractError::CommissionAddressExpired {
            address: allowed1.to_string()
        }
    );
}

#[test]
fn transfer_commission_address_same_as_recipient() {
    let user1 = ("user1", 50_000_000u128);
    let allowed1 = "allowed_address1";
    let (mut state, mut env) = setup_with_commission(10);

    delegate_funds(&mut state, &env, user1.0, user1.1);
    // vest the deposit so there is something to transfer
    env.height += 1;
    env.time += 5;
    restake(&mut state, &env, coin(1, "ujuno"));
    update_allowed_address(
        &mut state,
        &env,
        &info("owner"),
        allowed1.to_string(),
        env.time + TWENTY_EIGHT_DAYS,
    )
    .unwrap();

    let err = transfer(
        &mut state,
        &env,
        &user1.0.to_string(),
        &allowed1.to_string(),
        10_000_000,
        &Some(allowed1.to_string()),
    )
    .unwrap_err();
    assert_eq!(err, ContractError::CommissionAddressSameAsRecipient {});
}
