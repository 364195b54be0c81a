use yield_generator::contract::{instantiate, update_config};
use yield_generator::unbonding::check_unbonding_cooldown;
use yield_generator::error::ContractError;
use yield_generator::fraction::Fraction;
use yield_generator::msg::{Env, InstantiateMsg, MessageInfo};
use yield_generator::query;
use yield_generator::state::{Config, State};

const TWENTY_EIGHT_DAYS: u64 = 3600 * 24 * 28;
const START_TIME: u64 = 1_571_797_419;

fn base_env() -> Env {
    Env {
        height: 12345,
        time: START_TIME,
    }
}

fn zero() -> Fraction {
    Fraction::zero()
}

fn percent(p: u64) -> Fraction {
    Fraction::percent(p).unwrap()
}

fn setup() -> State {
    instantiate(
        &base_env(),
        InstantiateMsg {
            owner: "owner".to_string(),
            treasury: "treasury".to_string(),
            staking_addr: "validator1".to_string(),
            restake_commission: zero(),
            transfer_commission: zero(),
            denom: "ujuno".to_string(),
            unbonding_period: Some(TWENTY_EIGHT_DAYS),
            max_entries: Some(7),
        },
    )
}

fn info(sender: &str) -> MessageInfo {
    MessageInfo {
        sender: sender.to_string(),
        funds: Vec::new(),
    }
}

fn validator_list(i: u32) -> Vec<(String, Fraction)> {
    let weight = Fraction::from_ratio(1u128, i as u128).unwrap();
    (0..i)
        .map(|k| (format!("validator{}", k + 1), weight))
        .collect()
}

fn two_false_validators() -> Vec<(String, Fraction)> {
    vec![
        ("validator1".to_string(), percent(25)),
        ("validator2".to_string(), percent(50)),
    ]
}

#[test]
fn update_not_owner() {
    let mut state = setup();

    let err = update_config(&mut state, &info("random_user"), None, None, None, None, None)
        .unwrap_err();
    assert_eq!(ContractError::Unauthorized {}, err);
}

#[test]
fn proper_update() {
    let mut state = setup();
    let env = base_env();

    let expected = |owner: &str, treasury: &str, commission: Fraction, unbonding: u64| Config {
        owner: owner.to_string(),
        treasury: treasury.to_string(),
        restake_commission: commission,
        transfer_commission: zero(),
        denom: "ujuno".to_string(),
        unbonding_period: unbonding,
        min_unbonding_cooldown: TWENTY_EIGHT_DAYS / 7,
    };
    let _ = env;
    assert_eq!(
        query::config(&state).config,
        expected("owner", "treasury", zero(), TWENTY_EIGHT_DAYS)
    );

    update_config(&mut state, &info("owner"), None, None, None, None, None).unwrap();
    assert_eq!(
        query::config(&state).config,
        expected("owner", "treasury", zero(), TWENTY_EIGHT_DAYS)
    );

    let new_commission = percent(5);
    update_config(
        &mut state,
        &info("owner"),
        None,
        None,
        Some(new_commission),
        None,
        None,
    )
    .unwrap();
    assert_eq!(
        query::config(&state).config,
        expected("owner", "treasury", new_commission, TWENTY_EIGHT_DAYS)
    );

    let new_unbonding_period = 300_000_000u64;
    update_config(
        &mut state,
        &info("owner"),
        None,
        None,
        None,
        None,
        Some(new_unbonding_period),
    )
    .unwrap();
    assert_eq!(
        query::config(&state).config,
        expected("owner", "treasury", new_commission, new_unbonding_period)
    );

    update_config(
        &mut state,
        &info("owner"),
        None,
        Some("new_treasury".to_string()),
        None,
        None,
        None,
    )
    .unwrap();
    assert_eq!(
        query::config(&state).config,
        expected("owner", "new_treasury", new_commission, new_unbonding_period)
    );

    update_config(
        &mut state,
        &info("owner"),
        Some("new_owner".to_string()),
        None,
        None,
        None,
        None,
    )
    .unwrap();
    assert_eq!(
        query::config(&state).config,
        expected("new_owner", "new_treasury", new_commission, new_unbonding_period)
    );

    // the old owner may no longer update anything
    let err = update_config(&mut state, &info("owner"), None, None, None, None, None)
        .unwrap_err();
    assert_eq!(ContractError::Unauthorized {}, err);
}

#[test]
fn update_validator_list() {
    let mut state = setup();

    yield_generator::contract::update_validator_list(&mut state, &info("owner"), validator_list(1))
        .unwrap();
    assert_eq!(query::validator_list(&state).validators, validator_list(1));

    yield_generator::contract::update_validator_list(&mut state, &info("owner"), validator_list(2))
        .unwrap();
    assert_eq!(query::validator_list(&state).validators, validator_list(2));

    let err = yield_generator::contract::update_validator_list(
        &mut state,
        &info("owner"),
        two_false_validators(),
    )
    .unwrap_err();
    assert_eq!(ContractError::InvalidValidatorList {}, err);
    // a rejected table leaves the stored table unchanged
    assert_eq!(query::validator_list(&state).validators, validator_list(2));
}

#[test]
fn test_minimum_unbonding_check() {
    let mut env = base_env();

    let mut state = instantiate(
        &env,
        InstantiateMsg {
            owner: "creator".to_string(),
            treasury: "treasury".to_string(),
            staking_addr: "validator1".to_string(),
            restake_commission: percent(10),
            transfer_commission: percent(10),
            denom: "token".to_string(),
            unbonding_period: Some(7),
            max_entries: Some(7),
        },
    );
    // the latest batch release just happened
    state.latest_unbonding = env.time;
    let config = state.config.clone();

    // unbonding cooldown not expired
    assert!(check_unbonding_cooldown(&state, &config, &env).is_err());
    let err = check_unbonding_cooldown(&state, &config, &env).unwrap_err();
    assert_eq!(
        err,
        ContractError::UnbondingCooldownNotExpired {
            min_cooldown: 1,
            latest_unbonding: state.latest_unbonding,
        }
    );

    // unbonding cooldown expired
    env.time += 1;
    assert!(check_unbonding_cooldown(&state, &config, &env).is_ok());
}

#[test]
fn duplicate_validator_ids_are_rejected() {
    let mut state = setup();

    let duplicated = vec![
        ("validator1".to_string(), percent(50)),
        ("validator1".to_string(), percent(50)),
    ];
    let err =
        yield_generator::contract::update_validator_list(&mut state, &info("owner"), duplicated)
            .unwrap_err();
    assert_eq!(ContractError::InvalidValidatorList {}, err);
    // the stored table is untouched
    assert_eq!(
        query::validator_list(&state).validators,
        vec![("validator1".to_string(), Fraction::one())]
    );
}
