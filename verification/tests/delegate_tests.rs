use yield_generator::contract::{delegate, instantiate, update_validator_list};
use yield_generator::distribution::restake;
use yield_generator::fraction::Fraction;
use yield_generator::msg::{Coin, DelegateResponse, Env, InstantiateMsg, MessageInfo};
use yield_generator::query;
use yield_generator::state::State;

const ONE_DAY: u64 = 3600 * 24;
const TWENTY_EIGHT_DAYS: u64 = 3600 * 24 * 28;
const START_TIME: u64 = 1_571_797_419;
const UNIT: u128 = 1_000_000_000_000_000_000;

fn from_ratio(n: u128, d: u128) -> u128 {
    n * UNIT / d
}

fn mul(amount: u128, atomics: u128) -> u128 {
    amount * atomics / UNIT
}

fn share(reward: u128, weight: u128, total_weight: u128) -> u128 {
    reward * weight / total_weight
}

fn coin(amount: u128, denom: &str) -> Coin {
    Coin {
        denom: denom.to_string(),
        amount,
    }
}

fn single_validator() -> Vec<(String, Fraction)> {
    vec![("validator1".to_string(), Fraction::one())]
}

fn two_validators() -> Vec<(String, Fraction)> {
    let half = Fraction::from_ratio(1, 2).unwrap();
    vec![
        ("validator1".to_string(), half),
        ("validator2".to_string(), half),
    ]
}

struct Suite {
    state: State,
    env: Env,
}

impl Suite {
    fn new(validators: Vec<(String, Fraction)>) -> Suite {
        let env = Env {
            height: 12345,
            time: START_TIME,
        };
        let mut state = instantiate(
            &env,
            InstantiateMsg {
                owner: "owner".to_string(),
                treasury: "treasury".to_string(),
                staking_addr: "validator1".to_string(),
                restake_commission: Fraction::zero(),
                transfer_commission: Fraction::zero(),
                denom: "ujuno".to_string(),
                unbonding_period: Some(TWENTY_EIGHT_DAYS),
                max_entries: Some(7),
            },
        );
        update_validator_list(
            &mut state,
            &MessageInfo {
                sender: "owner".to_string(),
                funds: Vec::new(),
            },
            validators,
        )
        .unwrap();
        Suite { state, env }
    }

    fn advance_time(&mut self, seconds: u64) {
        self.env.time += seconds;
        self.env.height += seconds / 5;
    }

    fn advance_height(&mut self, blocks: u64) {
        self.env.height += blocks;
        self.env.time += 5 * blocks;
    }

    fn delegate(&mut self, user: &str, amount: u128) {
        let info = MessageInfo {
            sender: user.to_string(),
            funds: vec![coin(amount, "ujuno")],
        };
        delegate(&mut self.state, &self.env, &info).unwrap();
    }

    fn restake(&mut self, reward: u128) {
        restake(&mut self.state, &self.env, coin(reward, "ujuno"));
    }

    fn delegated(&self, user: &str) -> DelegateResponse {
        query::delegated(&self.state, &user.to_string()).delegated[0].clone()
    }

    fn total(&self) -> u128 {
        query::total(&self.state).amount.amount
    }
}

fn one_user(validators: Vec<(String, Fraction)>) {
    let user = "user";
    let delegated: u128 = 100_000_000;
    let mut suite = Suite::new(validators);

    suite.delegate(user, delegated);
    assert_eq!(
        suite.delegated(user),
        DelegateResponse {
            start_height: 12345,
            total_staked: delegated,
            total_earnings: 0,
        }
    );
    assert_eq!(suite.total(), delegated);

    suite.advance_time(ONE_DAY);

    // validator commission 5%, APR 80%: 100_000_000 * 0.95 * 0.8 / 365
    let reward_amount: u128 = 208_219;
    let new_delegated = delegated + reward_amount;

    suite.restake(reward_amount);
    assert_eq!(
        suite.delegated(user),
        DelegateResponse {
            start_height: 12345,
            total_staked: new_delegated,
            total_earnings: reward_amount,
        }
    );
    assert_eq!(suite.total(), new_delegated);

    // second time same operation, which accumulates previous reward
    suite.advance_time(ONE_DAY);

    let reward_amount_2: u128 = 208_652;
    let new_delegated = new_delegated + reward_amount_2;

    suite.restake(reward_amount_2);
    assert_eq!(
        suite.delegated(user),
        DelegateResponse {
            start_height: 12345,
            total_staked: new_delegated,
            total_earnings: reward_amount + reward_amount_2,
        }
    );
    assert_eq!(suite.total(), new_delegated);
}

#[test]
fn one_user_one_validator() {
    one_user(single_validator())
}

#[test]
fn one_user_two_validators() {
    one_user(two_validators())
}

fn multiple_users(validators: Vec<(String, Fraction)>) {
    let users: [(&str, u128); 5] = [
        ("user1", 100_000_000),
        ("user2", 200_000_000),
        ("user3", 300_000_000),
        ("user4", 400_000_000),
        ("user5", 500_000_000),
    ];
    let mut suite = Suite::new(validators);

    for (name, amount) in users.iter() {
        suite.delegate(name, *amount);
    }
    assert_eq!(suite.total(), 1_500_000_000);

    suite.advance_time(ONE_DAY);

    let reward_amount: u128 = 3_123_287;
    suite.restake(reward_amount);

    let mut credited: u128 = 0;
    for (k, (name, amount)) in users.iter().enumerate() {
        // weight = amount / 1_500_000_000 = (k + 1) / 15
        let user_reward = share(reward_amount, k as u128 + 1, 15);
        credited += user_reward;
        assert_eq!(
            suite.delegated(name),
            DelegateResponse {
                start_height: 12345,
                total_staked: amount + user_reward,
                total_earnings: user_reward,
            }
        );
    }

    // due to rounding, a few units of the reward are never credited
    assert_eq!(suite.total(), 1_500_000_000 + credited);
    assert!(credited <= reward_amount);
    assert!(reward_amount - credited < 15);
}

#[test]
fn multiple_users_single_validator() {
    multiple_users(single_validator())
}

#[test]
fn multiple_users_two_validators() {
    multiple_users(two_validators())
}

fn partial_user(validators: Vec<(String, Fraction)>) {
    let user1 = ("user1", 50_000_000_000u128);
    let user2 = ("user2", 30_000_000_000u128);
    let user_partial = ("user_partial", 20_000_000_000u128);
    let mut suite = Suite::new(validators);

    suite.delegate(user1.0, user1.1);
    suite.delegate(user2.0, user2.1);
    assert_eq!(query::last_payment_block(&suite.state).last_payment_block, 12345);

    // advance by some arbitrary time
    suite.advance_time(ONE_DAY);

    // now add another user in the middle of the payment period
    suite.delegate(user_partial.0, user_partial.1);
    let user_partial_height = 12345 + ONE_DAY / 5;

    // advance by the same time again - the partial user counts as 0.5
    suite.advance_time(ONE_DAY);

    let reward_amount: u128 = 374_794_520;
    suite.restake(reward_amount);

    // weights: user1 = 50_000 * 1.0, user2 = 30_000 * 1.0,
    // user_partial = 20_000 * 0.5 = 10_000; sum = 90_000
    let user1_reward = share(reward_amount, 5, 9);
    assert_eq!(
        suite.delegated(user1.0),
        DelegateResponse {
            start_height: 12345,
            total_staked: user1.1 + user1_reward,
            total_earnings: user1_reward,
        }
    );

    let user2_reward = share(reward_amount, 3, 9);
    assert_eq!(
        suite.delegated(user2.0),
        DelegateResponse {
            start_height: 12345,
            total_staked: user2.1 + user2_reward,
            total_earnings: user2_reward,
        }
    );

    let user_partial_reward = share(reward_amount, 1, 9);
    assert_eq!(
        suite.delegated(user_partial.0),
        DelegateResponse {
            start_height: user_partial_height,
            total_staked: user_partial.1 + user_partial_reward,
            total_earnings: user_partial_reward,
        }
    );

    assert_eq!(
        suite.total(),
        100_000_000_000 + user1_reward + user2_reward + user_partial_reward
    );
}

#[test]
fn partial_user_single_validator() {
    partial_user(single_validator())
}

#[test]
fn partial_user_two_validators() {
    partial_user(two_validators())
}

fn multiple_partial_users(validators: Vec<(String, Fraction)>) {
    let user1 = ("user1", 50_000_000_000u128);
    let user2 = ("user2", 30_000_000_000u128);
    let user3 = ("user3", 80_000_000_000u128);
    let mut suite = Suite::new(validators);

    // advance by some arbitrary height (0.2 weight)
    suite.advance_height(200);
    suite.delegate(user1.0, user1.1);

    // advance by some arbitrary height (0.6 weight)
    suite.advance_height(400);
    suite.delegate(user2.0, user2.1);

    // advance by some arbitrary height (0.9 weight)
    suite.advance_height(300);
    suite.delegate(user3.0, user3.1);

    // advance height so it evens out to 1000 blocks in total
    suite.advance_height(100);

    let reward_amount: u128 = 8_434_804;
    suite.restake(reward_amount);

    // weights: user1 = 50_000 * 0.2 = 10_000, user2 = 30_000 * 0.6 = 18_000,
    // user3 = 80_000 * 0.9 = 72_000; sum = 100_000
    let user1_reward = share(reward_amount, 10, 100);
    assert_eq!(
        suite.delegated(user1.0),
        DelegateResponse {
            start_height: 12345 + 200,
            total_staked: user1.1 + user1_reward,
            total_earnings: user1_reward,
        }
    );

    let user2_reward = share(reward_amount, 18, 100);
    assert_eq!(
        suite.delegated(user2.0),
        DelegateResponse {
            start_height: 12345 + 600,
            total_staked: user2.1 + user2_reward,
            total_earnings: user2_reward,
        }
    );

    let user3_reward = share(reward_amount, 72, 100);
    assert_eq!(
        suite.delegated(user3.0),
        DelegateResponse {
            start_height: 12345 + 900,
            total_staked: user3.1 + user3_reward,
            total_earnings: user3_reward,
        }
    );

    assert_eq!(
        suite.total(),
        160_000_000_000 + user1_reward + user2_reward + user3_reward
    );
}

#[test]
fn multiple_partial_users_single_validator() {
    multiple_partial_users(single_validator())
}

#[test]
fn multiple_partial_users_two_validators() {
    multiple_partial_users(two_validators())
}

fn partial_user_become_full_after_restake(validators: Vec<(String, Fraction)>) {
    let user1 = ("user1", 40_000_000_000u128);
    let user2 = ("user2", 30_000_000_000u128);
    let user3 = ("user3", 35_000_000_000u128);
    let mut suite = Suite::new(validators);

    // advance by some arbitrary height (0.2 weight)
    suite.advance_height(200);
    suite.delegate(user1.0, user1.1);
    // advance height up to 1000 blocks
    suite.advance_height(800);

    let reward1_amount: u128 = 4_819_888;
    suite.restake(reward1_amount);

    // user1 was the lone delegator, so the whole reward goes to them anyway
    let user1_reward1 = reward1_amount;
    let user1_restaked = user1.1 + user1_reward1;
    assert_eq!(
        suite.delegated(user1.0),
        DelegateResponse {
            start_height: 12345 + 200,
            total_staked: user1_restaked,
            total_earnings: user1_reward1,
        }
    );
    assert_eq!(suite.total(), 40_000_000_000 + reward1_amount);

    suite.advance_height(300);
    suite.delegate(user2.0, user2.1);
    // advance height up to 1000 blocks
    suite.advance_height(700);

    let reward2_amount: u128 = 7_350_910;
    suite.restake(reward2_amount);

    // weights: user1 = restaked total at full weight (now a full delegator),
    // user2 = 30_000 * 0.3 = 9_000
    let sum_of_weights = user1_restaked + mul(user2.1, from_ratio(30, 100));

    let user1_reward2 = share(reward2_amount, user1_restaked, sum_of_weights);
    let user1_restaked = user1_restaked + user1_reward2;
    assert_eq!(
        suite.delegated(user1.0),
        DelegateResponse {
            start_height: 12345 + 200,
            total_staked: user1_restaked,
            total_earnings: user1_reward1 + user1_reward2,
        }
    );

    let user2_reward2 = share(
        reward2_amount,
        mul(user2.1, from_ratio(30, 100)),
        sum_of_weights,
    );
    let user2_restaked = user2.1 + user2_reward2;
    assert_eq!(
        suite.delegated(user2.0),
        DelegateResponse {
            start_height: 12345 + 1300,
            total_staked: user2_restaked,
            total_earnings: user2_reward2,
        }
    );

    assert_eq!(
        suite.total(),
        70_000_000_000 + reward1_amount + user1_reward2 + user2_reward2
    );

    suite.advance_height(400);
    suite.delegate(user3.0, user3.1);
    // advance height up to 1000 blocks
    suite.advance_height(600);

    let reward3_amount: u128 = 10_966_712;
    suite.restake(reward3_amount);

    // weights: user1 and user2 at full weight, user3 = 35_000 * 0.4 = 14_000
    let sum_of_weights =
        user1_restaked + user2_restaked + mul(user3.1, from_ratio(40, 100));

    let user1_reward3 = share(reward3_amount, user1_restaked, sum_of_weights);
    assert_eq!(
        suite.delegated(user1.0),
        DelegateResponse {
            start_height: 12345 + 200,
            total_staked: user1_restaked + user1_reward3,
            total_earnings: user1_reward1 + user1_reward2 + user1_reward3,
        }
    );

    let user2_reward3 = share(reward3_amount, user2_restaked, sum_of_weights);
    assert_eq!(
        suite.delegated(user2.0),
        DelegateResponse {
            start_height: 12345 + 1300,
            total_staked: user2_restaked + user2_reward3,
            total_earnings: user2_reward2 + user2_reward3,
        }
    );

    let user3_reward3 = share(
        reward3_amount,
        mul(user3.1, from_ratio(40, 100)),
        sum_of_weights,
    );
    assert_eq!(
        suite.delegated(user3.0),
        DelegateResponse {
            start_height: 12345 + 2400,
            total_staked: user3.1 + user3_reward3,
            total_earnings: user3_reward3,
        }
    );

    assert_eq!(
        suite.total(),
        105_000_000_000
            + reward1_amount
            + user1_reward2
            + user2_reward2
            + user1_reward3
            + user2_reward3
            + user3_reward3
    );
}

#[test]
fn partial_user_become_full_after_restake_single_validator() {
    partial_user_become_full_after_restake(single_validator())
}

#[test]
fn partial_user_become_full_after_restake_two_validators() {
    partial_user_become_full_after_restake(two_validators())
}
