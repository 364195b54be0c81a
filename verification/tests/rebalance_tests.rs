use yield_generator::fraction::Fraction;
use yield_generator::msg::{Coin, StakingMsg};
use yield_generator::rebalance::{compute_redelegate_msgs, delegate_msgs_for_validators};

fn percent(p: u64) -> Fraction {
    Fraction::percent(p).unwrap()
}

fn coin(amount: u128, denom: &str) -> Coin {
    Coin {
        denom: denom.to_string(),
        amount,
    }
}

fn redelegate(src: &str, dst: &str, amount: u128, denom: &str) -> StakingMsg {
    StakingMsg::Redelegate {
        src_validator: src.to_string(),
        dst_validator: dst.to_string(),
        amount: coin(amount, denom),
    }
}

#[test]
fn test_redelegate_replace_single_validator() {
    let validators1 = vec![
        ("validator1".to_owned(), percent(50)),
        ("validator2".to_owned(), percent(40)),
        ("validator3".to_owned(), percent(10)),
    ];
    let validators2 = vec![
        ("validator2".to_owned(), percent(40)),
        ("validator3".to_owned(), percent(10)),
        ("validator4".to_owned(), percent(50)),
    ];

    let msgs =
        compute_redelegate_msgs(100u128, &"ujuno".to_string(), validators1, validators2).unwrap();

    assert_eq!(msgs.len(), 1);

    assert_eq!(msgs[0], redelegate("validator1", "validator4", 50, "ujuno"));
}

#[test]
fn test_redelegate_replace_all_validators() {
    let validators1 = vec![
        ("validator1".to_owned(), percent(50)),
        ("validator2".to_owned(), percent(20)),
        ("validator3".to_owned(), percent(30)),
    ];
    let validators2 = vec![
        ("validator4".to_owned(), percent(25)),
        ("validator5".to_owned(), percent(25)),
        ("validator6".to_owned(), percent(50)),
    ];

    let msgs =
        compute_redelegate_msgs(100u128, &"ujuno".to_string(), validators1, validators2).unwrap();

    assert_eq!(msgs.len(), 4);

    assert_eq!(
        msgs,
        vec![
            redelegate("validator1", "validator4", 25, "ujuno"),
            redelegate("validator1", "validator5", 25, "ujuno"),
            redelegate("validator2", "validator6", 20, "ujuno"),
            redelegate("validator3", "validator6", 30, "ujuno"),
        ]
    );
}

#[test]
fn test_redelegate_update_and_replace_some() {
    let validators1 = vec![
        ("validator1".to_owned(), percent(50)),
        ("validator2".to_owned(), percent(20)),
        ("validator3".to_owned(), percent(15)),
        ("validator4".to_owned(), percent(10)),
        ("validator5".to_owned(), percent(5)),
    ];
    let validators2 = vec![
        ("validator1".to_owned(), percent(40)),
        ("validator2".to_owned(), percent(25)),
        ("validator4".to_owned(), percent(10)),
        ("validator6".to_owned(), percent(25)),
    ];

    let msgs =
        compute_redelegate_msgs(100u128, &"ujuno".to_string(), validators1, validators2).unwrap();

    assert_eq!(msgs.len(), 4);

    assert_eq!(
        msgs,
        vec![
            redelegate("validator1", "validator2", 5, "ujuno"),
            redelegate("validator1", "validator6", 5, "ujuno"),
            redelegate("validator3", "validator6", 15, "ujuno"),
            redelegate("validator5", "validator6", 5, "ujuno"),
        ]
    );
}

#[test]
fn test_redelegate_remove_some_validators() {
    let validators1 = vec![
        ("validator1".to_owned(), percent(50)),
        ("validator2".to_owned(), percent(20)),
        ("validator3".to_owned(), percent(30)),
    ];
    let validators2 = vec![("validator2".to_owned(), percent(100))];

    let msgs =
        compute_redelegate_msgs(100u128, &"ujuno".to_string(), validators1, validators2).unwrap();

    assert_eq!(msgs.len(), 2);

    assert_eq!(
        msgs,
        vec![
            redelegate("validator1", "validator2", 50, "ujuno"),
            redelegate("validator3", "validator2", 30, "ujuno"),
        ]
    );
}

#[test]
fn split_amount_over_two_equal_validators_rounds_down() {
    let table = vec![
        ("validator1".to_owned(), percent(50)),
        ("validator2".to_owned(), percent(50)),
    ];

    let msgs = delegate_msgs_for_validators(coin(101, "ujuno"), true, &table);

    assert_eq!(
        msgs,
        vec![
            StakingMsg::Delegate {
                validator: "validator1".to_string(),
                amount: coin(50, "ujuno"),
            },
            StakingMsg::Delegate {
                validator: "validator2".to_string(),
                amount: coin(50, "ujuno"),
            },
        ]
    );
    let handed_out: u128 = msgs
        .iter()
        .map(|m| match m {
            StakingMsg::Delegate { amount, .. } => amount.amount,
            StakingMsg::Undelegate { amount, .. } => amount.amount,
            StakingMsg::Redelegate { amount, .. } => amount.amount,
        })
        .sum();
    assert!(handed_out <= 101);
}

#[test]
fn split_uneven_weights_exact_shares() {
    let table = vec![
        ("validator1".to_owned(), percent(60)),
        ("validator2".to_owned(), percent(40)),
    ];

    let msgs = delegate_msgs_for_validators(coin(1001, "ujuno"), false, &table);

    assert_eq!(
        msgs,
        vec![
            StakingMsg::Undelegate {
                validator: "validator1".to_string(),
                amount: coin(600, "ujuno"),
            },
            StakingMsg::Undelegate {
                validator: "validator2".to_string(),
                amount: coin(400, "ujuno"),
            },
        ]
    );
}
