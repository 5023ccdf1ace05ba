use multisend::fees::{fee_on_amount, proportional_share};
use multisend::model::{Balance, Coin, DenomDefinition, Error, FeeShare, MultiSend, Rate};
use multisend::transfer::{calculate_balance_changes, compute_fees, project};
use multisend::validation::validate;

fn coin(denom: &str, amount: i128) -> Coin {
    Coin { denom: denom.to_string(), amount }
}

fn balance(address: &str, coins: Vec<Coin>) -> Balance {
    Balance { address: address.to_string(), coins }
}

fn definition(denom: &str, issuer: &str, burn: (u64, u64), commission: (u64, u64)) -> DenomDefinition {
    DenomDefinition {
        denom: denom.to_string(),
        issuer: issuer.to_string(),
        burn_rate: Rate::new(burn.0, burn.1),
        commission_rate: Rate::new(commission.0, commission.1),
    }
}

/// The changes as sorted `(address, denom, amount)` triples.
fn triples(bs: &[Balance]) -> Vec<(String, String, i128)> {
    let mut out = Vec::new();
    for b in bs {
        for c in &b.coins {
            out.push((b.address.clone(), c.denom.clone(), c.amount));
        }
    }
    out.sort();
    out
}

fn expect(list: &[(&str, &str, i128)]) -> Vec<(String, String, i128)> {
    let mut out: Vec<(String, String, i128)> =
        list.iter().map(|(a, d, x)| (a.to_string(), d.to_string(), *x)).collect();
    out.sort();
    out
}

fn no_address_twice(bs: &[Balance]) -> bool {
    let mut seen: Vec<&String> = bs.iter().map(|b| &b.address).collect();
    seen.sort();
    seen.dedup();
    seen.len() == bs.len() && bs.iter().all(|b| !b.coins.is_empty())
}

#[test]
fn check_test_case_1() {
    let definitions = vec![
        definition("denom1", "issuer_account_A", (8, 100), (12, 100)),
        definition("denom2", "issuer_account_B", (1, 1), (0, 1)),
    ];
    let orig_balances = vec![
        balance("account1", vec![coin("denom1", 1000_000)]),
        balance("account2", vec![coin("denom2", 1000_000)]),
    ];
    let multi_send = MultiSend {
        inputs: vec![
            balance("account1", vec![coin("denom1", 1000)]),
            balance("account2", vec![coin("denom2", 1000)]),
        ],
        outputs: vec![balance("account_recipient", vec![coin("denom1", 1000), coin("denom2", 1000)])],
    };
    let result = calculate_balance_changes(orig_balances, definitions, multi_send);
    assert!(result.is_ok(), "Result Mismatch");
    let changes = result.unwrap();
    assert!(no_address_twice(&changes));
    assert_eq!(
        triples(&changes),
        expect(&[
            ("account_recipient", "denom1", 1000),
            ("account_recipient", "denom2", 1000),
            ("issuer_account_A", "denom1", 120),
            ("account1", "denom1", -1200),
            ("account2", "denom2", -2000),
        ]),
        "Result Mismatch"
    );
}

#[test]
fn check_test_case_2() {
    let definitions = vec![definition("denom1", "issuer_account_A", (8, 100), (12, 100))];
    let orig_balances = vec![
        balance("account1", vec![coin("denom1", 1000_000)]),
        balance("account2", vec![coin("denom1", 1000_000)]),
    ];
    let multi_send = MultiSend {
        inputs: vec![
            balance("account1", vec![coin("denom1", 650)]),
            balance("account2", vec![coin("denom1", 350)]),
        ],
        outputs: vec![
            balance("account_recipient", vec![coin("denom1", 500)]),
            balance("issuer_account_A", vec![coin("denom1", 500)]),
        ],
    };
    let result = calculate_balance_changes(orig_balances, definitions, multi_send);
    println!("{:?}", result);
    assert!(result.is_ok(), "Result Mismatch");
    assert_eq!(
        triples(&result.unwrap()),
        expect(&[
            ("account_recipient", "denom1", 500),
            ("issuer_account_A", "denom1", 560),
            ("account1", "denom1", -715),
            ("account2", "denom1", -385),
        ]),
        "Result Mismatch"
    );
}

#[test]
fn proportional_burn_with_issuer_on_both_sides() {
    let definitions = vec![definition("D", "issuer", (10, 100), (0, 1))];
    let balances = vec![
        balance("first", vec![coin("D", 1000)]),
        balance("second", vec![coin("D", 1000)]),
        balance("issuer", vec![coin("D", 1000)]),
    ];
    let tx = MultiSend {
        inputs: vec![
            balance("first", vec![coin("D", 60)]),
            balance("second", vec![coin("D", 90)]),
            balance("issuer", vec![coin("D", 25)]),
        ],
        outputs: vec![
            balance("third", vec![coin("D", 50)]),
            balance("issuer", vec![coin("D", 100)]),
            balance("fourth", vec![coin("D", 25)]),
        ],
    };
    let changes = calculate_balance_changes(balances, definitions, tx).unwrap();
    assert_eq!(
        triples(&changes),
        expect(&[
            ("first", "D", -63),
            ("second", "D", -95),
            ("issuer", "D", 75),
            ("third", "D", 50),
            ("fourth", "D", 25),
        ])
    );
    let net: i128 = changes.iter().flat_map(|b| b.coins.iter()).map(|c| c.amount).sum();
    assert_eq!(net, -8);
}

#[test]
fn single_sender_pays_burn_and_commission() {
    let definitions = vec![definition("D", "A", (8, 100), (12, 100))];
    let balances = vec![balance("account1", vec![coin("D", 1_000_000)])];
    let tx = MultiSend {
        inputs: vec![balance("account1", vec![coin("D", 1000)])],
        outputs: vec![balance("account_recipient", vec![coin("D", 1000)])],
    };
    let changes = calculate_balance_changes(balances, definitions, tx).unwrap();
    assert_eq!(
        triples(&changes),
        expect(&[("account1", "D", -1200), ("A", "D", 120), ("account_recipient", "D", 1000)])
    );
}

#[test]
fn zero_input_leaves_no_entry() {
    let definitions = vec![definition("D", "issuer", (10, 100), (5, 100))];
    let balances = vec![balance("sender", vec![])];
    let tx = MultiSend {
        inputs: vec![balance("sender", vec![coin("D", 0)])],
        outputs: vec![balance("receiver", vec![coin("D", 0)])],
    };
    let changes = calculate_balance_changes(balances, definitions, tx).unwrap();
    assert!(changes.is_empty());
}

#[test]
fn only_issuer_sending_pays_no_fee() {
    let definitions = vec![definition("D", "issuer", (50, 100), (50, 100))];
    let balances = vec![balance("issuer", vec![coin("D", 100)])];
    let tx = MultiSend {
        inputs: vec![balance("issuer", vec![coin("D", 100)])],
        outputs: vec![balance("receiver", vec![coin("D", 100)])],
    };
    let changes = calculate_balance_changes(balances, definitions, tx).unwrap();
    assert_eq!(triples(&changes), expect(&[("issuer", "D", -100), ("receiver", "D", 100)]));
}

#[test]
fn fee_rounds_up() {
    let definitions = vec![definition("D", "issuer", (1, 3), (0, 1))];
    let balances = vec![balance("sender", vec![coin("D", 100)])];
    let tx = MultiSend {
        inputs: vec![balance("sender", vec![coin("D", 10)])],
        outputs: vec![balance("receiver", vec![coin("D", 10)])],
    };
    let changes = calculate_balance_changes(balances, definitions, tx).unwrap();
    assert_eq!(triples(&changes), expect(&[("sender", "D", -14), ("receiver", "D", 10)]));
}

#[test]
fn split_input_lines_share_one_fee() {
    let definitions = vec![definition("D", "issuer", (10, 100), (0, 1))];
    let balances = vec![balance("sender", vec![coin("D", 33)])];
    let tx = MultiSend {
        inputs: vec![balance("sender", vec![coin("D", 15)]), balance("sender", vec![coin("D", 15)])],
        outputs: vec![balance("receiver", vec![coin("D", 30)])],
    };
    let changes = calculate_balance_changes(balances, definitions, tx).unwrap();
    assert_eq!(triples(&changes), expect(&[("sender", "D", -33), ("receiver", "D", 30)]));
}

#[test]
fn solvency_counts_the_fee_on_the_whole_amount() {
    let definitions = vec![definition("D", "issuer", (10, 100), (0, 1))];
    let tx = || MultiSend {
        inputs: vec![balance("sender", vec![coin("D", 100)])],
        outputs: vec![
            balance("issuer", vec![coin("D", 50)]),
            balance("receiver", vec![coin("D", 50)]),
        ],
    };
    let short = vec![balance("sender", vec![coin("D", 107)])];
    assert_eq!(
        calculate_balance_changes(short, definitions.clone(), tx()),
        Err(Error::InsufficientBalance("sender".to_string(), "D".to_string()))
    );
    let enough = vec![balance("sender", vec![coin("D", 110)])];
    let changes = calculate_balance_changes(enough, definitions, tx()).unwrap();
    assert_eq!(
        triples(&changes),
        expect(&[("sender", "D", -105), ("issuer", "D", 50), ("receiver", "D", 50)])
    );
}

#[test]
fn insufficient_balance_is_rejected() {
    let definitions = vec![definition("D", "A", (8, 100), (12, 100))];
    let tx = || MultiSend {
        inputs: vec![balance("account1", vec![coin("D", 1000)])],
        outputs: vec![balance("account_recipient", vec![coin("D", 1000)])],
    };
    let short = vec![balance("account1", vec![coin("D", 1199)])];
    assert_eq!(
        calculate_balance_changes(short, definitions.clone(), tx()),
        Err(Error::InsufficientBalance("account1".to_string(), "D".to_string()))
    );
    let exact = vec![balance("account1", vec![coin("D", 1200)])];
    assert!(calculate_balance_changes(exact, definitions, tx()).is_ok());
}

#[test]
fn issuer_needs_only_the_amount() {
    let definitions = vec![definition("D", "issuer", (50, 100), (50, 100))];
    let balances = vec![balance("issuer", vec![coin("D", 40)])];
    let tx = MultiSend {
        inputs: vec![balance("issuer", vec![coin("D", 40)])],
        outputs: vec![balance("receiver", vec![coin("D", 40)])],
    };
    assert!(calculate_balance_changes(balances, definitions, tx).is_ok());
}

#[test]
fn mismatched_sides_are_rejected_before_solvency() {
    let definitions = vec![definition("D", "issuer", (0, 1), (0, 1))];
    let tx = MultiSend {
        inputs: vec![balance("nobody", vec![coin("D", 100)])],
        outputs: vec![balance("receiver", vec![coin("D", 90)])],
    };
    assert_eq!(
        calculate_balance_changes(vec![], definitions, tx),
        Err(Error::AmountMismatch("D".to_string()))
    );
}

#[test]
fn denom_only_in_outputs_is_a_mismatch() {
    let definitions = vec![definition("D", "issuer", (0, 1), (0, 1)), definition("E", "issuer", (0, 1), (0, 1))];
    let tx = MultiSend {
        inputs: vec![balance("sender", vec![coin("D", 10)])],
        outputs: vec![balance("receiver", vec![coin("D", 10), coin("E", 5)])],
    };
    let balances = vec![balance("sender", vec![coin("D", 10)])];
    assert_eq!(
        calculate_balance_changes(balances, definitions, tx),
        Err(Error::AmountMismatch("E".to_string()))
    );
}

#[test]
fn unknown_denom_is_rejected() {
    let definitions = vec![definition("D", "issuer", (0, 1), (0, 1))];
    let tx = MultiSend {
        inputs: vec![balance("sender", vec![coin("X", 10)])],
        outputs: vec![balance("receiver", vec![coin("X", 10)])],
    };
    let balances = vec![balance("sender", vec![coin("X", 10)])];
    assert_eq!(
        calculate_balance_changes(balances, definitions, tx),
        Err(Error::UnknownDenom("X".to_string()))
    );
}

#[test]
fn sender_without_record_is_rejected() {
    let definitions = vec![definition("D", "issuer", (0, 1), (0, 1))];
    let tx = MultiSend {
        inputs: vec![balance("stranger", vec![coin("D", 10)])],
        outputs: vec![balance("receiver", vec![coin("D", 10)])],
    };
    let balances = vec![balance("someone", vec![coin("D", 10)])];
    assert_eq!(
        calculate_balance_changes(balances, definitions, tx),
        Err(Error::AddressNotFound("stranger".to_string()))
    );
}

#[test]
fn validation_gives_the_same_result_twice() {
    let definitions = vec![definition("D", "A", (8, 100), (12, 100))];
    let balances = vec![balance("account1", vec![coin("D", 1100)])];
    let tx = MultiSend {
        inputs: vec![balance("account1", vec![coin("D", 1000)])],
        outputs: vec![balance("account_recipient", vec![coin("D", 1000)])],
    };
    let first = validate(&tx, &balances, &definitions);
    let second = validate(&tx, &balances, &definitions);
    assert_eq!(first, second);
    assert_eq!(first, Err(Error::InsufficientBalance("account1".to_string(), "D".to_string())));
}

#[test]
fn share_arithmetic() {
    assert_eq!(fee_on_amount(1000, Rate::new(8, 100)), 80);
    assert_eq!(fee_on_amount(1000, Rate::new(12, 100)), 120);
    assert_eq!(fee_on_amount(15, Rate::new(1, 10)), 2);
    assert_eq!(fee_on_amount(0, Rate::new(1, 2)), 0);
    assert_eq!(proportional_share(75, 60, 150, Rate::new(1, 10)), 3);
    assert_eq!(proportional_share(75, 90, 150, Rate::new(1, 10)), 5);
    assert_eq!(proportional_share(500, 650, 1000, Rate::new(12, 100)), 39);
    assert_eq!(proportional_share(0, 0, 0, Rate::new(1, 1)), 0);
    assert_eq!(proportional_share(1 << 60, 1 << 60, 1 << 60, Rate::new(u64::MAX, u64::MAX)), 1 << 60);
}

fn fee(address: &str, denom: &str, burn: i128, commission: i128) -> FeeShare {
    FeeShare { address: address.to_string(), denom: denom.to_string(), burn, commission }
}

#[test]
fn fee_shares_once_per_sender_and_denom() {
    let definitions = vec![definition("D", "issuer", (10, 100), (0, 1)), definition("E", "other", (0, 1), (12, 100))];
    let tx = MultiSend {
        inputs: vec![
            balance("first", vec![coin("D", 60)]),
            balance("second", vec![coin("D", 90), coin("E", 650)]),
            balance("issuer", vec![coin("D", 25)]),
            balance("first", vec![coin("E", 350)]),
        ],
        outputs: vec![
            balance("third", vec![coin("D", 50), coin("E", 500)]),
            balance("issuer", vec![coin("D", 100)]),
            balance("fourth", vec![coin("D", 25)]),
            balance("other", vec![coin("E", 500)]),
        ],
    };
    assert_eq!(
        compute_fees(&tx, &definitions),
        vec![
            fee("first", "D", 3, 0),
            fee("second", "D", 5, 0),
            fee("second", "E", 0, 39),
            fee("issuer", "D", 0, 0),
            fee("first", "E", 0, 21),
        ]
    );
}

#[test]
fn projection_applies_given_shares() {
    let definitions = vec![definition("denom1", "issuer_account_A", (8, 100), (12, 100))];
    let tx = MultiSend {
        inputs: vec![
            balance("account1", vec![coin("denom1", 650)]),
            balance("account2", vec![coin("denom1", 350)]),
        ],
        outputs: vec![
            balance("account_recipient", vec![coin("denom1", 500)]),
            balance("issuer_account_A", vec![coin("denom1", 500)]),
        ],
    };
    let fees = compute_fees(&tx, &definitions);
    assert_eq!(fees, vec![fee("account1", "denom1", 26, 39), fee("account2", "denom1", 14, 21)]);
    let changes = project(&tx, &definitions, &fees);
    assert_eq!(
        triples(&changes),
        expect(&[
            ("account_recipient", "denom1", 500),
            ("issuer_account_A", "denom1", 560),
            ("account1", "denom1", -715),
            ("account2", "denom1", -385),
        ])
    );
}

#[test]
fn split_input_lines_are_checked_together() {
    let definitions = vec![definition("D", "issuer", (10, 100), (0, 1))];
    let balances = vec![balance("sender", vec![coin("D", 32)])];
    let tx = MultiSend {
        inputs: vec![balance("sender", vec![coin("D", 15)]), balance("sender", vec![coin("D", 15)])],
        outputs: vec![balance("receiver", vec![coin("D", 30)])],
    };
    assert_eq!(
        calculate_balance_changes(balances, definitions, tx),
        Err(Error::InsufficientBalance("sender".to_string(), "D".to_string()))
    );
}

#[test]
fn several_issuer_lines_pay_no_fee() {
    let definitions = vec![definition("D", "issuer", (50, 100), (50, 100))];
    let balances = vec![balance("issuer", vec![coin("D", 100)])];
    let tx = MultiSend {
        inputs: vec![balance("issuer", vec![coin("D", 40)]), balance("issuer", vec![coin("D", 60)])],
        outputs: vec![balance("first", vec![coin("D", 70)]), balance("second", vec![coin("D", 30)])],
    };
    assert_eq!(compute_fees(&tx, &definitions), vec![fee("issuer", "D", 0, 0)]);
    let changes = calculate_balance_changes(balances, definitions, tx).unwrap();
    assert_eq!(
        triples(&changes),
        expect(&[("issuer", "D", -100), ("first", "D", 70), ("second", "D", 30)])
    );
}

#[test]
fn summed_shares_stay_within_one_unit_per_sender() {
    let definitions = vec![definition("D", "issuer", (1, 3), (0, 1))];
    let balances = vec![
        balance("first", vec![coin("D", 100)]),
        balance("second", vec![coin("D", 100)]),
        balance("third", vec![coin("D", 100)]),
    ];
    let tx = MultiSend {
        inputs: vec![
            balance("first", vec![coin("D", 1)]),
            balance("second", vec![coin("D", 1)]),
            balance("third", vec![coin("D", 2)]),
        ],
        outputs: vec![balance("receiver", vec![coin("D", 4)])],
    };
    let fees = compute_fees(&tx, &definitions);
    let burned: i128 = fees.iter().map(|f| f.burn).sum();
    assert_eq!(fees, vec![fee("first", "D", 1, 0), fee("second", "D", 1, 0), fee("third", "D", 1, 0)]);
    assert!(3 * burned >= 4 && 3 * burned < 4 + 3 * 3);
    let changes = calculate_balance_changes(balances, definitions, tx).unwrap();
    let net: i128 = changes.iter().flat_map(|b| b.coins.iter()).map(|c| c.amount).sum();
    assert_eq!(net, -burned);
}
