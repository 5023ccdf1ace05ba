use multisend::model::{Balance, Coin, DenomDefinition, Error, MultiSend, Rate};

fn coin(denom: &str, amount: i128) -> Coin {
    Coin { denom: denom.to_string(), amount }
}

fn balance(address: &str, coins: Vec<Coin>) -> Balance {
    Balance { address: address.to_string(), coins }
}

fn sample() -> MultiSend {
    MultiSend {
        inputs: vec![
            balance("a", vec![coin("x", 10), coin("y", 3)]),
            balance("b", vec![coin("x", 5)]),
            balance("a", vec![coin("x", 1)]),
        ],
        outputs: vec![balance("c", vec![coin("x", 16), coin("y", 3)])],
    }
}

fn sorted_coins(cs: &[Coin]) -> Vec<(String, i128)> {
    let mut out: Vec<(String, i128)> = cs.iter().map(|c| (c.denom.clone(), c.amount)).collect();
    out.sort();
    out
}

#[test]
fn totals_per_denom() {
    let tx = sample();
    assert_eq!(
        sorted_coins(&tx.get_inputs_amounts_per_token()),
        vec![("x".to_string(), 16), ("y".to_string(), 3)]
    );
    assert_eq!(
        sorted_coins(&tx.get_output_amounts_per_token()),
        vec![("x".to_string(), 16), ("y".to_string(), 3)]
    );
    assert!(MultiSend::sum_amounts(&vec![]).is_empty());
}

#[test]
fn amounts_per_address() {
    let tx = sample();
    let per = tx.get_inputs_amounts_per_address();
    let mut rows: Vec<(String, Vec<(String, i128)>)> =
        per.iter().map(|b| (b.address.clone(), sorted_coins(&b.coins))).collect();
    rows.sort();
    assert_eq!(
        rows,
        vec![
            ("a".to_string(), vec![("x".to_string(), 11), ("y".to_string(), 3)]),
            ("b".to_string(), vec![("x".to_string(), 5)]),
        ]
    );
    let outs = tx.get_outputs_amounts_per_address();
    assert_eq!(outs.len(), 1);
    assert_eq!(outs[0].address, "c");
}

#[test]
fn sides_must_match() {
    assert_eq!(sample().assert_input_output_amounts_should_same(), Ok(()));
    let mut tx = sample();
    tx.outputs.push(balance("d", vec![coin("z", 1)]));
    assert_eq!(
        tx.assert_input_output_amounts_should_same(),
        Err(Error::AmountMismatch("z".to_string()))
    );
    let mut tx = sample();
    tx.inputs.push(balance("d", vec![coin("y", 1)]));
    assert_eq!(
        tx.assert_input_output_amounts_should_same(),
        Err(Error::AmountMismatch("y".to_string()))
    );
}

#[test]
fn balances_must_cover_inputs_and_fees() {
    let definitions = vec![DenomDefinition {
        denom: "x".to_string(),
        issuer: "b".to_string(),
        burn_rate: Rate::new(1, 10),
        commission_rate: Rate::new(1, 10),
    }];
    let tx = MultiSend {
        inputs: vec![balance("a", vec![coin("x", 10)]), balance("b", vec![coin("x", 5)])],
        outputs: vec![balance("c", vec![coin("x", 15)])],
    };
    let enough = vec![balance("a", vec![coin("x", 12)]), balance("b", vec![coin("x", 5)])];
    assert_eq!(tx.assert_balances_should_bigger_than_input(&enough, &definitions), Ok(()));
    let short = vec![balance("a", vec![coin("x", 11)]), balance("b", vec![coin("x", 5)])];
    assert_eq!(
        tx.assert_balances_should_bigger_than_input(&short, &definitions),
        Err(Error::InsufficientBalance("a".to_string(), "x".to_string()))
    );
    let missing = vec![balance("a", vec![coin("x", 12)])];
    assert_eq!(
        tx.assert_balances_should_bigger_than_input(&missing, &definitions),
        Err(Error::AddressNotFound("b".to_string()))
    );
}

#[test]
fn addresses_without_coins_are_left_out() {
    let tx = sample();
    let balances = vec![
        balance("a", vec![coin("D", 1)]),
        balance("b", vec![coin("D", 4)]),
        balance("a", vec![coin("D", 2), coin("E", 3)]),
        balance("c", vec![]),
    ];
    let per = tx.get_amounts_per_address(&balances);
    let mut rows: Vec<(String, Vec<(String, i128)>)> =
        per.iter().map(|b| (b.address.clone(), sorted_coins(&b.coins))).collect();
    rows.sort();
    assert_eq!(
        rows,
        vec![
            ("a".to_string(), vec![("D".to_string(), 3), ("E".to_string(), 3)]),
            ("b".to_string(), vec![("D".to_string(), 4)]),
        ]
    );
}

#[test]
fn undefined_denomination_fails_the_solvency_check() {
    let tx = MultiSend {
        inputs: vec![balance("a", vec![coin("E", 5)])],
        outputs: vec![balance("c", vec![coin("E", 5)])],
    };
    let balances = vec![balance("a", vec![])];
    assert_eq!(
        tx.assert_balances_should_bigger_than_input(&balances, &vec![]),
        Err(Error::UnknownDenom("E".to_string()))
    );
}
