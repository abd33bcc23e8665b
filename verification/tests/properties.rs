use multisend::muldiv::mul_div;
use multisend::widesum::WideSum;
use multisend::{
    calculate_balance_changes, recorded_amount, Balance, BalanceOp, Coin, CoinOp, DenomDefinition,
    Error, Ledger, MultiSend, Rate,
};
use rust_decimal::Decimal;

fn coin(denom: &str, amount: i128) -> Coin {
    Coin {
        denom: denom.to_string(),
        amount,
    }
}

fn entry(address: &str, coins: Vec<Coin>) -> Balance {
    Balance {
        address: address.to_string(),
        coins,
    }
}

fn definition(denom: &str, issuer: &str, burn: (i128, i128), commission: (i128, i128)) -> DenomDefinition {
    DenomDefinition {
        denom: denom.to_string(),
        issuer: issuer.to_string(),
        burn_rate: Rate::new(burn.0, burn.1).unwrap(),
        commission_rate: Rate::new(commission.0, commission.1).unwrap(),
    }
}

fn mismatch(denom: &str) -> Error {
    Error::InputOutputMismatch {
        denom: denom.to_string(),
    }
}

fn insufficient(address: &str, denom: &str) -> Error {
    Error::InsufficientBalance {
        address: address.to_string(),
        denom: denom.to_string(),
    }
}

fn change(changes: &[Balance], address: &str, denom: &str) -> i128 {
    let mut found = 0;
    for balance in changes {
        if balance.address == address {
            for c in &balance.coins {
                if c.denom == denom {
                    found = c.amount;
                }
            }
        }
    }
    found
}

fn sum_of(changes: &[Balance], denom: &str) -> i128 {
    let mut sum = 0;
    for balance in changes {
        for c in &balance.coins {
            if c.denom == denom {
                sum += c.amount;
            }
        }
    }
    sum
}

fn scaled_transfer() -> (Vec<Balance>, Vec<DenomDefinition>, MultiSend) {
    (
        vec![
            entry("account1", vec![coin("denom1", 1_000_000)]),
            entry("account2", vec![coin("denom1", 1_000_000)]),
        ],
        vec![definition("denom1", "issuer_account_A", (8, 100), (12, 100))],
        MultiSend {
            inputs: vec![
                entry("account1", vec![coin("denom1", 650)]),
                entry("account2", vec![coin("denom1", 350)]),
            ],
            outputs: vec![
                entry("account_recipient", vec![coin("denom1", 500)]),
                entry("issuer_account_A", vec![coin("denom1", 500)]),
            ],
        },
    )
}

#[test]
fn mul_div_small_values() {
    assert_eq!(mul_div(10, 3, 4), (7, 2));
    assert_eq!(mul_div(0, 3, 4), (0, 0));
    assert_eq!(mul_div(10, 0, 4), (0, 0));
    assert_eq!(mul_div(7, 5, 5), (7, 0));
    assert_eq!(mul_div(1, 1, 1), (1, 0));
}

#[test]
fn mul_div_beyond_the_word() {
    let limit: u128 = 1 << 127;
    assert_eq!(mul_div(u128::MAX, limit, limit), (u128::MAX, 0));
    assert_eq!(mul_div(u128::MAX, limit - 1, limit), (u128::MAX - 2, 1));
    // 3 * (2^128 - 1) = 7 * 145835300108973627198589117470757804909 + 2
    let (q, r) = mul_div(u128::MAX, 3, 7);
    assert_eq!(q, 145835300108973627198589117470757804909);
    assert_eq!(r, 2);
    let (q, r) = mul_div(1_000_000_000_000_000_000_000_000_000_000, 999_999_999_999_999_999_999, 1_000_000_000_000_000_000_000);
    assert_eq!(q, 999_999_999_999_999_999_999_000_000_000);
    assert_eq!(r, 0);
}

#[test]
fn wide_sum_passes_the_largest_amount() {
    let sum = WideSum::zero().plus(i128::MAX).plus(i128::MAX);
    assert_eq!(sum.carry, 1);
    assert_eq!(sum.low, (1u128 << 127) - 2);
    assert_eq!(sum.to_amount(), None);
    let other = WideSum::zero().plus(i128::MAX - 1).plus(1).plus(i128::MAX);
    assert!(sum.same(&other));
    assert!(!sum.same(&WideSum::zero().plus(i128::MAX)));
    assert_eq!(WideSum::zero().plus(5).plus(7).to_amount(), Some(12));
    assert_eq!(WideSum::zero().plus(i128::MAX).to_amount(), Some(i128::MAX));
    assert_eq!(WideSum::zero().plus(i128::MAX).plus(1).to_amount(), None);
}

#[test]
fn rate_new_accepts_zero_to_one() {
    assert_eq!(Rate::new(0, 1), Some(Rate { numer: 0, denom: 1 }));
    assert_eq!(Rate::new(1, 3), Some(Rate { numer: 1, denom: 3 }));
    assert_eq!(Rate::new(3, 3), Some(Rate { numer: 3, denom: 3 }));
    assert_eq!(Rate::new(4, 3), None);
    assert_eq!(Rate::new(-1, 3), None);
    assert_eq!(Rate::new(0, 0), None);
    assert_eq!(Rate::new(-2, -1), None);
    assert!(Rate { numer: 1, denom: 2 }.is_valid());
    assert!(!Rate { numer: 3, denom: 2 }.is_valid());
}

#[test]
fn rate_from_scaled_uses_powers_of_ten() {
    assert_eq!(Rate::from_scaled(8, 2), Some(Rate { numer: 8, denom: 100 }));
    assert_eq!(Rate::from_scaled(1, 0), Some(Rate { numer: 1, denom: 1 }));
    assert_eq!(Rate::from_scaled(0, 0), Some(Rate { numer: 0, denom: 1 }));
    assert_eq!(Rate::from_scaled(2, 0), None);
    assert_eq!(Rate::from_scaled(-8, 2), None);
    assert_eq!(
        Rate::from_scaled(1, 38),
        Some(Rate {
            numer: 1,
            denom: 100_000_000_000_000_000_000_000_000_000_000_000_000
        })
    );
    assert_eq!(Rate::from_scaled(1, 39), None);
    assert_eq!(Rate::from_scaled(1, u32::MAX), None);
}

#[test]
fn rate_from_decimal_reads_mantissa_and_scale() {
    assert_eq!(
        Rate::from_decimal(&Decimal::new(8, 2)),
        Some(Rate { numer: 8, denom: 100 })
    );
    assert_eq!(
        Rate::from_decimal(&Decimal::new(5, 1)),
        Some(Rate { numer: 5, denom: 10 })
    );
    assert_eq!(
        Rate::from_decimal(&Decimal::new(1, 5)),
        Some(Rate { numer: 1, denom: 100_000 })
    );
    assert_eq!(
        Rate::from_decimal(&Decimal::new(12345, 5)),
        Some(Rate { numer: 12345, denom: 100_000 })
    );
    assert_eq!(Rate::from_decimal(&Decimal::ONE), Some(Rate { numer: 1, denom: 1 }));
    assert_eq!(Rate::from_decimal(&Decimal::ZERO), Some(Rate { numer: 0, denom: 1 }));
    assert_eq!(Rate::from_decimal(&Decimal::new(-8, 2)), None);
    assert_eq!(Rate::from_decimal(&Decimal::new(101, 2)), None);
    assert_eq!(Rate::from_decimal(&Decimal::new(2, 0)), None);
}

#[test]
fn share_of_the_scaled_example() {
    let burn = Rate::new(8, 100).unwrap();
    let commission = Rate::new(12, 100).unwrap();
    assert_eq!(burn.share(650, 1000, 500), 26);
    assert_eq!(commission.share(650, 1000, 500), 39);
    assert_eq!(burn.share(350, 1000, 500), 14);
    assert_eq!(commission.share(350, 1000, 500), 21);
    // The factor is the smaller sum over the larger, whichever side is larger.
    assert_eq!(burn.share(650, 500, 1000), 26);
}

#[test]
fn share_rounds_up_never_down() {
    let one_percent = Rate::new(1, 100).unwrap();
    assert_eq!(one_percent.share(1, 2, 2), 1);
    assert_eq!(one_percent.share(100, 2, 2), 1);
    assert_eq!(one_percent.share(101, 2, 2), 2);
    assert_eq!(one_percent.share(149, 2, 2), 2);
    assert_eq!(one_percent.share(199, 2, 2), 2);
    assert_eq!(one_percent.share(200, 2, 2), 2);
    assert_eq!(one_percent.share(201, 2, 2), 3);
    let third = Rate::new(1, 3).unwrap();
    assert_eq!(third.share(1, 1, 1), 1);
    assert_eq!(third.share(3, 1, 1), 1);
    assert_eq!(third.share(4, 1, 1), 2);
    // 10 * (1/3) * (2/3) = 20/9
    assert_eq!(third.share(10, 3, 2), 3);
    // 9 * (1/3) * (2/3) = 2
    assert_eq!(third.share(9, 3, 2), 2);
}

#[test]
fn share_edge_rates_and_sums() {
    let zero = Rate::new(0, 7).unwrap();
    let full = Rate::new(1, 1).unwrap();
    assert_eq!(zero.share(1000, 5, 5), 0);
    assert_eq!(zero.share(1000, 5, 3), 0);
    assert_eq!(full.share(1000, 5, 5), 1000);
    // 10 * 2/3 rounded up
    assert_eq!(full.share(10, 3, 2), 7);
    assert_eq!(full.share(0, 3, 2), 0);
    // no counterpart on one side, or on both
    assert_eq!(full.share(10, 3, 0), 0);
    assert_eq!(full.share(10, 0, 3), 0);
    assert_eq!(full.share(10, 0, 0), 0);
}

#[test]
fn share_is_exact_on_large_amounts() {
    let third = Rate::new(1, 3).unwrap();
    assert_eq!(
        third.share(1_000_000_000_000_000_000_000_000_000_000, 7, 7),
        333_333_333_333_333_333_333_333_333_334
    );
    let half = Rate::new(1, 2).unwrap();
    assert_eq!(half.share(i128::MAX, 1, 1), 1 << 126);
    let full = Rate::new(1, 1).unwrap();
    assert_eq!(full.share(i128::MAX, i128::MAX, i128::MAX), i128::MAX);
    assert_eq!(full.share(i128::MAX, i128::MAX, i128::MAX - 1), i128::MAX - 1);
    let fine = Rate::from_scaled(9_999_999_999_999_999_999_999_999_999, 28).unwrap();
    // (10^28 - 1) / 10^28 of 10^28 is 10^28 - 1
    assert_eq!(
        fine.share(10_000_000_000_000_000_000_000_000_000, 5, 5),
        9_999_999_999_999_999_999_999_999_999
    );
    // one unit more than a whole number of units rounds up
    assert_eq!(
        fine.share(10_000_000_000_000_000_000_000_000_001, 5, 5),
        10_000_000_000_000_000_000_000_000_000
    );
}

#[test]
fn find_coin_takes_the_first_match() {
    let coins = vec![coin("a", 1), coin("b", 2), coin("a", 3)];
    assert_eq!(coins.find_coin(&"a".to_string()).unwrap().amount, 1);
    assert_eq!(coins.find_coin(&"b".to_string()).unwrap().amount, 2);
    assert!(coins.find_coin(&"c".to_string()).is_none());
    let balance = entry("x", coins);
    assert_eq!(balance.find_coin(&"a".to_string()).unwrap().amount, 1);
    assert!(balance.find_coin(&"".to_string()).is_none());
}

#[test]
fn coin_sums_with_and_without_the_issuer() {
    let entries = vec![
        entry("x", vec![coin("d", 60)]),
        entry("issuer", vec![coin("d", 25)]),
        entry("y", vec![coin("e", 5), coin("d", 90)]),
        entry("z", vec![coin("e", 7)]),
    ];
    let def = definition("d", "issuer", (1, 10), (0, 1));
    let all = entries.get_coin_sum(&"d".to_string());
    assert_eq!(all.to_amount(), Some(175));
    let others = entries.get_filtered_coin_sum(&def);
    assert_eq!(others.to_amount(), Some(150));
    assert_eq!(entries.get_coin_sum(&"e".to_string()).to_amount(), Some(12));
    assert_eq!(entries.get_coin_sum(&"f".to_string()).to_amount(), Some(0));
}

#[test]
fn recorded_amount_reads_the_last_balance_that_holds_the_denom() {
    let balances = vec![
        entry("x", vec![coin("d", 1)]),
        entry("y", vec![coin("d", 2)]),
        entry("x", vec![coin("d", 3), coin("d", 4)]),
        entry("x", vec![coin("e", 5)]),
    ];
    assert_eq!(recorded_amount(&balances, &"x".to_string(), &"d".to_string()), 3);
    assert_eq!(recorded_amount(&balances, &"y".to_string(), &"d".to_string()), 2);
    assert_eq!(recorded_amount(&balances, &"x".to_string(), &"e".to_string()), 5);
    assert_eq!(recorded_amount(&balances, &"y".to_string(), &"e".to_string()), 0);
    assert_eq!(recorded_amount(&balances, &"z".to_string(), &"d".to_string()), 0);
}

#[test]
fn ledger_adds_up_and_groups_by_address() {
    let mut ledger = Ledger::new();
    ledger.add(&"x".to_string(), &"d".to_string(), -5);
    ledger.add(&"y".to_string(), &"d".to_string(), 5);
    ledger.add(&"x".to_string(), &"e".to_string(), 7);
    ledger.add(&"x".to_string(), &"d".to_string(), -2);
    ledger.add(&"z".to_string(), &"d".to_string(), 4);
    ledger.add(&"z".to_string(), &"d".to_string(), -4);
    let balances = ledger.into_balances();
    assert_eq!(balances.len(), 2);
    assert_eq!(change(&balances, "x", "d"), -7);
    assert_eq!(change(&balances, "x", "e"), 7);
    assert_eq!(change(&balances, "y", "d"), 5);
    assert!(balances.iter().all(|b| b.address != "z"));
    assert!(balances.iter().all(|b| b.coins.iter().all(|c| c.amount != 0)));
    assert_eq!(balances.iter().find(|b| b.address == "x").unwrap().coins.len(), 2);
}

#[test]
fn ledger_shortfall_compares_deductions_with_the_record() {
    let mut ledger = Ledger::new();
    ledger.add(&"x".to_string(), &"d".to_string(), -5);
    ledger.add(&"y".to_string(), &"d".to_string(), 5);
    let short = Some(("x".to_string(), "d".to_string()));
    assert_eq!(ledger.find_shortfall(&vec![entry("x", vec![coin("d", 5)])]), None);
    assert_eq!(ledger.find_shortfall(&vec![entry("x", vec![coin("d", 4)])]), short);
    assert_eq!(ledger.find_shortfall(&vec![entry("x", vec![coin("e", 5)])]), short);
    assert_eq!(ledger.find_shortfall(&vec![entry("y", vec![coin("d", 5)])]), short);
    assert_eq!(ledger.find_shortfall(&vec![entry("x", vec![coin("d", -1)])]), short);
    assert_eq!(Ledger::new().find_shortfall(&vec![]), None);
}

#[test]
fn error_texts() {
    assert_eq!(mismatch("d").message(), "Input and output mismatch");
    assert_eq!(insufficient("x", "d").message(), "Insufficient balance");
    assert_eq!(Error::ArithmeticFailure.message(), "Calculation failure");
}

#[test]
fn validity_checks() {
    let good = MultiSend {
        inputs: vec![entry("x", vec![coin("d", 0), coin("e", 3)])],
        outputs: vec![entry("y", vec![])],
    };
    assert!(good.is_valid());
    let bad_input = MultiSend {
        inputs: vec![entry("x", vec![coin("d", 1), coin("e", -3)])],
        outputs: vec![],
    };
    assert!(!bad_input.is_valid());
    let bad_output = MultiSend {
        inputs: vec![],
        outputs: vec![entry("x", vec![coin("d", 1)]), entry("y", vec![coin("d", -1)])],
    };
    assert!(!bad_output.is_valid());
    assert!(definition("d", "i", (1, 2), (1, 1)).is_valid());
    let broken = DenomDefinition {
        denom: "d".to_string(),
        issuer: "i".to_string(),
        burn_rate: Rate { numer: 2, denom: 1 },
        commission_rate: Rate { numer: 0, denom: 1 },
    };
    assert!(!broken.is_valid());
}

#[test]
fn full_changes_of_the_scaled_example() {
    let (balances, definitions, tx) = scaled_transfer();
    let res = calculate_balance_changes(balances, definitions, tx).unwrap();
    assert_eq!(res.len(), 4);
    assert_eq!(change(&res, "account1", "denom1"), -715);
    assert_eq!(change(&res, "account2", "denom1"), -385);
    assert_eq!(change(&res, "account_recipient", "denom1"), 500);
    assert_eq!(change(&res, "issuer_account_A", "denom1"), 560);
}

#[test]
fn changes_of_a_denom_add_up_to_the_burn() {
    let (balances, definitions, tx) = scaled_transfer();
    let res = calculate_balance_changes(balances, definitions, tx).unwrap();
    // burnt: 26 for account1 and 14 for account2
    assert_eq!(sum_of(&res, "denom1"), -40);
}

#[test]
fn commission_paid_is_commission_credited() {
    let (balances, definitions, tx) = scaled_transfer();
    let res = calculate_balance_changes(balances, definitions, tx).unwrap();
    // the issuer receives 500 as an output; the rest is commission: 39 + 21
    assert_eq!(change(&res, "issuer_account_A", "denom1") - 500, 60);
    let paid = (-change(&res, "account1", "denom1") - 650 - 26)
        + (-change(&res, "account2", "denom1") - 350 - 14);
    assert_eq!(paid, 60);
}

#[test]
fn same_arguments_same_result() {
    let (balances, definitions, tx) = scaled_transfer();
    let first = calculate_balance_changes(balances, definitions, tx);
    let (balances, definitions, tx) = scaled_transfer();
    let second = calculate_balance_changes(balances, definitions, tx);
    assert_eq!(format!("{:?}", first), format!("{:?}", second));
    let rejected = || {
        calculate_balance_changes(
            vec![],
            vec![definition("d", "i", (0, 1), (0, 1))],
            MultiSend {
                inputs: vec![entry("x", vec![coin("d", 1)])],
                outputs: vec![entry("y", vec![coin("d", 1)])],
            },
        )
    };
    assert_eq!(format!("{:?}", rejected()), format!("{:?}", rejected()));
    assert_eq!(rejected().unwrap_err(), insufficient("x", "d"));
}

#[test]
fn mismatch_in_any_denom_rejects() {
    let defs = || {
        vec![
            definition("d", "i", (0, 1), (0, 1)),
            definition("e", "i", (0, 1), (0, 1)),
        ]
    };
    let res = calculate_balance_changes(
        vec![entry("x", vec![coin("d", 10), coin("e", 10)])],
        defs(),
        MultiSend {
            inputs: vec![entry("x", vec![coin("d", 5), coin("e", 5)])],
            outputs: vec![entry("y", vec![coin("d", 5), coin("e", 4)])],
        },
    );
    assert_eq!(res.unwrap_err(), mismatch("e"));
    // a mismatch wins even where the sender could not pay
    let res = calculate_balance_changes(
        vec![],
        defs(),
        MultiSend {
            inputs: vec![entry("x", vec![coin("d", 5), coin("e", 6)])],
            outputs: vec![entry("y", vec![coin("d", 5), coin("e", 5)])],
        },
    );
    assert_eq!(res.unwrap_err(), mismatch("e"));
    // of two mismatches the one of the earlier definition is named
    let res = calculate_balance_changes(
        vec![],
        defs(),
        MultiSend {
            inputs: vec![entry("x", vec![coin("d", 4), coin("e", 6)])],
            outputs: vec![entry("y", vec![coin("d", 5), coin("e", 5)])],
        },
    );
    assert_eq!(res.unwrap_err(), mismatch("d"));
}

#[test]
fn mismatch_is_found_beyond_the_largest_amount() {
    let res = calculate_balance_changes(
        vec![],
        vec![definition("d", "i", (0, 1), (0, 1))],
        MultiSend {
            inputs: vec![
                entry("x", vec![coin("d", i128::MAX)]),
                entry("y", vec![coin("d", i128::MAX)]),
            ],
            outputs: vec![
                entry("z", vec![coin("d", i128::MAX)]),
                entry("w", vec![coin("d", i128::MAX - 1)]),
            ],
        },
    );
    assert_eq!(res.unwrap_err(), mismatch("d"));
}

#[test]
fn charge_beyond_the_largest_amount_fails() {
    // with a full burn the sender is charged twice the largest amount
    let res = calculate_balance_changes(
        vec![entry("x", vec![coin("d", i128::MAX)])],
        vec![definition("d", "i", (1, 1), (0, 1))],
        MultiSend {
            inputs: vec![entry("x", vec![coin("d", i128::MAX)])],
            outputs: vec![entry("y", vec![coin("d", i128::MAX)])],
        },
    );
    assert_eq!(res.unwrap_err(), Error::ArithmeticFailure);
    // two senders whose charges together pass it
    let res = calculate_balance_changes(
        vec![
            entry("x", vec![coin("d", i128::MAX)]),
            entry("y", vec![coin("d", i128::MAX)]),
        ],
        vec![definition("d", "i", (0, 1), (0, 1))],
        MultiSend {
            inputs: vec![
                entry("x", vec![coin("d", i128::MAX)]),
                entry("y", vec![coin("d", 1)]),
            ],
            outputs: vec![
                entry("z", vec![coin("d", i128::MAX)]),
                entry("w", vec![coin("d", 1)]),
            ],
        },
    );
    assert_eq!(res.unwrap_err(), Error::ArithmeticFailure);
    // the largest amount itself passes
    let res = calculate_balance_changes(
        vec![entry("x", vec![coin("d", i128::MAX)])],
        vec![definition("d", "i", (0, 1), (0, 1))],
        MultiSend {
            inputs: vec![entry("x", vec![coin("d", i128::MAX)])],
            outputs: vec![entry("y", vec![coin("d", i128::MAX)])],
        },
    )
    .unwrap();
    assert_eq!(change(&res, "x", "d"), -i128::MAX);
    assert_eq!(change(&res, "y", "d"), i128::MAX);
}

#[test]
fn mismatch_comes_before_a_charge_that_cannot_be_held() {
    let res = calculate_balance_changes(
        vec![],
        vec![
            definition("d", "i", (1, 1), (0, 1)),
            definition("e", "i", (0, 1), (0, 1)),
        ],
        MultiSend {
            inputs: vec![entry("x", vec![coin("d", i128::MAX), coin("e", 1)])],
            outputs: vec![entry("y", vec![coin("d", i128::MAX), coin("e", 2)])],
        },
    );
    assert_eq!(res.unwrap_err(), mismatch("e"));
}

#[test]
fn without_rates_everyone_changes_by_what_moves() {
    let res = calculate_balance_changes(
        vec![
            entry("x", vec![coin("d", 100)]),
            entry("i", vec![coin("d", 100)]),
        ],
        vec![definition("d", "i", (0, 1), (0, 5))],
        MultiSend {
            inputs: vec![
                entry("x", vec![coin("d", 70)]),
                entry("i", vec![coin("d", 30)]),
            ],
            outputs: vec![
                entry("y", vec![coin("d", 60)]),
                entry("z", vec![coin("d", 40)]),
            ],
        },
    )
    .unwrap();
    assert_eq!(change(&res, "x", "d"), -70);
    assert_eq!(change(&res, "i", "d"), -30);
    assert_eq!(change(&res, "y", "d"), 60);
    assert_eq!(change(&res, "z", "d"), 40);
    assert_eq!(res.len(), 4);
}

#[test]
fn issuer_pays_no_fee_on_its_own_input() {
    let res = calculate_balance_changes(
        vec![
            entry("x", vec![coin("d", 1000)]),
            entry("i", vec![coin("d", 1000)]),
        ],
        vec![definition("d", "i", (1, 10), (1, 10))],
        MultiSend {
            inputs: vec![
                entry("x", vec![coin("d", 100)]),
                entry("i", vec![coin("d", 100)]),
            ],
            outputs: vec![entry("y", vec![coin("d", 200)])],
        },
    )
    .unwrap();
    // others send 100 and others receive 200: the factor is 100 / 200
    assert_eq!(change(&res, "x", "d"), -(100 + 5 + 5));
    // the issuer sends 100 without fees and is credited the commission of 5
    assert_eq!(change(&res, "i", "d"), -100 + 5);
    assert_eq!(change(&res, "y", "d"), 200);
    assert_eq!(sum_of(&res, "d"), -5);
}

#[test]
fn issuer_exemption_is_per_denom() {
    let res = calculate_balance_changes(
        vec![entry("i", vec![coin("d", 1000), coin("e", 1000)])],
        vec![
            definition("d", "i", (1, 10), (0, 1)),
            definition("e", "j", (1, 10), (0, 1)),
        ],
        MultiSend {
            inputs: vec![entry("i", vec![coin("d", 100), coin("e", 100)])],
            outputs: vec![entry("y", vec![coin("d", 100), coin("e", 100)])],
        },
    )
    .unwrap();
    assert_eq!(change(&res, "i", "d"), -100);
    assert_eq!(change(&res, "i", "e"), -110);
}

#[test]
fn denoms_without_definition_are_left_alone() {
    let res = calculate_balance_changes(
        vec![],
        vec![definition("d", "i", (1, 10), (0, 1))],
        MultiSend {
            inputs: vec![entry("x", vec![coin("other", 100)])],
            outputs: vec![entry("y", vec![coin("other", 7)])],
        },
    )
    .unwrap();
    assert!(res.is_empty());
}

#[test]
fn empty_transfer_changes_nothing() {
    let res = calculate_balance_changes(
        vec![],
        vec![],
        MultiSend {
            inputs: vec![],
            outputs: vec![],
        },
    )
    .unwrap();
    assert!(res.is_empty());
}

#[test]
fn zero_changes_are_left_out() {
    let res = calculate_balance_changes(
        vec![entry("x", vec![coin("d", 10)])],
        vec![definition("d", "i", (0, 1), (0, 1))],
        MultiSend {
            inputs: vec![
                entry("x", vec![coin("d", 10)]),
                entry("w", vec![coin("d", 0)]),
            ],
            outputs: vec![entry("x", vec![coin("d", 10)])],
        },
    )
    .unwrap();
    // x sends to itself without fees; w sends nothing; the issuer earns nothing
    assert!(res.is_empty());
}

#[test]
fn sending_to_oneself_costs_the_fees() {
    let res = calculate_balance_changes(
        vec![entry("x", vec![coin("d", 30)])],
        vec![definition("d", "i", (1, 10), (2, 10))],
        MultiSend {
            inputs: vec![entry("x", vec![coin("d", 100)])],
            outputs: vec![entry("x", vec![coin("d", 100)])],
        },
    )
    .unwrap();
    assert_eq!(change(&res, "x", "d"), -30);
    assert_eq!(change(&res, "i", "d"), 20);
    assert_eq!(res.len(), 2);
}

#[test]
fn balance_must_cover_amount_and_fees() {
    let run = |held: i128| {
        calculate_balance_changes(
            vec![entry("account1", vec![coin("denom1", held)])],
            vec![definition("denom1", "issuer_account_A", (8, 100), (12, 100))],
            MultiSend {
                inputs: vec![entry("account1", vec![coin("denom1", 1000)])],
                outputs: vec![entry("account_recipient", vec![coin("denom1", 1000)])],
            },
        )
    };
    assert_eq!(run(1199).unwrap_err(), insufficient("account1", "denom1"));
    assert_eq!(change(&run(1200).unwrap(), "account1", "denom1"), -1200);
}

#[test]
fn several_inputs_of_one_address_add_up() {
    let res = calculate_balance_changes(
        vec![entry("x", vec![coin("d", 100)])],
        vec![definition("d", "i", (1, 100), (0, 1))],
        MultiSend {
            inputs: vec![
                entry("x", vec![coin("d", 1)]),
                entry("x", vec![coin("d", 1)]),
                entry("x", vec![coin("d", 1)]),
            ],
            outputs: vec![entry("y", vec![coin("d", 3)])],
        },
    )
    .unwrap();
    // each input is rounded up on its own
    assert_eq!(change(&res, "x", "d"), -6);
    assert_eq!(change(&res, "y", "d"), 3);
    assert_eq!(sum_of(&res, "d"), -3);
}

#[test]
fn full_burn_doubles_the_deduction() {
    let res = calculate_balance_changes(
        vec![entry("account2", vec![coin("denom2", 1_000_000)])],
        vec![definition("denom2", "issuer_account_B", (1, 1), (0, 1))],
        MultiSend {
            inputs: vec![entry("account2", vec![coin("denom2", 1000)])],
            outputs: vec![entry("account_recipient", vec![coin("denom2", 1000)])],
        },
    )
    .unwrap();
    assert_eq!(change(&res, "account2", "denom2"), -2000);
    assert_eq!(change(&res, "account_recipient", "denom2"), 1000);
    assert_eq!(res.len(), 2);
}
