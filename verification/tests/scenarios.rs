use multisend::{calculate_balance_changes, Balance, Coin, DenomDefinition, MultiSend, Rate};
use rust_decimal::prelude::FromPrimitive;
use rust_decimal::Decimal;

fn rate(value: f64) -> Rate {
    Rate::from_decimal(&Decimal::from_f64(value).unwrap()).unwrap()
}

#[test]
fn test_no_issuer_on_sender_or_receiver() {
    let original_balances = vec![
        Balance {
            address: "account1".to_string(),
            coins: vec![Coin {
                denom: "denom1".to_string(),
                amount: 1000000,
            }],
        },
        Balance {
            address: "account2".to_string(),
            coins: vec![Coin {
                denom: "denom2".to_string(),
                amount: 1000000,
            }],
        },
    ];
    let definitions = vec![
        DenomDefinition {
            denom: "denom1".to_string(),
            issuer: "issuer_account_A".to_string(),
            burn_rate: rate(0.08),
            commission_rate: rate(0.12),
        },
        DenomDefinition {
            denom: "denom2".to_string(),
            issuer: "issuer_account_B".to_string(),
            burn_rate: rate(1.),
            commission_rate: rate(0.),
        },
    ];
    let multi_send_tx = MultiSend {
        inputs: vec![
            Balance {
                address: "account1".to_string(),
                coins: vec![Coin {
                    denom: "denom1".to_string(),
                    amount: 1000,
                }],
            },
            Balance {
                address: "account2".to_string(),
                coins: vec![Coin {
                    denom: "denom2".to_string(),
                    amount: 1000,
                }],
            },
        ],
        outputs: vec![Balance {
            address: "account_recipient".to_string(),
            coins: vec![
                Coin {
                    denom: "denom1".to_string(),
                    amount: 1000,
                },
                Coin {
                    denom: "denom2".to_string(),
                    amount: 1000,
                },
            ],
        }],
    };

    let res = calculate_balance_changes(original_balances, definitions, multi_send_tx).unwrap();

    let account1 = res.iter().find(|e| e.address == "account1").unwrap();

    assert_eq!(account1.coins.len(), 1);

    let account1_denom1 = account1.coins.iter().find(|e| e.denom == "denom1").unwrap();
    assert_eq!(account1_denom1.amount, -1200);
}

#[test]
fn test_issuer_on_sender_or_receiver() {
    let original_balances = vec![
        Balance {
            address: "account1".to_string(),
            coins: vec![Coin {
                denom: "denom1".to_string(),
                amount: 1000000,
            }],
        },
        Balance {
            address: "account2".to_string(),
            coins: vec![Coin {
                denom: "denom1".to_string(),
                amount: 1000000,
            }],
        },
    ];
    let definitions = vec![DenomDefinition {
        denom: "denom1".to_string(),
        issuer: "issuer_account_A".to_string(),
        burn_rate: rate(0.08),
        commission_rate: rate(0.12),
    }];
    let multi_send_tx = MultiSend {
        inputs: vec![
            Balance {
                address: "account1".to_string(),
                coins: vec![Coin {
                    denom: "denom1".to_string(),
                    amount: 650,
                }],
            },
            Balance {
                address: "account2".to_string(),
                coins: vec![Coin {
                    denom: "denom1".to_string(),
                    amount: 350,
                }],
            },
        ],
        outputs: vec![
            Balance {
                address: "account_recipient".to_string(),
                coins: vec![Coin {
                    denom: "denom1".to_string(),
                    amount: 500,
                }],
            },
            Balance {
                address: "issuer_account_A".to_string(),
                coins: vec![Coin {
                    denom: "denom1".to_string(),
                    amount: 500,
                }],
            },
        ],
    };

    let res = calculate_balance_changes(original_balances, definitions, multi_send_tx).unwrap();

    let account1 = res.iter().find(|e| e.address == "account1").unwrap();

    assert_eq!(account1.coins.len(), 1);

    let account1_denom1 = account1.coins.iter().find(|e| e.denom == "denom1").unwrap();
    assert_eq!(account1_denom1.amount, -715);
}

#[test]
fn test_not_enough_balance() {
    let original_balances = vec![Balance {
        address: "account1".to_string(),
        coins: vec![],
    }];
    let definitions = vec![DenomDefinition {
        denom: "denom1".to_string(),
        issuer: "issuer_account_A".to_string(),
        burn_rate: rate(0.),
        commission_rate: rate(0.),
    }];
    let multi_send_tx = MultiSend {
        inputs: vec![Balance {
            address: "account1".to_string(),
            coins: vec![Coin {
                denom: "denom1".to_string(),
                amount: 350,
            }],
        }],
        outputs: vec![Balance {
            address: "account_recipient".to_string(),
            coins: vec![Coin {
                denom: "denom1".to_string(),
                amount: 350,
            }],
        }],
    };

    let res = calculate_balance_changes(original_balances, definitions, multi_send_tx);

    match res {
        Err(value) => assert_eq!(value.message(), "Insufficient balance".to_string()),
        Ok(_) => panic!("wrong"),
    }
}

#[test]
fn test_input_output_mismatch() {
    let original_balances = vec![Balance {
        address: "account1".to_string(),
        coins: vec![Coin {
            denom: "denom1".to_string(),
            amount: 1000000,
        }],
    }];
    let definitions = vec![DenomDefinition {
        denom: "denom1".to_string(),
        issuer: "issuer_account_A".to_string(),
        burn_rate: rate(0.),
        commission_rate: rate(0.),
    }];
    let multi_send_tx = MultiSend {
        inputs: vec![Balance {
            address: "account1".to_string(),
            coins: vec![Coin {
                denom: "denom1".to_string(),
                amount: 350,
            }],
        }],
        outputs: vec![Balance {
            address: "account_recipient".to_string(),
            coins: vec![Coin {
                denom: "denom1".to_string(),
                amount: 450,
            }],
        }],
    };

    let res = calculate_balance_changes(original_balances, definitions, multi_send_tx);

    match res {
        Err(value) => assert_eq!(value.message(), "Input and output mismatch".to_string()),
        Ok(_) => panic!("wrong"),
    }
}

#[test]
fn test_rounding_up() {
    let original_balances = vec![
        Balance {
            address: "account1".to_string(),
            coins: vec![Coin {
                denom: "denom1".to_string(),
                amount: 1000,
            }],
        },
        Balance {
            address: "account2".to_string(),
            coins: vec![Coin {
                denom: "denom1".to_string(),
                amount: 1000,
            }],
        },
    ];
    let definitions = vec![DenomDefinition {
        denom: "denom1".to_string(),
        issuer: "issuer_account_A".to_string(),
        burn_rate: rate(0.01),
        commission_rate: rate(0.01),
    }];
    let multi_send_tx = MultiSend {
        inputs: vec![
            Balance {
                address: "account1".to_string(),
                coins: vec![Coin {
                    denom: "denom1".to_string(),
                    amount: 1,
                }],
            },
            Balance {
                address: "account2".to_string(),
                coins: vec![Coin {
                    denom: "denom1".to_string(),
                    amount: 1,
                }],
            },
        ],
        outputs: vec![Balance {
            address: "account_recipient".to_string(),
            coins: vec![Coin {
                denom: "denom1".to_string(),
                amount: 2,
            }],
        }],
    };

    let res = calculate_balance_changes(original_balances, definitions, multi_send_tx).unwrap();

    let account1 = res.iter().find(|e| e.address == "account1").unwrap();

    assert!(account1.coins[0].amount == -3);

    let account2 = res.iter().find(|e| e.address == "account2").unwrap();

    assert!(account2.coins[0].amount == -3);

    let account_recipient = res
        .iter()
        .find(|e| e.address == "account_recipient")
        .unwrap();

    assert!(account_recipient.coins[0].amount == 2);

    let issuer_account_a = res
        .iter()
        .find(|e| e.address == "issuer_account_A")
        .unwrap();

    assert!(issuer_account_a.coins[0].amount == 2);
}
