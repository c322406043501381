use payments_engine::common::PaymentCommand;
use payments_engine::error::PaymentCommandParseError;
use payments_engine::parse::parse_commands;
use payments_engine::engine::PaymentsEngine;

const UNIT: i64 = 10000;

#[test]
fn row_deposit() {
    let r = PaymentCommand::from_csv_line("deposit,1,2,10.0").unwrap();
    assert_eq!(r, PaymentCommand::Deposit { client: 1, tx: 2, amount: 10 * UNIT });
}

#[test]
fn row_withdrawal_with_spaces() {
    let r = PaymentCommand::from_csv_line(" withdrawal , 5 ,\t7 , 3.5 ").unwrap();
    assert_eq!(r, PaymentCommand::Withdrawal { client: 5, tx: 7, amount: 35000 });
}

#[test]
fn row_dispute_resolve_chargeback() {
    assert_eq!(
        PaymentCommand::from_csv_line("dispute,1,1").unwrap(),
        PaymentCommand::Dispute { client: 1, tx: 1 }
    );
    assert_eq!(
        PaymentCommand::from_csv_line("resolve,1,1").unwrap(),
        PaymentCommand::Resolve { client: 1, tx: 1 }
    );
    assert_eq!(
        PaymentCommand::from_csv_line("chargeback,1,1").unwrap(),
        PaymentCommand::Chargeback { client: 1, tx: 1 }
    );
}

#[test]
fn row_amount_forms() {
    // whole number, no dot
    assert_eq!(
        PaymentCommand::from_csv_line("deposit,1,1,7").unwrap(),
        PaymentCommand::Deposit { client: 1, tx: 1, amount: 7 * UNIT }
    );
    // fraction only
    assert_eq!(
        PaymentCommand::from_csv_line("deposit,1,1,.5").unwrap(),
        PaymentCommand::Deposit { client: 1, tx: 1, amount: 5000 }
    );
    // trailing dot
    assert_eq!(
        PaymentCommand::from_csv_line("deposit,1,1,5.").unwrap(),
        PaymentCommand::Deposit { client: 1, tx: 1, amount: 5 * UNIT }
    );
    // all four fraction digits
    assert_eq!(
        PaymentCommand::from_csv_line("deposit,1,1,0.0001").unwrap(),
        PaymentCommand::Deposit { client: 1, tx: 1, amount: 1 }
    );
    // signed amounts
    assert_eq!(
        PaymentCommand::from_csv_line("deposit,1,1,-2.5").unwrap(),
        PaymentCommand::Deposit { client: 1, tx: 1, amount: -25000 }
    );
    assert_eq!(
        PaymentCommand::from_csv_line("deposit,1,1,+2.5").unwrap(),
        PaymentCommand::Deposit { client: 1, tx: 1, amount: 25000 }
    );
}

#[test]
fn row_identifier_forms() {
    // a leading plus is accepted on identifiers, leading zeros too
    assert_eq!(
        PaymentCommand::from_csv_line("dispute,+1,007").unwrap(),
        PaymentCommand::Dispute { client: 1, tx: 7 }
    );
    // the largest identifier
    assert_eq!(
        PaymentCommand::from_csv_line("dispute,65535,0").unwrap(),
        PaymentCommand::Dispute { client: 65535, tx: 0 }
    );
}

#[test]
fn row_missing_data() {
    assert!(matches!(
        PaymentCommand::from_csv_line("deposit,1"),
        Err(PaymentCommandParseError::MissingData(_))
    ));
    assert!(matches!(
        PaymentCommand::from_csv_line("deposit,1,2"),
        Err(PaymentCommandParseError::MissingData(_))
    ));
}

#[test]
fn row_unknown_command() {
    match PaymentCommand::from_csv_line("transfer,1,2,3.0") {
        Err(PaymentCommandParseError::NoSuchPaymentCommand(m)) => {
            assert_eq!(m, "transfer is not a valid payment command.");
        },
        other => panic!("expected NoSuchPaymentCommand, got {:?}", other),
    }
}

#[test]
fn row_bad_numbers() {
    // bad client id
    assert!(matches!(
        PaymentCommand::from_csv_line("deposit,x,2,3.0"),
        Err(PaymentCommandParseError::ParseError(_))
    ));
    // client id out of range
    assert!(matches!(
        PaymentCommand::from_csv_line("deposit,65536,2,3.0"),
        Err(PaymentCommandParseError::ParseError(_))
    ));
    // bad transaction id
    assert!(matches!(
        PaymentCommand::from_csv_line("dispute,1,-2"),
        Err(PaymentCommandParseError::ParseError(_))
    ));
    // bad amount: empty, lone dot, too many fraction digits, stray character
    assert!(matches!(
        PaymentCommand::from_csv_line("deposit,1,2,"),
        Err(PaymentCommandParseError::ParseError(_))
    ));
    assert!(matches!(
        PaymentCommand::from_csv_line("deposit,1,2,."),
        Err(PaymentCommandParseError::ParseError(_))
    ));
    assert!(matches!(
        PaymentCommand::from_csv_line("deposit,1,2,1.00001"),
        Err(PaymentCommandParseError::ParseError(_))
    ));
    assert!(matches!(
        PaymentCommand::from_csv_line("deposit,1,2,1a.0"),
        Err(PaymentCommandParseError::ParseError(_))
    ));
    // amount too large for the fixed-point range
    assert!(matches!(
        PaymentCommand::from_csv_line("deposit,1,2,99999999999999999999"),
        Err(PaymentCommandParseError::ParseError(_))
    ));
}

#[test]
fn parse_commands_happy_path() {
    let input = "type,client,tx,amount\ndeposit,1,1,10.0\nwithdrawal,1,2,3.0\ndispute,1,1\n";
    let cmds = parse_commands(input).unwrap();
    assert_eq!(
        cmds,
        vec![
            PaymentCommand::Deposit { client: 1, tx: 1, amount: 10 * UNIT },
            PaymentCommand::Withdrawal { client: 1, tx: 2, amount: 3 * UNIT },
            PaymentCommand::Dispute { client: 1, tx: 1 },
        ]
    );
}

#[test]
fn parse_commands_windows_line_endings() {
    let input = "type,client,tx,amount\r\ndeposit,1,1,2.0\r\n";
    let cmds = parse_commands(input).unwrap();
    assert_eq!(cmds, vec![PaymentCommand::Deposit { client: 1, tx: 1, amount: 2 * UNIT }]);
}

#[test]
fn parse_commands_missing_header() {
    match parse_commands("") {
        Err(e) => {
            assert_eq!(e.0, 0);
            assert!(matches!(e.1, PaymentCommandParseError::MissingHeader(_)));
        },
        Ok(_) => panic!("expected a missing header error"),
    }
}

#[test]
fn parse_commands_incorrect_header() {
    match parse_commands("kind,client,tx,amount\ndeposit,1,1,2.0\n") {
        Err(e) => {
            assert_eq!(e.0, 0);
            assert!(matches!(e.1, PaymentCommandParseError::MissingHeader(_)));
        },
        Ok(_) => panic!("expected an incorrect header error"),
    }
}

#[test]
fn parse_commands_reports_bad_line_number() {
    let input = "type,client,tx,amount\ndeposit,1,1,10.0\nnonsense,2,2,1.0\n";
    match parse_commands(input) {
        Err(e) => {
            // the bad row is the 0-based line 2, reported 1-based as line 3
            assert_eq!(e.0, 3);
            assert!(matches!(e.1, PaymentCommandParseError::NoSuchPaymentCommand(_)));
        },
        Ok(_) => panic!("expected a parse error"),
    }
}

#[test]
fn parse_then_run() {
    let input = "type,client,tx,amount\ndeposit,1,1,10.0\ndeposit,2,2,5.0\nwithdrawal,1,3,3.0\n";
    let cmds = parse_commands(input).unwrap();
    let mut e = PaymentsEngine::new();
    e.run_commands(&cmds).unwrap();
    assert_eq!(e.get_client(1).unwrap().available, 7 * UNIT);
    assert_eq!(e.get_client(2).unwrap().available, 5 * UNIT);
}

#[test]
fn header_cells_are_trimmed() {
    let input = " type , client ,\ttx , amount \ndeposit,1,1,1.0\n";
    let cmds = parse_commands(input).unwrap();
    assert_eq!(cmds, vec![PaymentCommand::Deposit { client: 1, tx: 1, amount: UNIT }]);
}

#[test]
fn extra_cells_after_the_amount_are_ignored() {
    // splitting yields more than four cells; only the first four are read
    let r = PaymentCommand::from_csv_line("deposit,1,2,3.0,junk").unwrap();
    assert_eq!(r, PaymentCommand::Deposit { client: 1, tx: 2, amount: 30000 });
}
