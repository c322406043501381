use payments_engine::common::PaymentCommand;
use payments_engine::engine::{PaymentsEngine, TransactionStatus};
use payments_engine::error::{EngineError, Error, RuntimeError};

// amounts are fixed point in ten-thousandths of a unit
const UNIT: i64 = 10000;

fn dep(client: u16, tx: u16, amount: i64) -> PaymentCommand {
    PaymentCommand::Deposit { client, tx, amount }
}

fn wd(client: u16, tx: u16, amount: i64) -> PaymentCommand {
    PaymentCommand::Withdrawal { client, tx, amount }
}

fn dis(client: u16, tx: u16) -> PaymentCommand {
    PaymentCommand::Dispute { client, tx }
}

fn res(client: u16, tx: u16) -> PaymentCommand {
    PaymentCommand::Resolve { client, tx }
}

fn cb(client: u16, tx: u16) -> PaymentCommand {
    PaymentCommand::Chargeback { client, tx }
}

#[test]
fn scenario_deposits_and_withdrawal() {
    let mut e = PaymentsEngine::new();
    let cmds = vec![dep(1, 1, 10 * UNIT), dep(2, 2, 5 * UNIT), wd(1, 3, 3 * UNIT)];
    e.run_commands(&cmds).unwrap();
    let c1 = e.get_client(1).unwrap();
    assert_eq!(c1.available, 7 * UNIT);
    assert_eq!(c1.held, 0);
    assert_eq!(c1.total(), (7 * UNIT) as i128);
    assert!(!c1.locked);
    let c2 = e.get_client(2).unwrap();
    assert_eq!(c2.available, 5 * UNIT);
    assert_eq!(c2.held, 0);
    assert_eq!(c2.total(), (5 * UNIT) as i128);
    assert!(!c2.locked);
}

#[test]
fn scenario_dispute_holds_funds() {
    let mut e = PaymentsEngine::new();
    e.run_commands(&[dep(1, 1, 10 * UNIT), dis(1, 1)]).unwrap();
    let c1 = e.get_client(1).unwrap();
    assert_eq!(c1.available, 0);
    assert_eq!(c1.held, 10 * UNIT);
    assert_eq!(c1.total(), (10 * UNIT) as i128);
    assert!(!c1.locked);
    let t = e.get_transaction(1).unwrap();
    assert_eq!(t.status, TransactionStatus::Disputed);
}

#[test]
fn scenario_chargeback_locks() {
    let mut e = PaymentsEngine::new();
    e.run_commands(&[dep(1, 1, 10 * UNIT), dis(1, 1), cb(1, 1)]).unwrap();
    let c1 = e.get_client(1).unwrap();
    assert_eq!(c1.available, 0);
    assert_eq!(c1.held, 0);
    assert_eq!(c1.total(), 0);
    assert!(c1.locked);
    let t = e.get_transaction(1).unwrap();
    assert_eq!(t.status, TransactionStatus::Chargebacked);
}

#[test]
fn scenario_wrong_claimed_client_aborts() {
    let mut e = PaymentsEngine::new();
    let r = e.run_commands(&[dep(1, 1, 10 * UNIT), dis(2, 1)]);
    assert_eq!(r, Err(RuntimeError(3, EngineError::ClientIdMismatch(2, 1))));
    // no balance change from the failed dispute
    let c1 = e.get_client(1).unwrap();
    assert_eq!(c1.available, 10 * UNIT);
    assert_eq!(c1.held, 0);
}

#[test]
fn scenario_withdrawal_from_unknown_client() {
    let mut e = PaymentsEngine::new();
    e.run_commands(&[wd(1, 1, 50 * UNIT)]).unwrap();
    // the client record is created zeroed by the eligibility lookup
    let c1 = e.get_client(1).unwrap();
    assert_eq!(c1.available, 0);
    assert_eq!(c1.held, 0);
    assert!(!c1.locked);
    // but no transaction record exists for tx 1
    assert!(e.get_transaction(1).is_none());
}

#[test]
fn money_conservation_concrete() {
    let mut e = PaymentsEngine::new();
    let cmds = vec![
        dep(1, 1, 10 * UNIT),
        dep(2, 2, 5 * UNIT),
        wd(1, 3, 3 * UNIT),
        wd(2, 4, 50 * UNIT), // insufficient funds: silently ignored
        wd(3, 5, 1 * UNIT),  // unknown client: silently ignored
    ];
    e.run_commands(&cmds).unwrap();
    let deposits: i128 = (10 * UNIT + 5 * UNIT) as i128;
    let accepted_withdrawals: i128 = (3 * UNIT) as i128;
    let sum_totals: i128 = e
        .client_ids()
        .iter()
        .map(|&c| e.get_client(c).unwrap().total())
        .sum();
    assert_eq!(sum_totals, deposits - accepted_withdrawals);
}

#[test]
fn dispute_resolve_round_trip() {
    let mut e = PaymentsEngine::new();
    e.run_commands(&[dep(1, 1, 10 * UNIT), dep(1, 2, 4 * UNIT)]).unwrap();
    let before = e.get_client(1).unwrap();
    e.run_commands(&[dis(1, 2), res(1, 2)]).unwrap();
    let after = e.get_client(1).unwrap();
    assert_eq!(before.available, after.available);
    assert_eq!(before.held, after.held);
    assert_eq!(before.locked, after.locked);
    assert_eq!(e.get_transaction(2).unwrap().status, TransactionStatus::Resolved);
}

#[test]
fn chargeback_stays_locked() {
    let mut e = PaymentsEngine::new();
    e.run_commands(&[dep(1, 1, 10 * UNIT), dis(1, 1), cb(1, 1)]).unwrap();
    assert!(e.get_client(1).unwrap().locked);
    // no later command unlocks the account
    e.run_commands(&[dep(1, 2, 2 * UNIT), wd(1, 3, 1 * UNIT), dis(1, 2), res(1, 2)])
        .unwrap();
    assert!(e.get_client(1).unwrap().locked);
}

#[test]
fn double_dispute_is_noop() {
    let mut e = PaymentsEngine::new();
    e.run_commands(&[dep(1, 1, 10 * UNIT), dis(1, 1)]).unwrap();
    let before = e.get_client(1).unwrap();
    // a second dispute of the same transaction changes nothing, even with a
    // different claimed client: the status check comes first
    e.run_command(dis(1, 1)).unwrap();
    e.run_command(dis(2, 1)).unwrap();
    let after = e.get_client(1).unwrap();
    assert_eq!(before.available, after.available);
    assert_eq!(before.held, after.held);
}

#[test]
fn resolve_and_chargeback_of_undisputed_are_noops() {
    let mut e = PaymentsEngine::new();
    e.run_commands(&[dep(1, 1, 10 * UNIT)]).unwrap();
    // unknown transaction
    assert_eq!(e.run_command(res(1, 99)), Ok(()));
    assert_eq!(e.run_command(cb(1, 99)), Ok(()));
    // transaction exists but is not disputed
    assert_eq!(e.run_command(res(1, 1)), Ok(()));
    assert_eq!(e.run_command(cb(1, 1)), Ok(()));
    let c1 = e.get_client(1).unwrap();
    assert_eq!(c1.available, 10 * UNIT);
    assert_eq!(c1.held, 0);
    assert!(!c1.locked);
    assert_eq!(e.get_transaction(1).unwrap().status, TransactionStatus::Normal);
}

#[test]
fn withdrawal_insufficient_funds_is_noop() {
    let mut e = PaymentsEngine::new();
    e.run_commands(&[dep(1, 1, 2 * UNIT), wd(1, 2, 3 * UNIT)]).unwrap();
    let c1 = e.get_client(1).unwrap();
    assert_eq!(c1.available, 2 * UNIT);
    assert!(e.get_transaction(2).is_none());
}

#[test]
fn locked_account_can_still_withdraw_with_funds() {
    // the eligibility guard is exactly `!locked && available < amount`, so a
    // locked account is not stopped by it
    let mut e = PaymentsEngine::new();
    e.run_commands(&[dep(1, 1, 10 * UNIT), dep(1, 2, 5 * UNIT), dis(1, 1), cb(1, 1)])
        .unwrap();
    assert!(e.get_client(1).unwrap().locked);
    e.run_command(wd(1, 3, 2 * UNIT)).unwrap();
    let c1 = e.get_client(1).unwrap();
    assert_eq!(c1.available, 3 * UNIT);
    assert_eq!(e.get_transaction(3).unwrap().amount, -2 * UNIT);
}

#[test]
fn deposit_overwrites_duplicate_transaction_id() {
    let mut e = PaymentsEngine::new();
    e.run_commands(&[dep(1, 1, 10 * UNIT), dep(1, 1, 4 * UNIT)]).unwrap();
    // both deposits are credited, the record keeps only the later amount
    let c1 = e.get_client(1).unwrap();
    assert_eq!(c1.available, 14 * UNIT);
    assert_eq!(e.get_transaction(1).unwrap().amount, 4 * UNIT);
}

#[test]
fn disputing_a_withdrawal_reverses_it_into_held() {
    let mut e = PaymentsEngine::new();
    e.run_commands(&[dep(1, 1, 10 * UNIT), wd(1, 2, 3 * UNIT), dis(1, 2)]).unwrap();
    let c1 = e.get_client(1).unwrap();
    // the stored amount is negative, so the dispute adds the withdrawn money
    // back to available and holds a negative amount
    assert_eq!(c1.available, 10 * UNIT);
    assert_eq!(c1.held, -3 * UNIT);
    assert_eq!(c1.total(), (7 * UNIT) as i128);
}

#[test]
fn resolved_transaction_can_be_disputed_again() {
    // only an already-Disputed status blocks a dispute; a resolved one can
    // re-enter the dispute lifecycle
    let mut e = PaymentsEngine::new();
    e.run_commands(&[dep(1, 1, 10 * UNIT), dis(1, 1), res(1, 1), dis(1, 1)]).unwrap();
    let c1 = e.get_client(1).unwrap();
    assert_eq!(c1.available, 0);
    assert_eq!(c1.held, 10 * UNIT);
    assert_eq!(e.get_transaction(1).unwrap().status, TransactionStatus::Disputed);
}

#[test]
fn client_ids_lists_each_client_once_in_first_reference_order() {
    let mut e = PaymentsEngine::new();
    e.run_commands(&[dep(2, 1, UNIT), dep(1, 2, UNIT), dep(2, 3, UNIT), wd(7, 4, UNIT)])
        .unwrap();
    assert_eq!(e.client_ids(), vec![2, 1, 7]);
}

#[test]
fn run_commands_stops_at_first_error() {
    let mut e = PaymentsEngine::new();
    let r = e.run_commands(&[dep(1, 1, UNIT), dep(2, 2, UNIT), dis(1, 2), dep(3, 3, UNIT)]);
    assert_eq!(r, Err(RuntimeError(4, EngineError::ClientIdMismatch(1, 2))));
    // the command after the failing one was not applied
    assert!(e.get_client(3).is_none());
}

#[test]
fn error_wrapping() {
    let rt = RuntimeError(3, EngineError::ClientIdMismatch(2, 1));
    assert!(matches!(Error::from(rt), Error::Runtime(_)));
    assert!(matches!(Error::from(String::from("boom")), Error::Other(_)));
}

#[test]
fn report_renders_fixed_point_amounts() {
    let mut e = PaymentsEngine::new();
    e.run_commands(&[
        dep(1, 1, 10 * UNIT),
        dep(2, 2, 5 * UNIT + 5000), // 5.5
        wd(1, 3, 3 * UNIT),
    ])
    .unwrap();
    assert_eq!(
        e.to_csv_string(),
        "client,available,held,total,locked\n1,7,0,7,false\n2,5.5,0,5.5,false"
    );
}

#[test]
fn report_sorted_orders_by_client_id() {
    let mut e = PaymentsEngine::new();
    e.run_commands(&[dep(9, 1, UNIT), dep(3, 2, 2 * UNIT)]).unwrap();
    assert_eq!(
        e.to_csv_string_sorted(),
        "client,available,held,total,locked\n3,2,0,2,false\n9,1,0,1,false"
    );
    // the unsorted report keeps first-reference order
    assert_eq!(
        e.to_csv_string(),
        "client,available,held,total,locked\n9,1,0,1,false\n3,2,0,2,false"
    );
}

#[test]
fn row_rendering_edge_amounts() {
    let cd = |available: i64, held: i64, locked: bool| payments_engine::engine::ClientData {
        available,
        held,
        locked,
    };
    // a single ten-thousandth prints all four fraction digits
    assert_eq!(cd(1, 0, false).to_csv_string(7), "7,0.0001,0,0.0001,false");
    // trailing fraction zeros are trimmed
    assert_eq!(cd(25000, 0, true).to_csv_string(1), "1,2.5,0,2.5,true");
    // negative held balances print a minus sign
    assert_eq!(cd(100000, -30000, false).to_csv_string(2), "2,10,-3,7,false");
    // header row stays fixed
    let e = PaymentsEngine::new();
    assert_eq!(e.to_csv_string(), "client,available,held,total,locked");
}

#[test]
fn dispute_of_unknown_transaction_is_noop() {
    let mut e = PaymentsEngine::new();
    e.run_commands(&[dep(1, 1, 10 * UNIT)]).unwrap();
    assert_eq!(e.run_command(dis(1, 42)), Ok(()));
    let c1 = e.get_client(1).unwrap();
    assert_eq!(c1.available, 10 * UNIT);
    assert_eq!(c1.held, 0);
}

#[test]
fn negative_withdrawal_amount_credits_the_account() {
    // the eligibility guard `available < amount` never trips for a negative
    // amount, so the subtraction adds money; the record stores the negation
    let mut e = PaymentsEngine::new();
    e.run_commands(&[dep(1, 1, 2 * UNIT), wd(1, 2, -3 * UNIT)]).unwrap();
    let c1 = e.get_client(1).unwrap();
    assert_eq!(c1.available, 5 * UNIT);
    assert_eq!(e.get_transaction(2).unwrap().amount, 3 * UNIT);
}
