use vstd::prelude::*;

verus! {

/// Identifier of a client account.
pub type ClientId = u16;

/// Identifier of a deposit or withdrawal transaction.
pub type TransactionId = u16;

/// Amounts are fixed-point: an `i64` counts ten-thousandths of a currency
/// unit, so `AMOUNT_UNITS_PER_WHOLE` units make one whole currency unit.
pub const AMOUNT_UNITS_PER_WHOLE: i64 = 10000;

/// A single payment engine action.
///
/// `amount` is a fixed-point value in ten-thousandths of a currency unit
/// (see [`AMOUNT_UNITS_PER_WHOLE`]). It is the amount as written in the
/// command; the sign convention for stored transaction records (withdrawals
/// negated) is applied by the engine, not here.
#[derive(Debug, Clone, Copy, PartialEq, Eq, Structural)]
pub enum PaymentCommand {
    Deposit { client: ClientId, tx: TransactionId, amount: i64 },
    Withdrawal { client: ClientId, tx: TransactionId, amount: i64 },
    Dispute { client: ClientId, tx: TransactionId },
    Resolve { client: ClientId, tx: TransactionId },
    Chargeback { client: ClientId, tx: TransactionId },
}

} // verus!
