//! A small payments ledger: replays an ordered log of deposit, withdrawal,
//! dispute, resolve and chargeback commands against per-client accounts and
//! reports the resulting balances.
//!
//! Amounts are fixed-point integers counted in ten-thousandths of a currency
//! unit, so the ledger arithmetic is exact. The dispute lifecycle, the
//! silent-no-op policy for invalid references and the single consistency
//! error (a client id mismatch on a dispute-family command) are stated in the
//! contracts of [`engine::PaymentsEngine`] and proved.

pub mod common;
pub mod engine;
pub mod error;
pub mod laws;
pub mod parse;
