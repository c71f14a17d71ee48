//! A deterministic ledger engine: replays an ordered stream of transaction
//! events (deposit, withdrawal, dispute, resolve, chargeback) against a set of
//! per-client accounts and renders the resulting balance snapshot.
//!
//! Monetary amounts are fixed-point decimals held as integer counts of
//! ten-thousandths of a currency unit, so every balance computation is exact
//! integer arithmetic.

pub mod account;
pub mod engine;
pub mod numeric;
pub mod emit;
pub mod parse;
