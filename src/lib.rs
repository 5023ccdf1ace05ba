//! Balance changes of a batched transfer between many accounts in many
//! denominations, where transfers by accounts other than a denomination's
//! issuer carry a proportional burn and an issuer commission.
//!
//! A transaction is checked ([`validation`]), its fee shares are computed
//! and its changes projected from them ([`transfer`]). The contracts speak of
//! the transaction as a flat sequence of legs ([`model`]); [`rules`] says what
//! the outcome is, and [`laws`] states what holds of every outcome.

pub mod model;
pub mod sums;
pub mod ledger;
pub mod fees;
pub mod rules;
pub mod validation;
pub mod accounting;
pub mod transfer;
pub mod aggregate;
pub mod laws;
